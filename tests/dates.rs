use ledger::{Date, DateRange, UNIX_EPOCH_DAY};

#[test]
fn from_ymd_counts_days_from_the_common_era() {
    assert_eq!(Date::from_ymd(1, 1, 1), Some(Date { days_from_ce: 1 }));
    assert_eq!(Date::from_ymd(1970, 1, 1), Some(Date { days_from_ce: 719_163 }));
    assert_eq!(Date::from_ymd(2023, 5, 1), Some(Date { days_from_ce: 738_641 }));
}

#[test]
fn from_ymd_rejects_missing_days() {
    assert_eq!(Date::from_ymd(2023, 2, 29), None);
    assert_eq!(Date::from_ymd(2023, 4, 31), None);
    assert_eq!(Date::from_ymd(2023, 13, 1), None);
    assert_eq!(Date::from_ymd(2023, 0, 1), None);
    assert!(Date::from_ymd(2024, 2, 29).is_some());
}

#[test]
fn parse_reads_iso_dates() {
    assert_eq!(Date::parse("2023-05-01"), Date::from_ymd(2023, 5, 1));
    assert_eq!(Date::parse("2023-01-31"), Some(Date { days_from_ce: 738_551 }));
    assert_eq!(Date::parse("not a date"), None);
    assert_eq!(Date::parse(""), None);
    assert_eq!(Date::parse("2023-02-30"), None);
}

#[test]
fn consecutive_days_are_consecutive_numbers() {
    let last = Date::from_ymd(2023, 2, 28).unwrap();
    let first = Date::from_ymd(2023, 3, 1).unwrap();
    assert_eq!(first.days_from_ce, last.days_from_ce + 1);
}

#[test]
fn range_contains_both_ends() {
    let start = Date::from_ymd(2023, 5, 1).unwrap();
    let end = Date::from_ymd(2023, 5, 3).unwrap();
    let range = DateRange::from((start, end));
    assert!(range.contains(&start));
    assert!(range.contains(&end));
    assert!(range.contains(&Date::from_ymd(2023, 5, 2).unwrap()));
    assert!(!range.contains(&Date::from_ymd(2023, 4, 30).unwrap()));
    assert!(!range.contains(&Date::from_ymd(2023, 5, 4).unwrap()));
    let inverted = DateRange::from((end, start));
    assert!(!inverted.contains(&Date::from_ymd(2023, 5, 2).unwrap()));
}

#[test]
fn defaults_are_the_unix_epoch() {
    assert_eq!(Date::default().days_from_ce, UNIX_EPOCH_DAY);
    assert_eq!(Date::default(), Date::from_ymd(1970, 1, 1).unwrap());
    let range = DateRange::default();
    assert_eq!(range.start, range.end);
}
