use ledger::{
    Date, DateRange, DateSummary, Entry, Log, TimelineData, Transaction, TransactionKind,
    TransactionRecord, DEFAULT_END_DAY, DEFAULT_START_DAY,
};

fn ymd(y: i32, m: u32, d: u32) -> Date {
    Date::from_ymd(y, m, d).expect("a valid date")
}

fn income(value: i32, date: Date) -> Entry {
    Entry::Create(Transaction { value, kind: TransactionKind::Income, date })
}

fn expense(value: i32, date: Date) -> Entry {
    Entry::Create(Transaction { value, kind: TransactionKind::Expense, date })
}

fn set_range(start: Date, end: Date) -> Entry {
    Entry::SetDate(DateRange { start, end })
}

fn summary(date: Date, income: i32, expenses: i32, balance: i32) -> DateSummary {
    DateSummary { date, income, expenses, balance }
}

fn may_example() -> Log {
    Log::from_entries(vec![
        set_range(ymd(2023, 5, 1), ymd(2023, 5, 3)),
        income(100, ymd(2023, 5, 1)),
        expense(30, ymd(2023, 5, 2)),
        Entry::Delete(0),
    ])
}

#[test]
fn example_transaction_records() {
    let log = may_example();
    assert_eq!(
        log.transaction_records(),
        vec![TransactionRecord {
            id: 1,
            transaction: Transaction {
                value: 30,
                kind: TransactionKind::Expense,
                date: ymd(2023, 5, 2),
            },
        }]
    );
}

#[test]
fn example_timeline() {
    let log = may_example();
    assert_eq!(
        log.timeline_data(),
        TimelineData(vec![
            summary(ymd(2023, 5, 1), 0, 0, 0),
            summary(ymd(2023, 5, 2), 0, 30, -30),
            summary(ymd(2023, 5, 3), 0, 0, -30),
        ])
    );
}

#[test]
fn empty_log_has_no_records_and_default_window() {
    let log = Log::new();
    assert!(log.transaction_records().is_empty());
    assert_eq!(log.date_range().start.days_from_ce, DEFAULT_START_DAY);
    assert_eq!(log.date_range().end.days_from_ce, DEFAULT_END_DAY);
    let timeline = log.timeline_data();
    assert_eq!(timeline.len(), 31);
    assert!(timeline.summaries().iter().all(|s| s.income == 0 && s.expenses == 0 && s.balance == 0));
}

#[test]
fn default_window_is_january_2023() {
    assert_eq!(DateRange::default_window().start, ymd(2023, 1, 1));
    assert_eq!(DateRange::default_window().end, ymd(2023, 1, 31));
}

#[test]
fn ids_count_creates_only() {
    let d = ymd(2023, 1, 10);
    let log = Log::from_entries(vec![
        income(1, d),
        Entry::Delete(7),
        set_range(d, d),
        expense(2, d),
        Entry::Delete(0),
        income(3, d),
    ]);
    let ids: Vec<u16> = log.transaction_records().iter().map(|r| r.id).collect();
    assert_eq!(ids, vec![1, 2]);
    let creates = log.create_entries();
    assert_eq!(creates.len(), 3);
    assert_eq!(creates[0].0, 0);
    assert_eq!(creates[1].0, 3);
    assert_eq!(creates[2].0, 5);
    assert_eq!(creates.iter().map(|c| c.1.id).collect::<Vec<_>>(), vec![0, 1, 2]);
    assert_eq!(creates[2].1.transaction.value, 3);
}

#[test]
fn delete_then_recreate_gets_a_new_id() {
    let d = ymd(2023, 1, 10);
    let log = Log::from_entries(vec![income(5, d), Entry::Delete(0), income(5, d)]);
    let recs = log.transaction_records();
    assert_eq!(recs.len(), 1);
    assert_eq!(recs[0].id, 1);
}

#[test]
fn delete_before_create_does_not_apply() {
    let d = ymd(2023, 1, 10);
    let log = Log::from_entries(vec![Entry::Delete(0), income(5, d)]);
    assert_eq!(log.transaction_records().len(), 1);
    assert_eq!(log.transaction_records()[0].id, 0);
}

#[test]
fn unknown_delete_is_absorbed() {
    let d = ymd(2023, 1, 10);
    let log = Log::from_entries(vec![income(5, d), Entry::Delete(42)]);
    assert_eq!(log.transaction_records().len(), 1);
}

#[test]
fn delete_twice_equals_delete_once() {
    let d = ymd(2023, 1, 10);
    let mut once = Log::from_entries(vec![income(5, d), expense(3, d)]);
    let mut twice = once.clone();
    once.append(Entry::Delete(1));
    twice.append(Entry::Delete(1));
    twice.append(Entry::Delete(1));
    assert_eq!(once.transaction_records(), twice.transaction_records());
    assert_eq!(once.transaction_records().len(), 1);
}

#[test]
fn records_sorted_by_id() {
    let d = ymd(2023, 1, 10);
    let log = Log::from_entries(vec![
        income(1, ymd(2023, 1, 20)),
        income(2, d),
        expense(3, ymd(2023, 1, 1)),
        Entry::Delete(1),
        income(4, d),
    ]);
    let ids: Vec<u16> = log.transaction_records().iter().map(|r| r.id).collect();
    assert_eq!(ids, vec![0, 2, 3]);
}

#[test]
fn inverted_range_gives_empty_timeline() {
    let log = Log::from_entries(vec![
        income(10, ymd(2023, 5, 2)),
        set_range(ymd(2023, 5, 3), ymd(2023, 5, 1)),
    ]);
    assert_eq!(log.timeline_data().len(), 0);
    assert_eq!(log.timeline_data().start_date(), None);
}

#[test]
fn single_day_range() {
    let d = ymd(2023, 5, 2);
    let log = Log::from_entries(vec![income(10, d), expense(4, d), set_range(d, d)]);
    assert_eq!(log.timeline_data(), TimelineData(vec![summary(d, 10, 4, 6)]));
}

#[test]
fn last_set_date_wins() {
    let log = Log::from_entries(vec![
        set_range(ymd(2023, 5, 1), ymd(2023, 5, 3)),
        income(1, ymd(2023, 5, 1)),
        set_range(ymd(2023, 6, 1), ymd(2023, 6, 10)),
    ]);
    assert_eq!(log.date_range(), DateRange { start: ymd(2023, 6, 1), end: ymd(2023, 6, 10) });
    assert_eq!(log.timeline_data().len(), 10);
}

#[test]
fn timeline_dates_cover_window_contiguously() {
    let start = ymd(2023, 2, 25);
    let end = ymd(2023, 3, 2);
    let log = Log::from_entries(vec![set_range(start, end)]);
    let timeline = log.timeline_data();
    let n = (end.days_from_ce - start.days_from_ce + 1) as usize;
    assert_eq!(timeline.len(), n);
    assert_eq!(n, 6);
    for (i, s) in timeline.summaries().iter().enumerate() {
        assert_eq!(s.date.days_from_ce, start.days_from_ce + i as i32);
    }
    assert_eq!(timeline.summaries()[0].date, start);
    assert_eq!(timeline.summaries()[n - 1].date, end);
    assert_eq!(timeline.start_date(), Some(start));
}

#[test]
fn transactions_outside_window_are_ignored() {
    let start = ymd(2023, 5, 1);
    let end = ymd(2023, 5, 3);
    let inside = Log::from_entries(vec![set_range(start, end), income(100, ymd(2023, 5, 2))]);
    let mut with_outside = inside.clone();
    with_outside.append(income(1000, ymd(2023, 4, 30)));
    with_outside.append(expense(500, ymd(2023, 5, 4)));
    assert_eq!(with_outside.transaction_records().len(), 3);
    assert_eq!(inside.timeline_data(), with_outside.timeline_data());
}

#[test]
fn balance_accumulates_day_by_day() {
    let log = Log::from_entries(vec![
        set_range(ymd(2023, 5, 1), ymd(2023, 5, 5)),
        income(100, ymd(2023, 5, 1)),
        income(50, ymd(2023, 5, 3)),
        expense(30, ymd(2023, 5, 3)),
        expense(200, ymd(2023, 5, 5)),
        income(7, ymd(2023, 5, 5)),
    ]);
    let timeline = log.timeline_data();
    let s = timeline.summaries();
    let mut before = 0;
    for day in s {
        assert_eq!(day.balance, before + day.income - day.expenses);
        before = day.balance;
    }
    assert_eq!(
        s.iter().map(|d| d.balance).collect::<Vec<_>>(),
        vec![100, 100, 120, 120, -73]
    );
}

#[test]
fn sums_saturate_at_the_bounds() {
    let d = ymd(2023, 5, 1);
    let log = Log::from_entries(vec![
        set_range(d, ymd(2023, 5, 2)),
        income(i32::MAX, d),
        income(10, d),
        expense(i32::MAX, ymd(2023, 5, 2)),
        expense(i32::MAX, ymd(2023, 5, 2)),
        expense(i32::MAX, ymd(2023, 5, 2)),
    ]);
    let timeline = log.timeline_data();
    let s = timeline.summaries();
    assert_eq!(s[0], summary(d, i32::MAX, 0, i32::MAX));
    assert_eq!(s[1].expenses, i32::MAX);
    assert_eq!(s[1].balance, i32::MIN);
}

#[test]
fn entries_append_and_reduce_keep_history() {
    let d = ymd(2023, 5, 1);
    let mut log = Log::new();
    log.append(income(1, d));
    log.append(Entry::Delete(0));
    let reduced = log.reduce(set_range(d, d));
    assert_eq!(log.entries(), vec![income(1, d), Entry::Delete(0)]);
    assert_eq!(reduced.entries(), vec![income(1, d), Entry::Delete(0), set_range(d, d)]);
    assert_eq!(Log::default().entries(), Vec::<Entry>::new());
}

#[test]
fn dispatch_appends_and_projects() {
    let d = ymd(2023, 5, 1);
    let mut log = Log::from_entries(vec![set_range(d, d)]);
    let (records, timeline) = log.dispatch(income(9, d));
    assert_eq!(log.entries().len(), 2);
    assert_eq!(records.len(), 1);
    assert_eq!(timeline, TimelineData(vec![summary(d, 9, 0, 9)]));
}

#[test]
fn delete_entries_and_positions() {
    let d = ymd(2023, 5, 1);
    let log = Log::from_entries(vec![income(1, d), Entry::Delete(3), income(2, d), Entry::Delete(0)]);
    assert_eq!(log.delete_entries(), vec![(1, 3), (3, 0)]);
    assert_eq!(log.transaction_id_at(0), 0);
    assert_eq!(log.transaction_id_at(2), 1);
    assert_eq!(log.transaction_id_at(4), 2);
    assert_eq!(log.transaction_id_at(100), 2);
    assert_eq!(log.create_count(), 2);
    assert_eq!(log.latest_create(&0), Some(0));
    assert_eq!(log.latest_create(&1), Some(2));
    assert_eq!(log.latest_create(&2), None);
}

#[test]
fn start_date_is_the_earliest() {
    let a = ymd(2023, 5, 3);
    let b = ymd(2023, 5, 1);
    let data = TimelineData(vec![summary(a, 0, 0, 0), summary(b, 0, 0, 0)]);
    assert_eq!(data.start_date(), Some(b));
    assert_eq!(TimelineData::default().start_date(), None);
}

#[test]
fn value_type_defaults_and_conversions() {
    let d = ymd(2023, 5, 1);
    let t = Transaction { value: 3, kind: TransactionKind::Expense, date: d };
    let rec = TransactionRecord::from((4, t));
    assert_eq!(rec.id, 4);
    assert_eq!(rec.transaction, t);
    let s = DateSummary::default();
    assert_eq!(s.date, ymd(1970, 1, 1));
    assert_eq!((s.income, s.expenses, s.balance), (0, 0, 0));
    assert_eq!(TransactionKind::Income.name(), "Income");
    assert_eq!(TransactionKind::Expense.name(), "Expense");
    assert!(ledger::TransactionsListData::default().transaction_records.is_empty());
}

#[test]
fn timeline_iter_walks_in_order() {
    let log = may_example();
    let timeline = log.timeline_data();
    let balances: Vec<i32> = timeline.iter().map(|s| s.balance).collect();
    assert_eq!(balances, vec![0, -30, -30]);
}
