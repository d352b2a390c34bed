use ledger::state::{AsPipeline, DateSummary, Pipeline, Transaction, TransactionKind, Transactions};
use ledger::Date;

fn ymd(y: i32, m: u32, d: u32) -> Date {
    Date::from_ymd(y, m, d).expect("a valid date")
}

#[test]
fn example_holds_three_transactions_from_id_one() {
    let t = Transactions::example();
    let recs: Vec<_> = t.transactions().into_iter().collect();
    assert_eq!(recs.len(), 3);
    assert_eq!(recs[0], (1, Transaction { kind: TransactionKind::Income, value: 150, date: ymd(2023, 5, 5) }));
    assert_eq!(recs[1], (2, Transaction { kind: TransactionKind::Income, value: 200, date: ymd(2023, 5, 9) }));
    assert_eq!(recs[2], (3, Transaction { kind: TransactionKind::Expense, value: 300, date: ymd(2023, 5, 15) }));
}

#[test]
fn insert_and_delete() {
    let mut t = Transactions::new();
    t.insert(Transaction::from((TransactionKind::Income, 5, ymd(2023, 1, 1))));
    t.insert(Transaction::from((TransactionKind::Expense, 2, ymd(2023, 1, 2))));
    t.delete(1);
    t.delete(1);
    t.delete(9);
    let recs = t.transactions();
    assert_eq!(recs.len(), 1);
    assert!(recs.contains_key(&2));
    t.insert(Transaction::from((TransactionKind::Income, 1, ymd(2023, 1, 3))));
    assert_eq!(*t.transactions().keys().last().unwrap(), 3);
}

#[test]
fn date_summaries_per_date_in_order() {
    let mut t = Transactions::new();
    t.insert(Transaction::from((TransactionKind::Expense, 4, ymd(2023, 5, 9))));
    t.insert(Transaction::from((TransactionKind::Income, 10, ymd(2023, 5, 1))));
    t.insert(Transaction::from((TransactionKind::Income, 5, ymd(2023, 5, 9))));
    t.insert(Transaction::from((TransactionKind::Expense, 1, ymd(2023, 5, 9))));
    assert_eq!(
        t.date_summaries(),
        vec![
            (ymd(2023, 5, 1), DateSummary { income: 10, expenses: 0 }),
            (ymd(2023, 5, 9), DateSummary { income: 5, expenses: 5 }),
        ]
    );
    assert!(Transactions::new().date_summaries().is_empty());
}

#[test]
fn store_timeline_over_inclusive_span() {
    let t = Transactions::example();
    let data = t.timeline_data(ymd(2023, 5, 5), ymd(2023, 5, 16)).unwrap();
    assert_eq!(data.len(), 12);
    assert_eq!(data[0], (150, 0, 150));
    assert_eq!(data[4], (200, 0, 350));
    assert_eq!(data[10], (0, 300, 50));
    assert_eq!(data[11], (0, 0, 50));
    assert_eq!(t.timeline_data(ymd(2023, 5, 5), ymd(2023, 5, 5)), Some(vec![(150, 0, 150)]));
    assert_eq!(t.timeline_data(ymd(2023, 5, 6), ymd(2023, 5, 5)), Some(vec![]));
}

#[test]
fn store_balance_does_not_go_below_zero() {
    let t = Transactions::example();
    let data = t.timeline_data(ymd(2023, 5, 15), ymd(2023, 5, 16)).unwrap();
    assert_eq!(data, vec![(0, 300, 0), (0, 0, 0)]);
}

#[test]
fn pipeline_filters() {
    let recs: Vec<_> = Transactions::example().transactions().into_iter().collect();
    let incomes = Pipeline::from(recs.clone()).kind(TransactionKind::Income).values();
    assert_eq!(incomes, vec![150, 200]);
    let early = Pipeline::from(recs.clone()).before(ymd(2023, 5, 9)).values();
    assert_eq!(early, vec![150]);
    let late = Pipeline::from(recs.clone()).after(ymd(2023, 5, 9)).values();
    assert_eq!(late, vec![200, 300]);
    let mid = Pipeline::from(recs).between(ymd(2023, 5, 6), ymd(2023, 5, 15)).values();
    assert_eq!(mid, vec![200]);
}

#[test]
fn as_pipeline_copies_records() {
    let map = Transactions::example().transactions();
    let recs: Vec<_> = map.clone().into_iter().collect();
    assert_eq!(map.pipeline().0, recs);
    let p = recs.pipeline();
    assert_eq!(p.0, recs);
    assert_eq!(p.kind(TransactionKind::Expense).values(), vec![300]);
}
