use ledger::{Date, DateRange, Entry, Log, Transaction, TransactionKind};
use quickcheck::QuickCheck;

const BASE: i32 = 738_641;

/// Builds an entry from small numbers, so that ids and dates collide often.
fn entry(tag: u8, a: u8, b: i16, c: u8) -> Entry {
    match tag % 3 {
        0 => Entry::Create(Transaction {
            value: b as i32,
            kind: if c % 2 == 0 { TransactionKind::Income } else { TransactionKind::Expense },
            date: Date { days_from_ce: BASE + (a % 20) as i32 },
        }),
        1 => Entry::Delete((a % 12) as u16),
        _ => Entry::SetDate(DateRange {
            start: Date { days_from_ce: BASE + (a % 20) as i32 },
            end: Date { days_from_ce: BASE + (c % 20) as i32 },
        }),
    }
}

fn build(raw: &[(u8, u8, i16, u8)]) -> Log {
    Log::from_entries(raw.iter().map(|&(t, a, b, c)| entry(t, a, b, c)).collect())
}

fn soft_delete(raw: Vec<(u8, u8, i16, u8)>) -> bool {
    let log = build(&raw);
    let entries = log.entries();
    let live: Vec<u16> = log.transaction_records().iter().map(|r| r.id).collect();
    let mut next: u16 = 0;
    for (i, e) in entries.iter().enumerate() {
        if let Entry::Create(_) = e {
            let id = next;
            next += 1;
            let deleted = entries[i + 1..].iter().any(|x| *x == Entry::Delete(id));
            if live.contains(&id) == deleted {
                return false;
            }
        }
    }
    live.iter().all(|id| *id < next)
}

fn ids_follow_creates(raw: Vec<(u8, u8, i16, u8)>) -> bool {
    let log = build(&raw);
    let creates = log.create_entries();
    creates.iter().enumerate().all(|(k, (pos, rec))| {
        rec.id as usize == k
            && log.transaction_id_at(*pos) as usize == k
            && log.entries()[*pos] == Entry::Create(rec.transaction)
    })
}

fn timeline_covers(raw: Vec<(u8, u8, i16, u8)>) -> bool {
    let log = build(&raw);
    let range = log.date_range();
    let timeline = log.timeline_data();
    let n = if range.end.days_from_ce < range.start.days_from_ce {
        0
    } else {
        (range.end.days_from_ce - range.start.days_from_ce + 1) as usize
    };
    timeline.len() == n
        && timeline
            .summaries()
            .iter()
            .enumerate()
            .all(|(i, s)| s.date.days_from_ce == range.start.days_from_ce + i as i32)
}

fn outside_ignored(raw: Vec<(u8, u8, i16, u8)>, value: i16, after: bool) -> bool {
    let log = build(&raw);
    let range = log.date_range();
    let date = if after {
        Date { days_from_ce: range.end.days_from_ce.max(range.start.days_from_ce) + 1 }
    } else {
        Date { days_from_ce: range.start.days_from_ce.min(range.end.days_from_ce) - 1 }
    };
    let extra = log.reduce(Entry::Create(Transaction {
        value: value as i32,
        kind: TransactionKind::Income,
        date,
    }));
    extra.timeline_data() == log.timeline_data()
}

fn balance_recurrence(raw: Vec<(u8, u8, i16, u8)>) -> bool {
    let log = build(&raw);
    let timeline = log.timeline_data();
    let mut before = 0;
    for s in timeline.summaries() {
        if s.balance != before + s.income - s.expenses {
            return false;
        }
        before = s.balance;
    }
    true
}

fn delete_idempotent(raw: Vec<(u8, u8, i16, u8)>, id: u8) -> bool {
    let log = build(&raw);
    let once = log.reduce(Entry::Delete((id % 12) as u16));
    let twice = once.reduce(Entry::Delete((id % 12) as u16));
    once.transaction_records() == twice.transaction_records()
}

#[test]
fn random_soft_delete() {
    QuickCheck::new().tests(300).quickcheck(soft_delete as fn(Vec<(u8, u8, i16, u8)>) -> bool);
}

#[test]
fn random_ids_follow_creates() {
    QuickCheck::new().tests(300).quickcheck(ids_follow_creates as fn(Vec<(u8, u8, i16, u8)>) -> bool);
}

#[test]
fn random_timeline_covers_window() {
    QuickCheck::new().tests(300).quickcheck(timeline_covers as fn(Vec<(u8, u8, i16, u8)>) -> bool);
}

#[test]
fn random_outside_window_ignored() {
    QuickCheck::new()
        .tests(300)
        .quickcheck(outside_ignored as fn(Vec<(u8, u8, i16, u8)>, i16, bool) -> bool);
}

#[test]
fn random_balance_recurrence() {
    QuickCheck::new().tests(300).quickcheck(balance_recurrence as fn(Vec<(u8, u8, i16, u8)>) -> bool);
}

#[test]
fn random_delete_idempotent() {
    QuickCheck::new()
        .tests(300)
        .quickcheck(delete_idempotent as fn(Vec<(u8, u8, i16, u8)>, u8) -> bool);
}
