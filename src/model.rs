//! The mathematical reading of a log: each view is a left fold over its
//! entries, in the order in which they were appended.

use vstd::prelude::*;
use crate::date::{Date, DateRange};
use crate::log::Entry;
use crate::transaction::{DateSummary, Transaction, TransactionKind, TransactionRecord};

verus! {

/// The number of ids that a `u16` can tell apart: no log may create more
/// transactions than this.
pub const MAX_TRANSACTIONS: u32 = 65536;

/// A live transaction as the model holds it: its id and its contents.
pub type LiveRecord = (int, Transaction);

/// The number of `Create` entries in `e`.
pub open spec fn create_count(e: Seq<Entry>) -> nat
    decreases e.len(),
{
    if e.len() == 0 {
        0
    } else {
        create_count(e.drop_last()) + if e.last() is Create {
            1nat
        } else {
            0nat
        }
    }
}

/// `s` without the records that carry `id`.
pub open spec fn remove_id<V>(s: Seq<(int, V)>, id: int) -> Seq<(int, V)>
    decreases s.len(),
{
    if s.len() == 0 {
        s
    } else if s.last().0 == id {
        remove_id(s.drop_last(), id)
    } else {
        remove_id(s.drop_last(), id).push(s.last())
    }
}

/// The transactions that are live after `e`, in the order of their ids. A
/// `Create` gets the number of `Create` entries before it as its id; a
/// `Delete` takes the record with its id out, where there is one.
pub open spec fn live_records(e: Seq<Entry>) -> Seq<LiveRecord>
    decreases e.len(),
{
    if e.len() == 0 {
        Seq::empty()
    } else {
        let before = live_records(e.drop_last());
        match e.last() {
            Entry::Create(t) => before.push((create_count(e.drop_last()) as int, t)),
            Entry::Delete(id) => remove_id(before, id as int),
            Entry::SetDate(_) => before,
        }
    }
}

/// The records of a vector of `TransactionRecord`s, read as the model reads them.
pub open spec fn records_view(v: Seq<TransactionRecord>) -> Seq<LiveRecord> {
    v.map_values(|r: TransactionRecord| (r.id as int, r.transaction))
}

pub open spec fn has_id<V>(s: Seq<(int, V)>, id: int) -> bool {
    exists|k: int| 0 <= k < s.len() && #[trigger] s[k].0 == id
}

pub open spec fn ascending<V>(s: Seq<(int, V)>) -> bool {
    forall|a: int, b: int| 0 <= a < b < s.len() ==> s[a].0 < s[b].0
}

/// The window set by the last `SetDate` of `e`, or the default window where
/// there is none.
pub open spec fn active_range(e: Seq<Entry>) -> DateRange
    decreases e.len(),
{
    if e.len() == 0 {
        DateRange::spec_default_window()
    } else {
        match e.last() {
            Entry::SetDate(r) => r,
            _ => active_range(e.drop_last()),
        }
    }
}

/// The `Create` entries of `e` with their positions; a transaction's id is
/// its index here.
pub open spec fn create_list(e: Seq<Entry>) -> Seq<(int, Transaction)>
    decreases e.len(),
{
    if e.len() == 0 {
        Seq::empty()
    } else {
        let before = create_list(e.drop_last());
        match e.last() {
            Entry::Create(t) => before.push(((e.len() - 1) as int, t)),
            _ => before,
        }
    }
}

/// The `Delete` entries of `e` with their positions.
pub open spec fn delete_list(e: Seq<Entry>) -> Seq<(int, u16)>
    decreases e.len(),
{
    if e.len() == 0 {
        Seq::empty()
    } else {
        let before = delete_list(e.drop_last());
        match e.last() {
            Entry::Delete(id) => before.push(((e.len() - 1) as int, id)),
            _ => before,
        }
    }
}

/// `index`, but no more than `len`.
pub open spec fn min_index(index: int, len: int) -> int {
    if index <= len {
        index
    } else {
        len
    }
}

/// Whether position `i` of `e` holds the `Create` that was given `id`.
pub open spec fn created_at(e: Seq<Entry>, i: int, id: int) -> bool {
    0 <= i < e.len() && e[i] is Create && create_count(e.take(i)) == id
}

pub open spec fn is_delete_of(x: Entry, id: int) -> bool {
    match x {
        Entry::Delete(d) => d as int == id,
        _ => false,
    }
}

/// Whether some entry after position `i` of `e` deletes `id`.
pub open spec fn deleted_after(e: Seq<Entry>, i: int, id: int) -> bool {
    exists|j: int| i < j < e.len() && #[trigger] is_delete_of(e[j], id)
}

// ---- the timeline ----

pub open spec fn fits(x: int) -> bool {
    i32::MIN <= x <= i32::MAX
}

/// `x`, held to the bounds of `Dollars`.
pub open spec fn clamp(x: int) -> int {
    if x > i32::MAX {
        i32::MAX as int
    } else if x < i32::MIN {
        i32::MIN as int
    } else {
        x
    }
}

/// The income booked on `day`, summed in order with saturation.
pub open spec fn day_income(recs: Seq<LiveRecord>, day: int) -> int
    decreases recs.len(),
{
    if recs.len() == 0 {
        0
    } else {
        let acc = day_income(recs.drop_last(), day);
        let t = recs.last().1;
        if t.date.day() == day && t.kind is Income {
            clamp(acc + t.value)
        } else {
            acc
        }
    }
}

/// The expenses booked on `day`, summed in order with saturation.
pub open spec fn day_expenses(recs: Seq<LiveRecord>, day: int) -> int
    decreases recs.len(),
{
    if recs.len() == 0 {
        0
    } else {
        let acc = day_expenses(recs.drop_last(), day);
        let t = recs.last().1;
        if t.date.day() == day && t.kind is Expense {
            clamp(acc + t.value)
        } else {
            acc
        }
    }
}

/// The balance `b` after the transactions of `day`, each added or taken
/// away in order with saturation.
pub open spec fn day_balance(b: int, recs: Seq<LiveRecord>, day: int) -> int
    decreases recs.len(),
{
    if recs.len() == 0 {
        b
    } else {
        let acc = day_balance(b, recs.drop_last(), day);
        let t = recs.last().1;
        if t.date.day() == day {
            match t.kind {
                TransactionKind::Income => clamp(acc + t.value),
                TransactionKind::Expense => clamp(acc - t.value),
            }
        } else {
            acc
        }
    }
}

/// The balance at the end of day `start + i`, counted from zero before `start`.
pub open spec fn balance_after(recs: Seq<LiveRecord>, start: int, i: nat) -> int
    decreases i,
{
    let before = if i == 0 {
        0
    } else {
        balance_after(recs, start, (i - 1) as nat)
    };
    day_balance(before, recs, start + i)
}

/// The balance before day `start + i`.
pub open spec fn balance_before(recs: Seq<LiveRecord>, start: int, i: nat) -> int {
    if i == 0 {
        0
    } else {
        balance_after(recs, start, (i - 1) as nat)
    }
}

pub open spec fn summary_at(recs: Seq<LiveRecord>, start: int, i: nat) -> DateSummary {
    DateSummary {
        date: Date { days_from_ce: (start + i) as i32 },
        income: day_income(recs, start + i) as i32,
        expenses: day_expenses(recs, start + i) as i32,
        balance: balance_after(recs, start, i) as i32,
    }
}

/// One summary for each day of the active window, in date order.
pub open spec fn timeline_of(e: Seq<Entry>) -> Seq<DateSummary> {
    let r = active_range(e);
    Seq::new(r.day_count(), |i: int| summary_at(live_records(e), r.start.day(), i as nat))
}

// ---- lemmas ----

pub proof fn lemma_take_step<T>(e: Seq<T>, i: int)
    requires
        0 <= i < e.len(),
    ensures
        e.take(i + 1).drop_last() == e.take(i),
        e.take(i + 1).last() == e[i],
{
    assert(e.take(i + 1).drop_last() =~= e.take(i));
}

pub proof fn lemma_create_count_prefix(e: Seq<Entry>, i: int)
    requires
        0 <= i <= e.len(),
    ensures
        create_count(e.take(i)) <= create_count(e),
    decreases e.len(),
{
    if i == e.len() {
        assert(e.take(i) =~= e);
    } else {
        assert(e.take(i) =~= e.drop_last().take(i));
        lemma_create_count_prefix(e.drop_last(), i);
    }
}

pub proof fn lemma_push_contains<T>(t: Seq<T>, y: T, x: T)
    ensures
        t.push(y).contains(x) <==> t.contains(x) || x == y,
{
    if t.push(y).contains(x) && x != y {
        let k = choose|k: int| 0 <= k < t.push(y).len() && t.push(y)[k] == x;
        assert(t[k] == x);
    }
    if t.contains(x) {
        let k = choose|k: int| 0 <= k < t.len() && t[k] == x;
        assert(t.push(y)[k] == x);
    }
    if x == y {
        assert(t.push(y)[t.len() as int] == x);
    }
}

pub proof fn lemma_remove_contains<V>(s: Seq<(int, V)>, id: int, x: (int, V))
    ensures
        remove_id(s, id).contains(x) <==> s.contains(x) && x.0 != id,
    decreases s.len(),
{
    if s.len() > 0 {
        let p = s.drop_last();
        lemma_remove_contains(p, id, x);
        assert(p.push(s.last()) =~= s);
        lemma_push_contains(p, s.last(), x);
        if s.last().0 != id {
            lemma_push_contains(remove_id(p, id), s.last(), x);
        }
    }
}

pub proof fn lemma_remove_ascending<V>(s: Seq<(int, V)>, id: int)
    requires
        ascending(s),
    ensures
        ascending(remove_id(s, id)),
    decreases s.len(),
{
    if s.len() > 0 {
        let p = s.drop_last();
        lemma_remove_ascending(p, id);
        if s.last().0 != id {
            let r = remove_id(s, id);
            let q = remove_id(p, id);
            assert forall|a: int, b: int| 0 <= a < b < r.len() implies r[a].0 < r[b].0 by {
                if b == r.len() - 1 {
                    lemma_remove_contains(p, id, q[a]);
                    assert(q.contains(q[a]));
                    let k = choose|k: int| 0 <= k < p.len() && p[k] == q[a];
                    assert(s[k] == q[a]);
                } else {
                    assert(r[a] == q[a] && r[b] == q[b]);
                }
            }
        }
    }
}

pub proof fn lemma_remove_absent<V>(s: Seq<(int, V)>, id: int)
    requires
        !has_id(s, id),
    ensures
        remove_id(s, id) == s,
    decreases s.len(),
{
    if s.len() > 0 {
        let p = s.drop_last();
        assert(s.last().0 == s[s.len() - 1].0);
        assert forall|k: int| 0 <= k < p.len() implies p[k].0 != id by {
            assert(p[k] == s[k]);
        }
        lemma_remove_absent(p, id);
        assert(p.push(s.last()) =~= s);
    }
}

pub proof fn lemma_remove_twice<V>(s: Seq<(int, V)>, id: int)
    ensures
        remove_id(remove_id(s, id), id) == remove_id(s, id),
{
    let r = remove_id(s, id);
    assert forall|k: int| 0 <= k < r.len() implies r[k].0 != id by {
        assert(r.contains(r[k]));
        lemma_remove_contains(s, id, r[k]);
    }
    lemma_remove_absent(r, id);
}

/// The live records stand in ascending order of id, and each id is below
/// the number of `Create` entries.
pub proof fn lemma_live_wf(e: Seq<Entry>)
    ensures
        ascending(live_records(e)),
        forall|k: int|
            0 <= k < live_records(e).len() ==> 0 <= #[trigger] live_records(e)[k].0 < create_count(e),
    decreases e.len(),
{
    if e.len() > 0 {
        let p = e.drop_last();
        lemma_live_wf(p);
        let before = live_records(p);
        match e.last() {
            Entry::Create(t) => {
                let r = live_records(e);
                assert(r == before.push((create_count(p) as int, t)));
                assert forall|k: int| 0 <= k < r.len() implies 0 <= #[trigger] r[k].0 < create_count(e) by {
                    if k < before.len() {
                        assert(r[k] == before[k]);
                    }
                }
                assert forall|a: int, b: int| 0 <= a < b < r.len() implies r[a].0 < r[b].0 by {
                    assert(r[a] == before[a]);
                    if b < before.len() {
                        assert(r[b] == before[b]);
                    }
                }
            },
            Entry::Delete(id) => {
                lemma_remove_ascending(before, id as int);
                let r = live_records(e);
                assert forall|k: int| 0 <= k < r.len() implies 0 <= #[trigger] r[k].0 < create_count(e) by {
                    assert(r.contains(r[k]));
                    lemma_remove_contains(before, id as int, r[k]);
                    let j = choose|j: int| 0 <= j < before.len() && before[j] == r[k];
                    assert(before[j].0 < create_count(p));
                }
            },
            Entry::SetDate(_) => {},
        }
    }
}

pub proof fn lemma_day_totals_fit(b: int, recs: Seq<LiveRecord>, day: int)
    requires
        fits(b),
    ensures
        fits(day_income(recs, day)),
        fits(day_expenses(recs, day)),
        fits(day_balance(b, recs, day)),
    decreases recs.len(),
{
    if recs.len() > 0 {
        lemma_day_totals_fit(b, recs.drop_last(), day);
    }
}

pub proof fn lemma_balance_after_fits(recs: Seq<LiveRecord>, start: int, i: nat)
    ensures
        fits(balance_after(recs, start, i)),
        fits(balance_before(recs, start, i)),
    decreases i,
{
    if i > 0 {
        lemma_balance_after_fits(recs, start, (i - 1) as nat);
    }
    lemma_day_totals_fit(balance_before(recs, start, i), recs, start + i);
}

pub proof fn lemma_create_list_len(e: Seq<Entry>)
    ensures
        create_list(e).len() == create_count(e),
        forall|k: int|
            0 <= k < create_list(e).len() ==> created_at(e, #[trigger] create_list(e)[k].0, k)
                && e[create_list(e)[k].0] == Entry::Create(create_list(e)[k].1),
    decreases e.len(),
{
    if e.len() > 0 {
        let p = e.drop_last();
        lemma_create_list_len(p);
        let c = create_list(e);
        assert forall|k: int| 0 <= k < c.len() implies created_at(e, #[trigger] c[k].0, k)
            && e[c[k].0] == Entry::Create(c[k].1) by {
            if k < create_list(p).len() {
                let i = create_list(p)[k].0;
                assert(c[k] == create_list(p)[k]);
                assert(e.take(i) =~= p.take(i));
                assert(e[i] == p[i]);
            } else {
                assert(e.take(e.len() - 1) =~= p);
            }
        }
    }
}

pub proof fn lemma_has_id_remove<V>(s: Seq<(int, V)>, d: int, id: int)
    ensures
        has_id(remove_id(s, d), id) <==> has_id(s, id) && id != d,
{
    let r = remove_id(s, d);
    if has_id(r, id) {
        let k = choose|k: int| 0 <= k < r.len() && #[trigger] r[k].0 == id;
        assert(r.contains(r[k]));
        lemma_remove_contains(s, d, r[k]);
        let j = choose|j: int| 0 <= j < s.len() && s[j] == r[k];
        assert(s[j].0 == id);
    }
    if has_id(s, id) && id != d {
        let k = choose|k: int| 0 <= k < s.len() && #[trigger] s[k].0 == id;
        assert(s.contains(s[k]));
        lemma_remove_contains(s, d, s[k]);
        let j = choose|j: int| 0 <= j < r.len() && r[j] == s[k];
        assert(r[j].0 == id);
    }
}

/// The income booked on `day`, summed exactly.
pub open spec fn raw_income(recs: Seq<LiveRecord>, day: int) -> int
    decreases recs.len(),
{
    if recs.len() == 0 {
        0
    } else {
        let t = recs.last().1;
        raw_income(recs.drop_last(), day) + if t.date.day() == day && t.kind is Income {
            t.value as int
        } else {
            0
        }
    }
}

/// The expenses booked on `day`, summed exactly.
pub open spec fn raw_expenses(recs: Seq<LiveRecord>, day: int) -> int
    decreases recs.len(),
{
    if recs.len() == 0 {
        0
    } else {
        let t = recs.last().1;
        raw_expenses(recs.drop_last(), day) + if t.date.day() == day && t.kind is Expense {
            t.value as int
        } else {
            0
        }
    }
}

/// Whether every running total of `day`, from balance `b` on, stays within
/// the bounds of `Dollars`, so that no sum saturates.
pub open spec fn day_fits(b: int, recs: Seq<LiveRecord>, day: int) -> bool
    decreases recs.len(),
{
    recs.len() == 0 || {
        &&& day_fits(b, recs.drop_last(), day)
        &&& fits(raw_income(recs, day))
        &&& fits(raw_expenses(recs, day))
        &&& fits(b + raw_income(recs, day) - raw_expenses(recs, day))
    }
}

/// Whether no running total of the timeline of `e` saturates.
pub open spec fn totals_fit(e: Seq<Entry>) -> bool {
    let r = active_range(e);
    let recs = live_records(e);
    forall|i: nat|
        i < r.day_count() ==> #[trigger] day_fits(
            balance_before(recs, r.start.day(), i),
            recs,
            r.start.day() + i,
        )
}

pub proof fn lemma_day_exact(b: int, recs: Seq<LiveRecord>, day: int)
    requires
        fits(b),
        day_fits(b, recs, day),
    ensures
        day_income(recs, day) == raw_income(recs, day),
        day_expenses(recs, day) == raw_expenses(recs, day),
        day_balance(b, recs, day) == b + raw_income(recs, day) - raw_expenses(recs, day),
    decreases recs.len(),
{
    if recs.len() > 0 {
        lemma_day_exact(b, recs.drop_last(), day);
    }
}

pub proof fn lemma_push_other_day(recs: Seq<LiveRecord>, x: LiveRecord, b: int, day: int)
    requires
        x.1.date.day() != day,
    ensures
        day_income(recs.push(x), day) == day_income(recs, day),
        day_expenses(recs.push(x), day) == day_expenses(recs, day),
        day_balance(b, recs.push(x), day) == day_balance(b, recs, day),
{
    assert(recs.push(x).drop_last() =~= recs);
}

/// `m` holds exactly the records of `s`, keyed by their ids.
pub open spec fn keyed_by_id(m: Map<u16, Transaction>, s: Seq<LiveRecord>) -> bool {
    &&& forall|id: u16| #[trigger] m.contains_key(id) ==> has_id(s, id as int)
    &&& forall|k: int|
        0 <= k < s.len() ==> 0 <= (#[trigger] s[k]).0 <= u16::MAX && m.contains_key(s[k].0 as u16)
            && m[s[k].0 as u16] == s[k].1
}

/// Two sequences in ascending order of id that hold the same elements are
/// the same sequence.
pub proof fn lemma_ascending_equal<V>(s1: Seq<(int, V)>, s2: Seq<(int, V)>)
    requires
        ascending(s1),
        ascending(s2),
        forall|x: (int, V)| s1.contains(x) ==> s2.contains(x),
        forall|x: (int, V)| s2.contains(x) ==> s1.contains(x),
    ensures
        s1 == s2,
    decreases s1.len() + s2.len(),
{
    if s1.len() == 0 || s2.len() == 0 {
        if s1.len() > 0 {
            assert(s1.contains(s1[0]));
        }
        if s2.len() > 0 {
            assert(s2.contains(s2[0]));
        }
        assert(s1 =~= s2);
    } else {
        let n1 = s1.len() - 1;
        let n2 = s2.len() - 1;
        let a = s1[n1];
        let b = s2[n2];
        assert(s1.contains(a));
        assert(s2.contains(b));
        let i = choose|i: int| 0 <= i < s2.len() && s2[i] == a;
        let j = choose|j: int| 0 <= j < s1.len() && s1[j] == b;
        assert(a.0 <= b.0);
        assert(b.0 <= a.0);
        assert(i == n2);
        let p1 = s1.drop_last();
        let p2 = s2.drop_last();
        assert forall|x: (int, V)| p1.contains(x) implies p2.contains(x) by {
            let k = choose|k: int| 0 <= k < p1.len() && p1[k] == x;
            assert(s1[k] == x && s1.contains(x));
            let m = choose|m: int| 0 <= m < s2.len() && s2[m] == x;
            assert(x.0 < a.0);
            assert(m != n2);
            assert(p2[m] == x);
        }
        assert forall|x: (int, V)| p2.contains(x) implies p1.contains(x) by {
            let k = choose|k: int| 0 <= k < p2.len() && p2[k] == x;
            assert(s2[k] == x && s2.contains(x));
            let m = choose|m: int| 0 <= m < s1.len() && s1[m] == x;
            assert(x.0 < b.0);
            assert(m != n1);
            assert(p1[m] == x);
        }
        lemma_ascending_equal(p1, p2);
        assert(s1 =~= p1.push(a));
        assert(s2 =~= p2.push(b));
    }
}

} // verus!
