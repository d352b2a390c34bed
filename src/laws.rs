//! What holds of every log: the ledger's laws, proved over the model that the
//! views' contracts are stated in.

use vstd::prelude::*;
use crate::log::Entry;
use crate::model::{
    active_range, balance_after, create_count, create_list, created_at, day_balance, day_fits,
    deleted_after, has_id, is_delete_of, lemma_balance_after_fits, lemma_create_list_len,
    lemma_day_exact, lemma_has_id_remove, lemma_push_other_day,
    lemma_remove_contains, lemma_remove_twice, live_records, summary_at, timeline_of, totals_fit,
};
use crate::transaction::Transaction;

verus! {

/// A transaction id is live after a log if and only if some `Create` of the
/// log was given that id and no later `Delete` names it.
pub proof fn law_soft_delete(e: Seq<Entry>, id: int)
    ensures
        has_id(live_records(e), id) <==> exists|i: int|
            #[trigger] created_at(e, i, id) && !deleted_after(e, i, id),
    decreases e.len(),
{
    if e.len() > 0 {
        let p = e.drop_last();
        let n = p.len() as int;
        law_soft_delete(p, id);
        assert(e.take(n) =~= p);
        assert forall|i: int| 0 <= i < n implies #[trigger] created_at(e, i, id) == created_at(
            p,
            i,
            id,
        ) by {
            assert(e.take(i) =~= p.take(i));
        }
        assert forall|i: int| 0 <= i < n implies #[trigger] deleted_after(e, i, id) == (
        deleted_after(p, i, id) || is_delete_of(e[n], id)) by {
            if deleted_after(e, i, id) {
                let j = choose|j: int| i < j < e.len() && #[trigger] is_delete_of(e[j], id);
                if j < n {
                    assert(p[j] == e[j]);
                }
            }
            if deleted_after(p, i, id) {
                let j = choose|j: int| i < j < p.len() && #[trigger] is_delete_of(p[j], id);
                assert(e[j] == p[j]);
            }
        }
        let before = live_records(p);
        let after = live_records(e);
        // The last entry creates a live record with a fresh id, or deletes
        // one, or leaves the records as they were.
        let fresh = e[n] is Create && id == create_count(p);
        let killed = is_delete_of(e[n], id);
        assert(has_id(after, id) <==> (has_id(before, id) && !killed) || fresh) by {
            match e.last() {
                Entry::Create(t) => {
                    assert(after == before.push((create_count(p) as int, t)));
                    if has_id(after, id) {
                        let k = choose|k: int| 0 <= k < after.len() && #[trigger] after[k].0 == id;
                        if k < before.len() {
                            assert(before[k] == after[k]);
                        }
                    }
                    if has_id(before, id) {
                        let k = choose|k: int| 0 <= k < before.len() && #[trigger] before[k].0 == id;
                        assert(after[k] == before[k]);
                    }
                    if fresh {
                        assert(after[before.len() as int].0 == id);
                    }
                },
                Entry::Delete(d) => {
                    lemma_has_id_remove(before, d as int, id);
                },
                Entry::SetDate(_) => {},
            }
        }
        if exists|i: int| #[trigger] created_at(e, i, id) && !deleted_after(e, i, id) {
            let i = choose|i: int| #[trigger] created_at(e, i, id) && !deleted_after(e, i, id);
            if i < n {
                assert(created_at(p, i, id) && !deleted_after(p, i, id));
            }
        }
        if exists|i: int| #[trigger] created_at(p, i, id) && !deleted_after(p, i, id) {
            let i = choose|i: int| #[trigger] created_at(p, i, id) && !deleted_after(p, i, id);
            assert(created_at(e, i, id));
            if !killed {
                assert(!deleted_after(e, i, id));
            }
        }
        if fresh {
            assert(created_at(e, n, id) && !deleted_after(e, n, id));
        }
    }
}

/// The `k`-th `Create` of a log, counted from zero, is given id `k`, whatever
/// stands between the `Create` entries; and every live record carries the id
/// and the transaction of the `Create` it came from.
pub proof fn law_id_is_create_ordinal(e: Seq<Entry>)
    ensures
        create_list(e).len() == create_count(e),
        forall|k: int|
            0 <= k < create_list(e).len() ==> created_at(e, #[trigger] create_list(e)[k].0, k)
                && e[create_list(e)[k].0] == Entry::Create(create_list(e)[k].1),
        forall|k: int|
            0 <= k < live_records(e).len() ==> exists|i: int|
                created_at(e, i, (#[trigger] live_records(e)[k]).0) && e[i] == Entry::Create(
                    live_records(e)[k].1,
                ),
    decreases e.len(),
{
    lemma_create_list_len(e);
    if e.len() > 0 {
        let p = e.drop_last();
        let n = p.len() as int;
        law_id_is_create_ordinal(p);
        let before = live_records(p);
        let after = live_records(e);
        assert(e.take(n) =~= p);
        // A witness in `p` is a witness in `e`.
        assert forall|x: (int, Transaction)| #[trigger] before.contains(x) implies exists|i: int|
            created_at(e, i, x.0) && e[i] == Entry::Create(x.1) by {
            let k = choose|k: int| 0 <= k < before.len() && before[k] == x;
            let i = choose|i: int| created_at(p, i, before[k].0) && p[i] == Entry::Create(before[k].1);
            assert(e.take(i) =~= p.take(i));
            assert(created_at(e, i, x.0) && e[i] == Entry::Create(x.1));
        }
        assert forall|k: int| 0 <= k < after.len() implies exists|i: int|
            created_at(e, i, (#[trigger] after[k]).0) && e[i] == Entry::Create(after[k].1) by {
            match e.last() {
                Entry::Create(t) => {
                    if k < before.len() {
                        assert(after[k] == before[k]);
                        assert(before.contains(before[k]));
                    } else {
                        assert(created_at(e, n, after[k].0) && e[n] == Entry::Create(after[k].1));
                    }
                },
                Entry::Delete(d) => {
                    assert(after.contains(after[k]));
                    lemma_remove_contains(before, d as int, after[k]);
                },
                Entry::SetDate(_) => {
                    assert(before.contains(before[k]));
                },
            }
        }
    }
}

/// For every window of `n` days the timeline has `n` summaries, dated from
/// the window's first day to its last, one day apart; none where the window
/// ends before it starts.
pub proof fn law_timeline_covers_window(e: Seq<Entry>)
    ensures
        timeline_of(e).len() == active_range(e).day_count(),
        active_range(e).end.day() < active_range(e).start.day() ==> timeline_of(e).len() == 0,
        forall|i: int|
            0 <= i < timeline_of(e).len() ==> (#[trigger] timeline_of(e)[i]).date.day()
                == active_range(e).start.day() + i,
        timeline_of(e).len() > 0 ==> timeline_of(e)[0].date == active_range(e).start
            && timeline_of(e).last().date == active_range(e).end,
{
    let r = active_range(e);
    let tl = timeline_of(e);
    assert forall|i: int| 0 <= i < tl.len() implies (#[trigger] tl[i]).date.day() == r.start.day()
        + i by {
        assert(tl[i] == summary_at(live_records(e), r.start.day(), i as nat));
    }
    if tl.len() > 0 {
        assert(tl[tl.len() - 1].date.day() == r.end.day());
    }
}

/// A transaction dated outside the active window changes no summary of the
/// timeline: creating it leaves the timeline as it was.
pub proof fn law_outside_window_ignored(e: Seq<Entry>, t: Transaction)
    requires
        !active_range(e).spec_contains(t.date),
    ensures
        timeline_of(e.push(Entry::Create(t))) == timeline_of(e),
{
    let e2 = e.push(Entry::Create(t));
    assert(e2.drop_last() =~= e);
    let r = active_range(e);
    assert(active_range(e2) == r);
    let recs = live_records(e);
    let x = (create_count(e) as int, t);
    assert(live_records(e2) == recs.push(x));
    let start = r.start.day();
    assert forall|i: nat| i < r.day_count() implies #[trigger] balance_after(recs.push(x), start, i)
        == balance_after(recs, start, i) by {
        lemma_balance_after_outside(recs, x, start, i, r.day_count());
    }
    assert forall|i: int| 0 <= i < r.day_count() implies #[trigger] summary_at(
        recs.push(x),
        start,
        i as nat,
    ) == summary_at(recs, start, i as nat) by {
        lemma_push_other_day(recs, x, 0, start + i);
        assert(balance_after(recs.push(x), start, i as nat) == balance_after(recs, start, i as nat));
    }
    assert(timeline_of(e2) =~= timeline_of(e));
}

proof fn lemma_balance_after_outside(
    recs: Seq<(int, Transaction)>,
    x: (int, Transaction),
    start: int,
    i: nat,
    n: nat,
)
    requires
        i < n,
        !(start <= x.1.date.day() <= start + n - 1),
    ensures
        balance_after(recs.push(x), start, i) == balance_after(recs, start, i),
    decreases i,
{
    if i > 0 {
        lemma_balance_after_outside(recs, x, start, (i - 1) as nat, n);
    }
    let b = if i == 0 {
        0
    } else {
        balance_after(recs, start, (i - 1) as nat)
    };
    lemma_push_other_day(recs, x, b, start + i);
}

/// Where no running total saturates, each day's balance is the day before's
/// (zero before the first day) plus that day's income minus its expenses.
pub proof fn law_balance_accumulates(e: Seq<Entry>)
    requires
        totals_fit(e),
    ensures
        forall|i: int|
            0 <= i < timeline_of(e).len() ==> (#[trigger] timeline_of(e)[i]).balance as int == (
            if i == 0 {
                0
            } else {
                timeline_of(e)[i - 1].balance as int
            }) + timeline_of(e)[i].income as int - timeline_of(e)[i].expenses as int,
{
    let r = active_range(e);
    let recs = live_records(e);
    let start = r.start.day();
    let tl = timeline_of(e);
    assert forall|i: int| 0 <= i < tl.len() implies (#[trigger] tl[i]).balance as int == (if i == 0 {
        0
    } else {
        tl[i - 1].balance as int
    }) + tl[i].income as int - tl[i].expenses as int by {
        let b = if i == 0 {
            0
        } else {
            balance_after(recs, start, (i - 1) as nat)
        };
        lemma_balance_after_fits(recs, start, i as nat);
        assert(day_fits(b, recs, start + i));
        lemma_day_exact(b, recs, start + i);
        if i > 0 {
            lemma_balance_after_fits(recs, start, (i - 1) as nat);
            assert(tl[i - 1] == summary_at(recs, start, (i - 1) as nat));
        }
        assert(tl[i] == summary_at(recs, start, i as nat));
        assert(balance_after(recs, start, i as nat) == day_balance(b, recs, start + i));
    }
}

/// Deleting an id twice in a row leaves the same live transactions as
/// deleting it once.
pub proof fn law_delete_idempotent(e: Seq<Entry>, id: u16)
    ensures
        live_records(e.push(Entry::Delete(id)).push(Entry::Delete(id))) == live_records(
            e.push(Entry::Delete(id)),
        ),
{
    let e1 = e.push(Entry::Delete(id));
    let e2 = e1.push(Entry::Delete(id));
    assert(e2.drop_last() =~= e1);
    assert(e1.drop_last() =~= e);
    lemma_remove_twice(live_records(e), id as int);
}

} // verus!
