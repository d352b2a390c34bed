use vstd::prelude::*;
use std::collections::BTreeMap;
use vstd::std_specs::btree::increasing_seq;
use vstd::std_specs::cmp::OrdSpec;
use vstd::std_specs::iter::IteratorSpec;
use crate::date::{Date, DateRange};
use crate::model::{
    active_range, balance_before, clamp, create_count, create_list, created_at, day_balance,
    day_expenses, day_income, delete_list, has_id, keyed_by_id, lemma_ascending_equal,
    lemma_balance_after_fits, lemma_create_count_prefix, lemma_create_list_len,
    lemma_day_totals_fit, lemma_has_id_remove, lemma_live_wf, lemma_remove_contains,
    lemma_take_step, live_records, min_index, records_view, remove_id, summary_at, timeline_of,
    LiveRecord, MAX_TRANSACTIONS,
};
use crate::transaction::{
    DateSummary, Dollars, TimelineData, Transaction, TransactionId, TransactionKind,
    TransactionRecord,
};

verus! {

/// One request that changed the ledger.
#[derive(Clone, Copy, Debug, PartialEq, Eq, Structural)]
pub enum Entry {
    /// Record a transaction under the next id.
    Create(Transaction),
    /// Take the transaction with this id out of the live set, if it is there.
    Delete(TransactionId),
    /// Report over this window from now on.
    SetDate(DateRange),
}

/// The append-only history of entries; every view is folded out of it anew.
#[derive(Clone, Debug, PartialEq, Eq)]
pub struct Log {
    entries: Vec<Entry>,
}

impl View for Log {
    type V = Seq<Entry>;

    closed spec fn view(&self) -> Seq<Entry> {
        self.entries@
    }
}

fn copy_entries(v: &Vec<Entry>) -> (r: Vec<Entry>)
    ensures
        r@ == v@,
{
    let mut r: Vec<Entry> = Vec::with_capacity(v.len());
    let mut i: usize = 0;
    while i < v.len()
        invariant
            i <= v@.len(),
            r@ == v@.take(i as int),
        decreases v@.len() - i,
    {
        r.push(v[i]);
        proof {
            lemma_take_step(v@, i as int);
            assert(r@ =~= v@.take(i as int + 1));
        }
        i = i + 1;
    }
    proof {
        assert(v@.take(v@.len() as int) =~= v@);
    }
    r
}

/// The entries of `m`, in ascending order of id.
fn records_in_order(m: &BTreeMap<TransactionId, Transaction>) -> (r: Vec<TransactionRecord>)
    ensures
        forall|a: int, b: int| 0 <= a < b < r@.len() ==> r@[a].id < r@[b].id,
        forall|k: int|
            0 <= k < r@.len() ==> m@.contains_key((#[trigger] r@[k]).id) && m@[r@[k].id]
                == r@[k].transaction,
        forall|id: TransactionId|
            #[trigger] m@.contains_key(id) ==> exists|k: int| 0 <= k < r@.len() && r@[k].id == id,
{
    broadcast use vstd::std_specs::btree::group_btree_axioms, vstd::laws_cmp::group_laws_cmp;

    let mut out: Vec<TransactionRecord> = Vec::new();
    let walk = m.iter();
    let ghost s = walk.remaining();
    for (id, t) in it: walk
        invariant
            it.seq() == s,
            out@.len() == it.index(),
            forall|k: int|
                0 <= k < out@.len() ==> (#[trigger] out@[k]).id == *it.seq()[k].0
                    && out@[k].transaction == *it.seq()[k].1,
    {
        out.push(TransactionRecord { transaction: *t, id: *id });
    }
    proof {
        let keys = s.map_values(|kv: (&TransactionId, &Transaction)| *kv.0);
        assert(increasing_seq(keys));
        assert forall|a: int, b: int| 0 <= a < b < out@.len() implies out@[a].id < out@[b].id by {
            assert(keys[a] == out@[a].id && keys[b] == out@[b].id);
            assert(keys[a].cmp_spec(&keys[b]) is Less);
        }
        assert forall|id: TransactionId| #[trigger] m@.contains_key(id) implies exists|k: int|
            0 <= k < out@.len() && out@[k].id == id by {
            assert(s.contains((&id, &m@[id])));
            let k = choose|k: int| 0 <= k < s.len() && s[k] == (&id, &m@[id]);
            assert(out@[k].id == id);
        }
    }
    out
}

/// `a + b`, held to the bounds of `Dollars`.
fn add_saturating(a: Dollars, b: Dollars) -> (r: Dollars)
    ensures
        r as int == clamp(a + b),
{
    match a.checked_add(b) {
        Some(x) => x,
        None => if b > 0 {
            i32::MAX
        } else {
            i32::MIN
        },
    }
}

/// `a - b`, held to the bounds of `Dollars`.
fn sub_saturating(a: Dollars, b: Dollars) -> (r: Dollars)
    ensures
        r as int == clamp(a - b),
{
    match a.checked_sub(b) {
        Some(x) => x,
        None => if b < 0 {
            i32::MAX
        } else {
            i32::MIN
        },
    }
}

impl Default for Log {
    fn default() -> (r: Log)
        ensures
            r@.len() == 0,
    {
        Log { entries: Vec::new() }
    }
}

impl Log {
    /// An empty log.
    pub fn new() -> (r: Log)
        ensures
            r@.len() == 0,
    {
        Log { entries: Vec::new() }
    }

    /// A log that holds `entries`, in their order.
    pub fn from_entries(entries: Vec<Entry>) -> (r: Log)
        ensures
            r@ == entries@,
    {
        Log { entries }
    }

    /// The whole history, in the order of appending.
    pub fn entries(&self) -> (r: Vec<Entry>)
        ensures
            r@ == self@,
    {
        copy_entries(&self.entries)
    }

    /// Appends `e`; what was there before stays as it was.
    pub fn append(&mut self, e: Entry)
        ensures
            final(self)@ == old(self)@.push(e),
    {
        self.entries.push(e)
    }

    /// A new log: this one with `e` appended.
    pub fn reduce(&self, e: Entry) -> (r: Log)
        ensures
            r@ == self@.push(e),
    {
        let mut entries = copy_entries(&self.entries);
        entries.push(e);
        Log { entries }
    }

    /// Appends `e` and returns the views of the log that results: its live
    /// transactions and its timeline.
    pub fn dispatch(&mut self, e: Entry) -> (r: (Vec<TransactionRecord>, TimelineData))
        requires
            create_count(old(self)@.push(e)) <= MAX_TRANSACTIONS,
        ensures
            final(self)@ == old(self)@.push(e),
            records_view(r.0@) == live_records(final(self)@),
            r.1@ == timeline_of(final(self)@),
    {
        self.append(e);
        (self.transaction_records(), self.timeline_data())
    }

    /// The number of `Create` entries, which is the id that the next one gets.
    pub fn create_count(&self) -> (r: usize)
        ensures
            r == create_count(self@),
    {
        let mut n: usize = 0;
        let mut i: usize = 0;
        while i < self.entries.len()
            invariant
                i <= self@.len(),
                n == create_count(self@.take(i as int)),
                n <= i,
            decreases self@.len() - i,
        {
            proof {
                lemma_take_step(self@, i as int);
            }
            if let Entry::Create(_) = self.entries[i] {
                n = n + 1;
            }
            i = i + 1;
        }
        proof {
            assert(self@.take(self@.len() as int) =~= self@);
        }
        n
    }

    /// The live transactions, in the order of their ids.
    pub fn transaction_records(&self) -> (r: Vec<TransactionRecord>)
        requires
            create_count(self@) <= MAX_TRANSACTIONS,
        ensures
            records_view(r@) == live_records(self@),
            forall|a: int, b: int| 0 <= a < b < r@.len() ==> r@[a].id < r@[b].id,
    {
        broadcast use vstd::std_specs::btree::group_btree_axioms, vstd::laws_cmp::group_laws_cmp;

        let mut live: BTreeMap<TransactionId, Transaction> = BTreeMap::new();
        let mut next: u32 = 0;
        let mut i: usize = 0;
        proof {
            assert(live@ =~= Map::empty());
        }
        while i < self.entries.len()
            invariant
                i <= self@.len(),
                create_count(self@) <= MAX_TRANSACTIONS,
                next as int == create_count(self@.take(i as int)),
                keyed_by_id(live@, live_records(self@.take(i as int))),
            decreases self@.len() - i,
        {
            let ghost pre = self@.take(i as int);
            let ghost before = live_records(pre);
            let ghost old_map = live@;
            proof {
                lemma_take_step(self@, i as int);
                lemma_live_wf(pre);
                lemma_create_count_prefix(self@, i as int + 1);
            }
            let entry = self.entries[i];
            match entry {
                Entry::Create(t) => {
                    live.insert(next as u16, t);
                    proof {
                        let after = before.push((next as int, t));
                        assert(live_records(self@.take(i as int + 1)) == after);
                        assert forall|id: u16| #[trigger] live@.contains_key(id) implies has_id(
                            after,
                            id as int,
                        ) by {
                            if id as int == next as int {
                                assert(after[before.len() as int].0 == id as int);
                            } else {
                                assert(old_map.contains_key(id));
                                let k = choose|k: int|
                                    0 <= k < before.len() && #[trigger] before[k].0 == id as int;
                                assert(after[k] == before[k]);
                            }
                        }
                        assert forall|k: int| 0 <= k < after.len() implies 0 <= (
                        #[trigger] after[k]).0 <= u16::MAX && live@.contains_key(after[k].0 as u16)
                            && live@[after[k].0 as u16] == after[k].1 by {
                            if k < before.len() {
                                assert(after[k] == before[k]);
                                assert(before[k].0 < next);
                            }
                        }
                    }
                    next = next + 1;
                },
                Entry::Delete(id) => {
                    live.remove(&id);
                    proof {
                        let after = remove_id(before, id as int);
                        assert(live_records(self@.take(i as int + 1)) == after);
                        assert forall|d: u16| #[trigger] live@.contains_key(d) implies has_id(
                            after,
                            d as int,
                        ) by {
                            assert(old_map.contains_key(d));
                            lemma_has_id_remove(before, id as int, d as int);
                        }
                        assert forall|k: int| 0 <= k < after.len() implies 0 <= (
                        #[trigger] after[k]).0 <= u16::MAX && live@.contains_key(after[k].0 as u16)
                            && live@[after[k].0 as u16] == after[k].1 by {
                            assert(after.contains(after[k]));
                            lemma_remove_contains(before, id as int, after[k]);
                            let j = choose|j: int| 0 <= j < before.len() && before[j] == after[k];
                            assert(old_map.contains_key(before[j].0 as u16));
                        }
                    }
                },
                Entry::SetDate(_) => {},
            }
            i = i + 1;
        }
        let recs = records_in_order(&live);
        proof {
            assert(self@.take(self@.len() as int) =~= self@);
            lemma_live_wf(self@);
            let l = live_records(self@);
            let rv = records_view(recs@);
            assert forall|a: int, b: int| 0 <= a < b < rv.len() implies rv[a].0 < rv[b].0 by {
                assert(recs@[a].id < recs@[b].id);
            }
            assert forall|x: LiveRecord| rv.contains(x) implies l.contains(x) by {
                let k = choose|k: int| 0 <= k < rv.len() && rv[k] == x;
                assert(live@.contains_key(recs@[k].id));
                let j = choose|j: int| 0 <= j < l.len() && #[trigger] l[j].0 == recs@[k].id as int;
                assert(l[j] == x);
            }
            assert forall|x: LiveRecord| l.contains(x) implies rv.contains(x) by {
                let j = choose|j: int| 0 <= j < l.len() && l[j] == x;
                assert(live@.contains_key(l[j].0 as u16));
                let k = choose|k: int| 0 <= k < recs@.len() && recs@[k].id == l[j].0 as u16;
                assert(rv[k] == x);
            }
            lemma_ascending_equal(rv, l);
        }
        recs
    }

    /// The window in force: the one of the last `SetDate`, or the default
    /// window where there is none.
    pub fn date_range(&self) -> (r: DateRange)
        ensures
            r == active_range(self@),
    {
        let mut k: usize = self.entries.len();
        proof {
            assert(self@.take(self@.len() as int) =~= self@);
        }
        while k > 0
            invariant
                k <= self@.len(),
                active_range(self@) == active_range(self@.take(k as int)),
            decreases k,
        {
            proof {
                lemma_take_step(self@, k - 1);
            }
            if let Entry::SetDate(range) = self.entries[k - 1] {
                return range;
            }
            k = k - 1;
        }
        DateRange::default_window()
    }

    /// One summary for each day of the active window, in date order: the
    /// income and expenses of the live transactions booked on that day, and
    /// the running balance of the window, all summed with saturation.
    pub fn timeline_data(&self) -> (r: TimelineData)
        requires
            create_count(self@) <= MAX_TRANSACTIONS,
        ensures
            r@ == timeline_of(self@),
    {
        let range = self.date_range();
        let recs = self.transaction_records();
        let ghost live = live_records(self@);
        let ghost start = range.start.day();
        let mut out: Vec<DateSummary> = Vec::new();
        if range.end.days_from_ce < range.start.days_from_ce {
            proof {
                assert(out@ =~= timeline_of(self@));
            }
            return TimelineData(out);
        }
        let n: u64 = (range.end.days_from_ce as i64 - range.start.days_from_ce as i64 + 1) as u64;
        let mut balance: Dollars = 0;
        let mut i: u64 = 0;
        while i < n
            invariant
                n == range.day_count(),
                range == active_range(self@),
                start == range.start.day(),
                live == live_records(self@),
                records_view(recs@) == live,
                i <= n,
                out@.len() == i,
                forall|j: int| 0 <= j < i ==> out@[j] == #[trigger] summary_at(live, start, j as nat),
                balance as int == balance_before(live, start, i as nat),
            decreases n - i,
        {
            let day: i32 = (range.start.days_from_ce as i64 + i as i64) as i32;
            let ghost b0 = balance as int;
            let mut income: Dollars = 0;
            let mut expenses: Dollars = 0;
            let mut k: usize = 0;
            while k < recs.len()
                invariant
                    records_view(recs@) == live,
                    day as int == start + i,
                    k <= recs@.len(),
                    income as int == day_income(live.take(k as int), day as int),
                    expenses as int == day_expenses(live.take(k as int), day as int),
                    balance as int == day_balance(b0, live.take(k as int), day as int),
                decreases recs@.len() - k,
            {
                proof {
                    lemma_take_step(live, k as int);
                    assert(live[k as int].1 == recs@[k as int].transaction);
                }
                let t = recs[k].transaction;
                if t.date.days_from_ce == day {
                    match t.kind {
                        TransactionKind::Income => {
                            income = add_saturating(income, t.value);
                            balance = add_saturating(balance, t.value);
                        },
                        TransactionKind::Expense => {
                            expenses = add_saturating(expenses, t.value);
                            balance = sub_saturating(balance, t.value);
                        },
                    }
                }
                k = k + 1;
            }
            proof {
                assert(live.take(recs@.len() as int) =~= live);
                lemma_balance_after_fits(live, start, i as nat);
                lemma_day_totals_fit(b0, live, day as int);
            }
            out.push(DateSummary { date: Date { days_from_ce: day }, income, expenses, balance });
            proof {
                assert(out@[i as int] == summary_at(live, start, i as nat));
            }
            i = i + 1;
        }
        proof {
            assert(out@ =~= timeline_of(self@));
        }
        TimelineData(out)
    }

    /// Each `Create` entry with its position in the log, as the record it
    /// made: the `k`-th of them carries id `k`.
    pub fn create_entries(&self) -> (r: Vec<(usize, TransactionRecord)>)
        requires
            create_count(self@) <= MAX_TRANSACTIONS,
        ensures
            r@.len() == create_list(self@).len(),
            r@.len() == create_count(self@),
            forall|k: int|
                0 <= k < r@.len() ==> {
                    &&& (#[trigger] r@[k]).0 as int == create_list(self@)[k].0
                    &&& r@[k].1.transaction == create_list(self@)[k].1
                    &&& r@[k].1.id as int == k
                },
    {
        let mut out: Vec<(usize, TransactionRecord)> = Vec::new();
        let mut i: usize = 0;
        proof {
            lemma_create_list_len(self@);
        }
        while i < self.entries.len()
            invariant
                i <= self@.len(),
                create_count(self@) <= MAX_TRANSACTIONS,
                out@.len() == create_list(self@.take(i as int)).len(),
                out@.len() == create_count(self@.take(i as int)),
                forall|k: int|
                    0 <= k < out@.len() ==> {
                        &&& (#[trigger] out@[k]).0 as int == create_list(self@.take(i as int))[k].0
                        &&& out@[k].1.transaction == create_list(self@.take(i as int))[k].1
                        &&& out@[k].1.id as int == k
                    },
            decreases self@.len() - i,
        {
            proof {
                lemma_take_step(self@, i as int);
                lemma_create_list_len(self@.take(i as int + 1));
                lemma_create_count_prefix(self@, i as int + 1);
            }
            if let Entry::Create(t) = self.entries[i] {
                let id: u16 = out.len() as u16;
                out.push((i, TransactionRecord { transaction: t, id }));
            }
            i = i + 1;
        }
        proof {
            assert(self@.take(self@.len() as int) =~= self@);
        }
        out
    }

    /// Each `Delete` entry with its position in the log and the id it names.
    pub fn delete_entries(&self) -> (r: Vec<(usize, TransactionId)>)
        ensures
            r@.len() == delete_list(self@).len(),
            forall|k: int|
                0 <= k < r@.len() ==> (#[trigger] r@[k]).0 as int == delete_list(self@)[k].0
                    && r@[k].1 == delete_list(self@)[k].1,
    {
        let mut out: Vec<(usize, TransactionId)> = Vec::new();
        let mut i: usize = 0;
        while i < self.entries.len()
            invariant
                i <= self@.len(),
                out@.len() == delete_list(self@.take(i as int)).len(),
                forall|k: int|
                    0 <= k < out@.len() ==> (#[trigger] out@[k]).0 as int == delete_list(
                        self@.take(i as int),
                    )[k].0 && out@[k].1 == delete_list(self@.take(i as int))[k].1,
            decreases self@.len() - i,
        {
            proof {
                lemma_take_step(self@, i as int);
            }
            if let Entry::Delete(id) = self.entries[i] {
                out.push((i, id));
            }
            i = i + 1;
        }
        proof {
            assert(self@.take(self@.len() as int) =~= self@);
        }
        out
    }

    /// The id that a `Create` at position `index` is given: the number of
    /// `Create` entries before it. Past the end of the log, the id that the
    /// next `Create` would get.
    pub fn transaction_id_at(&self, index: usize) -> (r: TransactionId)
        requires
            create_count(self@.take(min_index(index as int, self@.len() as int))) < MAX_TRANSACTIONS,
        ensures
            r as int == create_count(self@.take(min_index(index as int, self@.len() as int))),
    {
        let stop: usize = if index < self.entries.len() {
            index
        } else {
            self.entries.len()
        };
        let mut n: u32 = 0;
        let mut i: usize = 0;
        while i < stop
            invariant
                stop == min_index(index as int, self@.len() as int),
                i <= stop <= self@.len(),
                n as int == create_count(self@.take(i as int)),
                create_count(self@.take(stop as int)) < MAX_TRANSACTIONS,
            decreases stop - i,
        {
            proof {
                lemma_take_step(self@, i as int);
                assert(self@.take(stop as int).take(i as int + 1) =~= self@.take(i as int + 1));
                lemma_create_count_prefix(self@.take(stop as int), i as int + 1);
            }
            if let Entry::Create(_) = self.entries[i] {
                n = n + 1;
            }
            i = i + 1;
        }
        n as u16
    }

    /// The position of the `Create` entry that was given `id`; `None` where
    /// fewer than `id + 1` transactions were ever created.
    pub fn latest_create(&self, id: &TransactionId) -> (r: Option<usize>)
        ensures
            r is None <==> *id as int >= create_count(self@),
            r matches Some(i) ==> created_at(self@, i as int, *id as int),
    {
        let mut n: u32 = 0;
        let mut i: usize = 0;
        while i < self.entries.len()
            invariant
                i <= self@.len(),
                n as int == create_count(self@.take(i as int)),
                n <= *id,
            decreases self@.len() - i,
        {
            proof {
                lemma_take_step(self@, i as int);
                lemma_create_count_prefix(self@, i as int + 1);
            }
            if let Entry::Create(_) = self.entries[i] {
                if n == *id as u32 {
                    proof {
                        lemma_create_count_prefix(self@, i as int + 1);
                    }
                    return Some(i);
                }
                n = n + 1;
            }
            i = i + 1;
        }
        proof {
            assert(self@.take(self@.len() as int) =~= self@);
        }
        None
    }
}

} // verus!
