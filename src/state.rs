//! A materialised store of transactions: a set keyed by id that is changed in
//! place, with per-date summaries, a timeline over an inclusive span of days,
//! and a pipeline of filters over its records. Ids here start at 1.

use vstd::prelude::*;
use crate::date::Date;
use std::collections::BTreeMap;
use vstd::std_specs::btree::increasing_seq;
use vstd::std_specs::cmp::OrdSpec;
use vstd::std_specs::iter::IteratorSpec;
use crate::model::{
    ascending, lemma_ascending_equal, lemma_push_contains, lemma_remove_ascending,
    lemma_remove_contains, lemma_take_step, remove_id,
};
pub use crate::transaction::TransactionKind;

verus! {

pub type TransactionId = u32;

pub type Dollars = u32;

pub type Income = Dollars;

pub type Expenses = Dollars;

pub type Balance = Dollars;

/// Income, expenses and running balance of each day of a span.
pub type TimelineData = Vec<(Income, Expenses, Balance)>;

pub type TransactionRecord = (TransactionId, Transaction);

/// One summary for each date that has transactions, in date order.
pub type DateSummaries = Vec<(Date, DateSummary)>;

#[derive(Clone, Copy, Debug, PartialEq, Eq, Structural)]
pub struct Transaction {
    pub kind: TransactionKind,
    pub value: Dollars,
    pub date: Date,
}

impl From<(TransactionKind, Dollars, Date)> for Transaction {
    fn from(value: (TransactionKind, Dollars, Date)) -> (r: Transaction)
        ensures
            r == (Transaction { kind: value.0, value: value.1, date: value.2 }),
    {
        Transaction { kind: value.0, value: value.1, date: value.2 }
    }
}

impl vstd::std_specs::convert::FromSpecImpl<(TransactionKind, Dollars, Date)> for Transaction {
    open spec fn obeys_from_spec() -> bool {
        true
    }

    open spec fn from_spec(value: (TransactionKind, Dollars, Date)) -> Transaction {
        Transaction { kind: value.0, value: value.1, date: value.2 }
    }
}

#[derive(Clone, Copy, Debug, PartialEq, Eq, Structural)]
pub struct DateSummary {
    pub income: Dollars,
    pub expenses: Dollars,
}

/// A stored record as the model reads it.
pub type StoreRecord = (int, Transaction);

pub open spec fn store_view(v: Seq<TransactionRecord>) -> Seq<StoreRecord> {
    v.map_values(|r: TransactionRecord| (r.0 as int, r.1))
}

/// `x`, held to the bounds of `u32`.
pub open spec fn clamp_u32(x: int) -> int {
    if x > u32::MAX {
        u32::MAX as int
    } else if x < 0 {
        0
    } else {
        x
    }
}

/// The values of `kind` booked on `day`, summed in order with saturation.
pub open spec fn kind_total(recs: Seq<StoreRecord>, day: int, kind: TransactionKind) -> int
    decreases recs.len(),
{
    if recs.len() == 0 {
        0
    } else {
        let acc = kind_total(recs.drop_last(), day, kind);
        let t = recs.last().1;
        if t.date.day() == day && t.kind == kind {
            clamp_u32(acc + t.value)
        } else {
            acc
        }
    }
}

/// The balance `b` after the transactions of `day`, each added or taken away
/// in order, held between zero and `u32::MAX`.
pub open spec fn day_net(b: int, recs: Seq<StoreRecord>, day: int) -> int
    decreases recs.len(),
{
    if recs.len() == 0 {
        b
    } else {
        let acc = day_net(b, recs.drop_last(), day);
        let t = recs.last().1;
        if t.date.day() == day {
            match t.kind {
                TransactionKind::Income => clamp_u32(acc + t.value),
                TransactionKind::Expense => clamp_u32(acc - t.value),
            }
        } else {
            acc
        }
    }
}

/// The balance at the end of day `start + i`, counted from zero before `start`.
pub open spec fn net_after(recs: Seq<StoreRecord>, start: int, i: nat) -> int
    decreases i,
{
    let before = if i == 0 {
        0
    } else {
        net_after(recs, start, (i - 1) as nat)
    };
    day_net(before, recs, start + i)
}

pub open spec fn net_before(recs: Seq<StoreRecord>, start: int, i: nat) -> int {
    if i == 0 {
        0
    } else {
        net_after(recs, start, (i - 1) as nat)
    }
}

proof fn lemma_totals_in_u32(b: int, recs: Seq<StoreRecord>, day: int)
    requires
        0 <= b <= u32::MAX,
    ensures
        0 <= kind_total(recs, day, TransactionKind::Income) <= u32::MAX,
        0 <= kind_total(recs, day, TransactionKind::Expense) <= u32::MAX,
        0 <= day_net(b, recs, day) <= u32::MAX,
    decreases recs.len(),
{
    if recs.len() > 0 {
        lemma_totals_in_u32(b, recs.drop_last(), day);
    }
}

proof fn lemma_net_in_u32(recs: Seq<StoreRecord>, start: int, i: nat)
    ensures
        0 <= net_after(recs, start, i) <= u32::MAX,
        0 <= net_before(recs, start, i) <= u32::MAX,
    decreases i,
{
    if i > 0 {
        lemma_net_in_u32(recs, start, (i - 1) as nat);
    }
    lemma_totals_in_u32(net_before(recs, start, i), recs, start + i);
}

/// The entries of `m` with ids from 1 to `n`, in ascending order of id.
pub open spec fn ordered_upto(m: Map<TransactionId, Transaction>, n: nat) -> Seq<StoreRecord>
    decreases n,
{
    if n == 0 {
        Seq::empty()
    } else {
        let before = ordered_upto(m, (n - 1) as nat);
        if m.contains_key(n as u32) {
            before.push((n as int, m[n as u32]))
        } else {
            before
        }
    }
}

/// `x` is the entry of `m` under id `x.0`, an id from 1 to `n`.
pub open spec fn stored_upto(m: Map<TransactionId, Transaction>, n: nat, x: StoreRecord) -> bool {
    &&& 1 <= x.0 <= n
    &&& m.contains_key(x.0 as u32)
    &&& m[x.0 as u32] == x.1
}

proof fn lemma_ordered(m: Map<TransactionId, Transaction>, n: nat)
    requires
        n <= u32::MAX,
    ensures
        ascending(ordered_upto(m, n)),
        forall|x: StoreRecord| #[trigger] ordered_upto(m, n).contains(x) <==> stored_upto(m, n, x),
    decreases n,
{
    if n > 0 {
        let p = ordered_upto(m, (n - 1) as nat);
        lemma_ordered(m, (n - 1) as nat);
        if m.contains_key(n as u32) {
            let y = (n as int, m[n as u32]);
            assert forall|x: StoreRecord| #[trigger] ordered_upto(m, n).contains(x) <==> stored_upto(
                m,
                n,
                x,
            ) by {
                lemma_push_contains(p, y, x);
            }
            assert forall|a: int, b: int| 0 <= a < b < p.len() + 1 implies p.push(y)[a].0 < p.push(
                y,
            )[b].0 by {
                assert(p.contains(p[a]));
                if b < p.len() {
                    assert(p.push(y)[b] == p[b]);
                }
            }
        }
    }
}

/// The entries of `m`, in ascending order of id.
fn entries_in_order(m: &BTreeMap<TransactionId, Transaction>) -> (r: Vec<TransactionRecord>)
    ensures
        forall|a: int, b: int| 0 <= a < b < r@.len() ==> r@[a].0 < r@[b].0,
        forall|k: int|
            0 <= k < r@.len() ==> m@.contains_key((#[trigger] r@[k]).0) && m@[r@[k].0] == r@[k].1,
        forall|id: TransactionId|
            #[trigger] m@.contains_key(id) ==> exists|k: int| 0 <= k < r@.len() && r@[k].0 == id,
{
    broadcast use vstd::std_specs::btree::group_btree_axioms, vstd::laws_cmp::group_laws_cmp;

    let mut out: Vec<TransactionRecord> = Vec::new();
    let walk = m.iter();
    let ghost s = walk.remaining();
    for (id, t) in it: walk
        invariant
            it.seq() == s,
            out@.len() == it.index(),
            forall|k: int|
                0 <= k < out@.len() ==> (#[trigger] out@[k]).0 == *it.seq()[k].0 && out@[k].1
                    == *it.seq()[k].1,
    {
        out.push((*id, *t));
    }
    proof {
        let keys = s.map_values(|kv: (&TransactionId, &Transaction)| *kv.0);
        assert(increasing_seq(keys));
        assert forall|a: int, b: int| 0 <= a < b < out@.len() implies out@[a].0 < out@[b].0 by {
            assert(keys[a] == out@[a].0 && keys[b] == out@[b].0);
            assert(keys[a].cmp_spec(&keys[b]) is Less);
        }
        assert forall|id: TransactionId| #[trigger] m@.contains_key(id) implies exists|k: int|
            0 <= k < out@.len() && out@[k].0 == id by {
            assert(s.contains((&id, &m@[id])));
            let k = choose|k: int| 0 <= k < s.len() && s[k] == (&id, &m@[id]);
            assert(out@[k].0 == id);
        }
    }
    out
}

/// The summaries of `m`, in ascending order of day.
fn days_in_order(m: &BTreeMap<i32, DateSummary>) -> (r: DateSummaries)
    ensures
        forall|a: int, b: int| 0 <= a < b < r@.len() ==> r@[a].0.day() < r@[b].0.day(),
        forall|k: int|
            0 <= k < r@.len() ==> m@.contains_key((#[trigger] r@[k]).0.days_from_ce) && m@[r@[k].0.days_from_ce]
                == r@[k].1,
        forall|d: i32|
            #[trigger] m@.contains_key(d) ==> exists|k: int|
                0 <= k < r@.len() && r@[k].0.days_from_ce == d,
{
    broadcast use vstd::std_specs::btree::group_btree_axioms, vstd::laws_cmp::group_laws_cmp;

    let mut out: DateSummaries = Vec::new();
    let walk = m.iter();
    let ghost s = walk.remaining();
    for (day, summary) in it: walk
        invariant
            it.seq() == s,
            out@.len() == it.index(),
            forall|k: int|
                0 <= k < out@.len() ==> (#[trigger] out@[k]).0.days_from_ce == *it.seq()[k].0
                    && out@[k].1 == *it.seq()[k].1,
    {
        out.push((Date { days_from_ce: *day }, *summary));
    }
    proof {
        let keys = s.map_values(|kv: (&i32, &DateSummary)| *kv.0);
        assert(increasing_seq(keys));
        assert forall|a: int, b: int| 0 <= a < b < out@.len() implies out@[a].0.day()
            < out@[b].0.day() by {
            assert(keys[a] == out@[a].0.days_from_ce && keys[b] == out@[b].0.days_from_ce);
            assert(keys[a].cmp_spec(&keys[b]) is Less);
        }
        assert forall|d: i32| #[trigger] m@.contains_key(d) implies exists|k: int|
            0 <= k < out@.len() && out@[k].0.days_from_ce == d by {
            assert(s.contains((&d, &m@[d])));
            let k = choose|k: int| 0 <= k < s.len() && s[k] == (&d, &m@[d]);
            assert(out@[k].0.days_from_ce == d);
        }
    }
    out
}

/// Some record of `recs` is dated `d`.
pub open spec fn has_date(recs: Seq<StoreRecord>, d: Date) -> bool {
    exists|j: int| 0 <= j < recs.len() && recs[j].1.date == d
}

/// Some summary of `out` is for `d`.
pub open spec fn lists_date(out: Seq<(Date, DateSummary)>, d: Date) -> bool {
    exists|k: int| 0 <= k < out.len() && out[k].0 == d
}

/// The summary `x.1` holds the income and the expenses of date `x.0`.
pub open spec fn summary_right(recs: Seq<StoreRecord>, x: (Date, DateSummary)) -> bool {
    &&& x.1.income as int == kind_total(recs, x.0.day(), TransactionKind::Income)
    &&& x.1.expenses as int == kind_total(recs, x.0.day(), TransactionKind::Expense)
}

proof fn lemma_no_date_no_total(recs: Seq<StoreRecord>, d: Date, kind: TransactionKind)
    requires
        !has_date(recs, d),
    ensures
        kind_total(recs, d.day(), kind) == 0,
    decreases recs.len(),
{
    if recs.len() > 0 {
        let p = recs.drop_last();
        assert(recs[recs.len() - 1].1.date != d);
        assert(!has_date(p, d)) by {
            if has_date(p, d) {
                let j = choose|j: int| 0 <= j < p.len() && p[j].1.date == d;
                assert(recs[j] == p[j]);
            }
        }
        lemma_no_date_no_total(p, d, kind);
    }
}

/// `by_day` holds, for each date of `recs`, the summary of that date.
spec fn summaries_by_day(by_day: Map<i32, DateSummary>, recs: Seq<StoreRecord>) -> bool {
    &&& forall|d: i32| #[trigger] by_day.contains_key(d) <==> has_date(recs, Date { days_from_ce: d })
    &&& forall|d: i32|
        #[trigger] by_day.contains_key(d) ==> summary_right(
            recs,
            (Date { days_from_ce: d }, by_day[d]),
        )
}

/// The transactions that are live, keyed by id, and the last id handed out.
#[derive(Clone, Debug, PartialEq, Eq)]
pub struct Transactions {
    transactions: BTreeMap<TransactionId, Transaction>,
    last_id: TransactionId,
}

impl View for Transactions {
    type V = Seq<StoreRecord>;

    closed spec fn view(&self) -> Seq<StoreRecord> {
        ordered_upto(self.transactions@, self.last_id as nat)
    }
}

impl Transactions {
    pub closed spec fn last_id(&self) -> nat {
        self.last_id as nat
    }

    /// Every stored id lies between 1 and the last one handed out.
    pub closed spec fn wf(&self) -> bool {
        forall|k: TransactionId| #[trigger] self.transactions@.contains_key(k) ==> 1 <= k <= self.last_id
    }

    /// An empty store.
    pub fn new() -> (r: Transactions)
        ensures
            r.wf(),
            r@.len() == 0,
            r.last_id() == 0,
    {
        broadcast use vstd::std_specs::btree::group_btree_axioms, vstd::laws_cmp::group_laws_cmp;

        Transactions { transactions: BTreeMap::new(), last_id: 0 }
    }

    /// A store with three transactions of May 2023: incomes of 150 and 200
    /// on the 5th and the 9th, an expense of 300 on the 15th.
    pub fn example() -> (r: Transactions)
        ensures
            r.wf(),
            r.last_id() == 3,
            r@ == seq![
                (1int, Transaction { kind: TransactionKind::Income, value: 150, date: Date { days_from_ce: 738645 } }),
                (2int, Transaction { kind: TransactionKind::Income, value: 200, date: Date { days_from_ce: 738649 } }),
                (3int, Transaction { kind: TransactionKind::Expense, value: 300, date: Date { days_from_ce: 738655 } }),
            ],
    {
        let mut this = Self::new();
        this.insert(
            Transaction {
                kind: TransactionKind::Income,
                value: 150,
                date: Date { days_from_ce: 738645 },
            },
        );
        this.insert(
            Transaction {
                kind: TransactionKind::Income,
                value: 200,
                date: Date { days_from_ce: 738649 },
            },
        );
        this.insert(
            Transaction {
                kind: TransactionKind::Expense,
                value: 300,
                date: Date { days_from_ce: 738655 },
            },
        );
        proof {
            assert(this@ =~= seq![
                (1int, Transaction { kind: TransactionKind::Income, value: 150, date: Date { days_from_ce: 738645 } }),
                (2int, Transaction { kind: TransactionKind::Income, value: 200, date: Date { days_from_ce: 738649 } }),
                (3int, Transaction { kind: TransactionKind::Expense, value: 300, date: Date { days_from_ce: 738655 } }),
            ]);
        }
        this
    }

    /// Takes the record with `id` out, where there is one.
    pub fn delete(&mut self, id: TransactionId)
        requires
            old(self).wf(),
        ensures
            final(self).wf(),
            final(self)@ == remove_id(old(self)@, id as int),
            final(self).last_id() == old(self).last_id(),
    {
        broadcast use vstd::std_specs::btree::group_btree_axioms, vstd::laws_cmp::group_laws_cmp;

        let ghost before = self@;
        let ghost old_map = self.transactions@;
        self.transactions.remove(&id);
        proof {
            let n = self.last_id as nat;
            lemma_ordered(old_map, n);
            lemma_ordered(self.transactions@, n);
            lemma_remove_ascending(before, id as int);
            let r = remove_id(before, id as int);
            assert forall|x: StoreRecord| self@.contains(x) implies r.contains(x) by {
                lemma_remove_contains(before, id as int, x);
            }
            assert forall|x: StoreRecord| r.contains(x) implies self@.contains(x) by {
                lemma_remove_contains(before, id as int, x);
            }
            lemma_ascending_equal(self@, r);
        }
    }

    /// Stores `tr` under the next id.
    pub fn insert(&mut self, tr: Transaction)
        requires
            old(self).wf(),
            old(self).last_id() < u32::MAX,
        ensures
            final(self).wf(),
            final(self).last_id() == old(self).last_id() + 1,
            final(self)@ == old(self)@.push((final(self).last_id() as int, tr)),
    {
        broadcast use vstd::std_specs::btree::group_btree_axioms, vstd::laws_cmp::group_laws_cmp;

        let ghost before = self@;
        let ghost old_map = self.transactions@;
        let id = self.next_id();
        self.transactions.insert(id, tr);
        proof {
            let n = self.last_id as nat;
            let y = (n as int, tr);
            let want = before.push(y);
            lemma_ordered(old_map, (n - 1) as nat);
            lemma_ordered(self.transactions@, n);
            assert(!old_map.contains_key(id));
            assert forall|x: StoreRecord| self@.contains(x) implies want.contains(x) by {
                lemma_push_contains(before, y, x);
            }
            assert forall|x: StoreRecord| want.contains(x) implies self@.contains(x) by {
                lemma_push_contains(before, y, x);
            }
            assert forall|a: int, b: int| 0 <= a < b < want.len() implies want[a].0 < want[b].0 by {
                assert(before.contains(before[a]));
                if b < before.len() {
                    assert(want[b] == before[b]);
                }
            }
            lemma_ascending_equal(self@, want);
        }
    }

    fn next_id(&mut self) -> (r: TransactionId)
        requires
            old(self).wf(),
            old(self).last_id() < u32::MAX,
        ensures
            final(self).wf(),
            final(self).transactions@ == old(self).transactions@,
            final(self).last_id() == old(self).last_id() + 1,
            r as nat == final(self).last_id(),
    {
        self.last_id = self.last_id + 1;
        self.last_id
    }

    /// The stored records, keyed by id.
    pub fn transactions(&self) -> (r: BTreeMap<TransactionId, Transaction>)
        ensures
            ordered_upto(r@, self.last_id()) == self@,
            self.wf() ==> forall|k: TransactionId|
                #[trigger] r@.contains_key(k) ==> 1 <= k <= self.last_id(),
    {
        self.transactions.clone()
    }

    /// The stored records, in the order of their ids.
    fn records(&self) -> (r: Vec<TransactionRecord>)
        requires
            self.wf(),
        ensures
            store_view(r@) == self@,
    {
        let r = entries_in_order(&self.transactions);
        proof {
            lemma_ordered(self.transactions@, self.last_id as nat);
            let rv = store_view(r@);
            assert forall|a: int, b: int| 0 <= a < b < rv.len() implies rv[a].0 < rv[b].0 by {
                assert(r@[a].0 < r@[b].0);
            }
            assert forall|x: StoreRecord| rv.contains(x) implies self@.contains(x) by {
                let k = choose|k: int| 0 <= k < rv.len() && rv[k] == x;
                assert(self.transactions@.contains_key(r@[k].0));
                assert(stored_upto(self.transactions@, self.last_id as nat, x));
            }
            assert forall|x: StoreRecord| self@.contains(x) implies rv.contains(x) by {
                assert(stored_upto(self.transactions@, self.last_id as nat, x));
                assert(self.transactions@.contains_key(x.0 as u32));
                let k = choose|k: int| 0 <= k < r@.len() && r@[k].0 == x.0 as u32;
                assert(rv[k] == x);
            }
            lemma_ascending_equal(rv, self@);
        }
        r
    }

    /// One summary for each date that has transactions, in ascending date
    /// order: the income and the expenses booked on it, summed with
    /// saturation.
    pub fn date_summaries(&self) -> (r: DateSummaries)
        requires
            self.wf(),
        ensures
            forall|a: int, b: int| 0 <= a < b < r@.len() ==> r@[a].0.day() < r@[b].0.day(),
            forall|k: int| 0 <= k < r@.len() ==> has_date(self@, (#[trigger] r@[k]).0),
            forall|j: int| 0 <= j < self@.len() ==> lists_date(r@, (#[trigger] self@[j]).1.date),
            forall|k: int| 0 <= k < r@.len() ==> summary_right(self@, #[trigger] r@[k]),
    {
        broadcast use vstd::std_specs::btree::group_btree_axioms, vstd::laws_cmp::group_laws_cmp;

        let all = self.records();
        let ghost recs = self@;
        let mut by_day: BTreeMap<i32, DateSummary> = BTreeMap::new();
        let mut k: usize = 0;
        proof {
            assert(summaries_by_day(by_day@, recs.take(0)));
        }
        while k < all.len()
            invariant
                recs == store_view(all@),
                k <= recs.len(),
                summaries_by_day(by_day@, recs.take(k as int)),
            decreases recs.len() - k,
        {
            let ghost pre = recs.take(k as int);
            let ghost old_map = by_day@;
            proof {
                lemma_take_step(recs, k as int);
            }
            let t = all[k].1;
            let day = t.date.days_from_ce;
            let cur = match by_day.get(&day) {
                Some(x) => *x,
                None => DateSummary { income: 0, expenses: 0 },
            };
            let next = match t.kind {
                TransactionKind::Income => DateSummary {
                    income: cur.income.saturating_add(t.value),
                    expenses: cur.expenses,
                },
                TransactionKind::Expense => DateSummary {
                    income: cur.income,
                    expenses: cur.expenses.saturating_add(t.value),
                },
            };
            by_day.insert(day, next);
            proof {
                let post = recs.take(k as int + 1);
                assert(post[k as int] == recs[k as int]);
                assert(recs[k as int].1 == t);
                if !old_map.contains_key(day) {
                    lemma_no_date_no_total(pre, t.date, TransactionKind::Income);
                    lemma_no_date_no_total(pre, t.date, TransactionKind::Expense);
                }
                assert forall|d: i32| #[trigger] by_day@.contains_key(d) <==> has_date(
                    post,
                    Date { days_from_ce: d },
                ) by {
                    if has_date(post, Date { days_from_ce: d }) && d != day {
                        let j = choose|j: int|
                            0 <= j < post.len() && post[j].1.date == Date { days_from_ce: d };
                        assert(pre[j] == post[j]);
                    }
                    if has_date(pre, Date { days_from_ce: d }) {
                        let j = choose|j: int|
                            0 <= j < pre.len() && pre[j].1.date == Date { days_from_ce: d };
                        assert(post[j] == pre[j]);
                    }
                }
            }
            k = k + 1;
        }
        proof {
            assert(recs.take(recs.len() as int) =~= recs);
        }
        let r = days_in_order(&by_day);
        proof {
            assert forall|j: int| 0 <= j < recs.len() implies lists_date(
                r@,
                (#[trigger] recs[j]).1.date,
            ) by {
                let d = recs[j].1.date.days_from_ce;
                assert(has_date(recs, Date { days_from_ce: d }));
                assert(by_day@.contains_key(d));
                let k = choose|k: int| 0 <= k < r@.len() && r@[k].0.days_from_ce == d;
                assert(r@[k].0 == recs[j].1.date);
            }
            assert forall|k: int| 0 <= k < r@.len() implies has_date(recs, (#[trigger] r@[k]).0)
                && summary_right(recs, r@[k]) by {
                assert(by_day@.contains_key(r@[k].0.days_from_ce));
            }
        }
        r
    }

    /// For each day from `start` to `end`, both included: the income and the
    /// expenses booked on it and the running balance from `start` on, all
    /// held between zero and `u32::MAX`. Empty where `end` is before `start`.
    pub fn timeline_data(&self, start: Date, end: Date) -> (r: Option<TimelineData>)
        requires
            self.wf(),
        ensures
            r is Some,
            r matches Some(v) ==> {
                &&& v@.len() == if end.day() < start.day() {
                    0
                } else {
                    end.day() - start.day() + 1
                }
                &&& forall|i: int|
                    0 <= i < v@.len() ==> #[trigger] v@[i] == (
                        kind_total(self@, start.day() + i, TransactionKind::Income) as u32,
                        kind_total(self@, start.day() + i, TransactionKind::Expense) as u32,
                        net_after(self@, start.day(), i as nat) as u32,
                    )
            },
    {
        if end.days_from_ce < start.days_from_ce {
            return Some(Vec::new());
        }
        let all = self.records();
        let ghost recs = self@;
        let n: u64 = (end.days_from_ce as i64 - start.days_from_ce as i64 + 1) as u64;
        let mut out: TimelineData = Vec::new();
        let mut balance: u32 = 0;
        let mut i: u64 = 0;
        while i < n
            invariant
                recs == self@,
                recs == store_view(all@),
                n == end.day() - start.day() + 1,
                i <= n,
                out@.len() == i,
                forall|j: int|
                    0 <= j < i ==> #[trigger] out@[j] == (
                        kind_total(recs, start.day() + j, TransactionKind::Income) as u32,
                        kind_total(recs, start.day() + j, TransactionKind::Expense) as u32,
                        net_after(recs, start.day(), j as nat) as u32,
                    ),
                balance as int == net_before(recs, start.day(), i as nat),
            decreases n - i,
        {
            let day: i32 = (start.days_from_ce as i64 + i as i64) as i32;
            let ghost b0 = balance as int;
            let mut income: u32 = 0;
            let mut expenses: u32 = 0;
            let mut k: usize = 0;
            while k < all.len()
                invariant
                    recs == self@,
                    recs == store_view(all@),
                    day as int == start.day() + i,
                    k <= recs.len(),
                    income as int == kind_total(recs.take(k as int), day as int, TransactionKind::Income),
                    expenses as int == kind_total(
                        recs.take(k as int),
                        day as int,
                        TransactionKind::Expense,
                    ),
                    balance as int == day_net(b0, recs.take(k as int), day as int),
                decreases recs.len() - k,
            {
                proof {
                    lemma_take_step(recs, k as int);
                }
                let t = all[k].1;
                if t.date.days_from_ce == day {
                    match t.kind {
                        TransactionKind::Income => {
                            income = income.saturating_add(t.value);
                            balance = balance.saturating_add(t.value);
                        },
                        TransactionKind::Expense => {
                            expenses = expenses.saturating_add(t.value);
                            balance = balance.saturating_sub(t.value);
                        },
                    }
                }
                k = k + 1;
            }
            proof {
                assert(recs.take(recs.len() as int) =~= recs);
                lemma_net_in_u32(recs, start.day(), i as nat);
                lemma_totals_in_u32(b0, recs, day as int);
            }
            out.push((income, expenses, balance));
            i = i + 1;
        }
        Some(out)
    }
}

/// Which records a filter of a pipeline keeps.
enum Test {
    Kind(TransactionKind),
    Before(Date),
    After(Date),
}

spec fn passes(test: Test, t: Transaction) -> bool {
    match test {
        Test::Kind(k) => t.kind == k,
        Test::Before(d) => t.date.day() < d.day(),
        Test::After(d) => t.date.day() >= d.day(),
    }
}

/// The records of `s` whose transaction is of `kind`.
pub open spec fn with_kind(s: Seq<TransactionRecord>, kind: TransactionKind) -> Seq<TransactionRecord> {
    s.filter(|r: TransactionRecord| r.1.kind == kind)
}

/// The records of `s` dated before `date`.
pub open spec fn dated_before(s: Seq<TransactionRecord>, date: Date) -> Seq<TransactionRecord> {
    s.filter(|r: TransactionRecord| r.1.date.day() < date.day())
}

/// The records of `s` dated on or after `date`.
pub open spec fn dated_from(s: Seq<TransactionRecord>, date: Date) -> Seq<TransactionRecord> {
    s.filter(|r: TransactionRecord| r.1.date.day() >= date.day())
}

spec fn kept(s: Seq<TransactionRecord>, test: Test) -> Seq<TransactionRecord> {
    s.filter(|r: TransactionRecord| passes(test, r.1))
}

fn keep(v: Vec<TransactionRecord>, test: Test) -> (r: Vec<TransactionRecord>)
    ensures
        r@ == kept(v@, test),
{
    let mut out: Vec<TransactionRecord> = Vec::new();
    let mut k: usize = 0;
    while k < v.len()
        invariant
            k <= v@.len(),
            out@ == kept(v@.take(k as int), test),
        decreases v@.len() - k,
    {
        proof {
            lemma_take_step(v@, k as int);
            reveal_with_fuel(Seq::filter, 1);
        }
        let r = v[k];
        let pass = match test {
            Test::Kind(kind) => r.1.kind == kind,
            Test::Before(d) => r.1.date.days_from_ce < d.days_from_ce,
            Test::After(d) => r.1.date.days_from_ce >= d.days_from_ce,
        };
        if pass {
            out.push(r);
        }
        k = k + 1;
    }
    proof {
        assert(v@.take(v@.len() as int) =~= v@);
    }
    out
}

/// A sequence of records to be narrowed down by filters and then read out.
#[derive(Clone, Debug, PartialEq, Eq)]
pub struct Pipeline(pub Vec<TransactionRecord>);

impl From<Vec<TransactionRecord>> for Pipeline {
    fn from(value: Vec<TransactionRecord>) -> (r: Pipeline)
        ensures
            r.0@ == value@,
    {
        Pipeline(value)
    }
}

impl vstd::std_specs::convert::FromSpecImpl<Vec<TransactionRecord>> for Pipeline {
    open spec fn obeys_from_spec() -> bool {
        true
    }

    open spec fn from_spec(value: Vec<TransactionRecord>) -> Pipeline {
        Pipeline(value)
    }
}

impl Pipeline {
    /// The records of `kind`.
    pub fn kind(self, kind: TransactionKind) -> (r: Pipeline)
        ensures
            r.0@ == with_kind(self.0@, kind),
    {
        let r = keep(self.0, Test::Kind(kind));
        proof {
            assert((|r: TransactionRecord| passes(Test::Kind(kind), r.1)) =~= (|r: TransactionRecord| r.1.kind == kind));
        }
        Pipeline(r)
    }

    /// The records dated before `date`.
    pub fn before(self, date: Date) -> (r: Pipeline)
        ensures
            r.0@ == dated_before(self.0@, date),
    {
        let r = keep(self.0, Test::Before(date));
        proof {
            assert((|r: TransactionRecord| passes(Test::Before(date), r.1)) =~= (|r: TransactionRecord| r.1.date.day() < date.day()));
        }
        Pipeline(r)
    }

    /// The records dated on or after `date`.
    pub fn after(self, date: Date) -> (r: Pipeline)
        ensures
            r.0@ == dated_from(self.0@, date),
    {
        let r = keep(self.0, Test::After(date));
        proof {
            assert((|r: TransactionRecord| passes(Test::After(date), r.1)) =~= (|r: TransactionRecord| r.1.date.day() >= date.day()));
        }
        Pipeline(r)
    }

    /// The records dated from `start` up to but not including `end`.
    pub fn between(self, start: Date, end: Date) -> (r: Pipeline)
        ensures
            r.0@ == dated_before(dated_from(self.0@, start), end),
    {
        self.after(start).before(end)
    }

    /// The values of the records, in their order.
    pub fn values(self) -> (r: Vec<Dollars>)
        ensures
            r@ == self.0@.map_values(|x: TransactionRecord| x.1.value),
    {
        let mut out: Vec<Dollars> = Vec::new();
        let mut k: usize = 0;
        while k < self.0.len()
            invariant
                k <= self.0@.len(),
                out@ == self.0@.take(k as int).map_values(|x: TransactionRecord| x.1.value),
            decreases self.0@.len() - k,
        {
            out.push(self.0[k].1.value);
            proof {
                assert(out@ =~= self.0@.take(k as int + 1).map_values(
                    |x: TransactionRecord| x.1.value,
                ));
            }
            k = k + 1;
        }
        proof {
            assert(self.0@.take(k as int) =~= self.0@);
        }
        out
    }
}

/// Records that can be run through a pipeline.
pub trait AsPipeline {
    /// A pipeline over a copy of the records.
    fn pipeline(&self) -> Pipeline;
}

impl AsPipeline for Vec<TransactionRecord> {
    fn pipeline(&self) -> (r: Pipeline)
        ensures
            r.0@ == self@,
    {
        let mut out: Vec<TransactionRecord> = Vec::new();
        let mut k: usize = 0;
        while k < self.len()
            invariant
                k <= self@.len(),
                out@ == self@.take(k as int),
            decreases self@.len() - k,
        {
            out.push(self[k]);
            proof {
                assert(out@ =~= self@.take(k as int + 1));
            }
            k = k + 1;
        }
        proof {
            assert(self@.take(k as int) =~= self@);
        }
        Pipeline(out)
    }
}

impl AsPipeline for BTreeMap<TransactionId, Transaction> {
    fn pipeline(&self) -> (r: Pipeline)
        ensures
            forall|a: int, b: int| 0 <= a < b < r.0@.len() ==> r.0@[a].0 < r.0@[b].0,
            forall|k: int|
                0 <= k < r.0@.len() ==> self@.contains_key((#[trigger] r.0@[k]).0) && self@[r.0@[k].0]
                    == r.0@[k].1,
            forall|id: TransactionId|
                #[trigger] self@.contains_key(id) ==> exists|k: int|
                    0 <= k < r.0@.len() && r.0@[k].0 == id,
    {
        let v = entries_in_order(self);
        proof {
            assert forall|id: TransactionId| #[trigger] self@.contains_key(id) implies exists|k: int|
                0 <= k < v@.len() && v@[k].0 == id by {
                assert(self@.contains_key(id));
            }
        }
        Pipeline(v)
    }
}

} // verus!
