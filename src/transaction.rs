use vstd::prelude::*;
use crate::date::{Date, UNIX_EPOCH_DAY};

verus! {

/// An amount of money, in whole dollars.
pub type Dollars = i32;

/// The number a transaction gets when it is created: its place among the
/// log's `Create` entries, counted from zero.
pub type TransactionId = u16;

#[derive(Clone, Copy, Debug, PartialEq, Eq, Structural, Hash)]
pub enum TransactionKind {
    Income,
    Expense,
}

impl TransactionKind {
    /// The kind's name, as it is shown to a user.
    pub fn name(&self) -> (r: &'static str)
        ensures
            *self is Income ==> r@ == "Income"@,
            *self is Expense ==> r@ == "Expense"@,
    {
        proof {
            reveal_strlit("Income");
            reveal_strlit("Expense");
        }
        match self {
            TransactionKind::Income => "Income",
            TransactionKind::Expense => "Expense",
        }
    }
}

#[derive(Clone, Copy, Debug, PartialEq, Eq, Structural)]
pub struct Transaction {
    pub value: Dollars,
    pub kind: TransactionKind,
    pub date: Date,
}

/// A live transaction together with the id it was created under.
#[derive(Clone, Copy, Debug, PartialEq, Eq, Structural)]
pub struct TransactionRecord {
    pub transaction: Transaction,
    pub id: TransactionId,
}

impl From<(TransactionId, Transaction)> for TransactionRecord {
    fn from(value: (TransactionId, Transaction)) -> (r: TransactionRecord)
        ensures
            r.id == value.0,
            r.transaction == value.1,
    {
        TransactionRecord { transaction: value.1, id: value.0 }
    }
}

impl vstd::std_specs::convert::FromSpecImpl<(TransactionId, Transaction)> for TransactionRecord {
    open spec fn obeys_from_spec() -> bool {
        true
    }

    open spec fn from_spec(value: (TransactionId, Transaction)) -> TransactionRecord {
        TransactionRecord { transaction: value.1, id: value.0 }
    }
}

/// What one day of the reporting window adds up to: the income and expenses
/// booked on it, and the balance of the window up to and including it.
#[derive(Clone, Copy, Debug, PartialEq, Eq, Structural)]
pub struct DateSummary {
    pub date: Date,
    pub income: Dollars,
    pub expenses: Dollars,
    pub balance: Dollars,
}

impl Default for DateSummary {
    fn default() -> (r: DateSummary)
        ensures
            r.date.days_from_ce == UNIX_EPOCH_DAY,
            r.income == 0,
            r.expenses == 0,
            r.balance == 0,
    {
        DateSummary { date: Date::default(), income: 0, expenses: 0, balance: 0 }
    }
}

/// The day summaries of a reporting window, in date order.
#[derive(Clone, Debug, PartialEq, Eq)]
pub struct TimelineData(pub Vec<DateSummary>);

impl View for TimelineData {
    type V = Seq<DateSummary>;

    open spec fn view(&self) -> Seq<DateSummary> {
        self.0@
    }
}

impl TimelineData {
    pub fn len(&self) -> (r: usize)
        ensures
            r == self@.len(),
    {
        self.0.len()
    }

    /// An iterator over the summaries, in the order in which they stand.
    pub fn iter(&self) -> (r: std::slice::Iter<'_, DateSummary>)
        ensures
            vstd::std_specs::iter::IteratorSpec::remaining(&r) == self@.as_ref(),
    {
        self.0.as_slice().iter()
    }

    /// The summaries, in the order in which they stand.
    pub fn summaries(&self) -> (r: &Vec<DateSummary>)
        ensures
            r@ == self@,
    {
        &self.0
    }

    /// The earliest date among the summaries; `None` where there are none.
    pub fn start_date(&self) -> (r: Option<Date>)
        ensures
            r is None <==> self@.len() == 0,
            r matches Some(d) ==> (exists|i: int| 0 <= i < self@.len() && self@[i].date == d),
            r matches Some(d) ==> (forall|i: int|
                0 <= i < self@.len() ==> d.day() <= #[trigger] self@[i].date.day()),
    {
        if self.0.len() == 0 {
            return None;
        }
        let mut best: Date = self.0[0].date;
        let mut k: usize = 1;
        assert(self@[0].date == best);
        while k < self.0.len()
            invariant
                1 <= k <= self@.len(),
                exists|i: int| 0 <= i < k && self@[i].date == best,
                forall|i: int| 0 <= i < k ==> best.day() <= #[trigger] self@[i].date.day(),
            decreases self@.len() - k,
        {
            if self.0[k].date.days_from_ce < best.days_from_ce {
                best = self.0[k].date;
                assert(self@[k as int].date == best);
            }
            k = k + 1;
        }
        Some(best)
    }
}

impl Default for TimelineData {
    fn default() -> (r: TimelineData)
        ensures
            r@.len() == 0,
    {
        TimelineData(Vec::new())
    }
}

/// The live transactions, as the list view shows them.
#[derive(Clone, Debug, PartialEq, Eq)]
pub struct TransactionsListData {
    pub transaction_records: Vec<TransactionRecord>,
}

impl Default for TransactionsListData {
    fn default() -> (r: TransactionsListData)
        ensures
            r.transaction_records@.len() == 0,
    {
        TransactionsListData { transaction_records: Vec::new() }
    }
}

} // verus!
