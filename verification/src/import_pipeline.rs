//! Bulk import: raw rows of a spreadsheet are turned into transactions and
//! inserted one after the other. A row that fails is recorded and the run
//! goes on with the next.

use vstd::prelude::*;
use crate::date::{parsed_date, Date};
use crate::error::Error;
use crate::text::{split_tags, tag_texts};
use crate::transaction::{Amount, Transaction, TransactionView};
use crate::transaction_repository::{Store, StoreState};

verus! {

/// One row as the spreadsheet gives it: six fields, the date and the type
/// tags still as text.
#[derive(Clone, Debug, PartialEq, Eq)]
pub struct RawRow {
    /// The date, written as day, month and year with `/` between them.
    pub date: String,
    pub name: String,
    pub category: String,
    pub amount: Amount,
    /// The type tags, with `/` between them.
    pub transaction_types: String,
    pub bank: String,
}

/// The mathematical content of a [`RawRow`].
pub struct RawRowView {
    pub date: Seq<char>,
    pub name: Seq<char>,
    pub category: Seq<char>,
    pub amount: Amount,
    pub transaction_types: Seq<char>,
    pub bank: Seq<char>,
}

impl View for RawRow {
    type V = RawRowView;

    open spec fn view(&self) -> RawRowView {
        RawRowView {
            date: self.date@,
            name: self.name@,
            category: self.category@,
            amount: self.amount,
            transaction_types: self.transaction_types@,
            bank: self.bank@,
        }
    }
}

/// The contents of a vector of raw rows.
pub open spec fn row_views(rows: Seq<RawRow>) -> Seq<RawRowView> {
    rows.map_values(|r: RawRow| r@)
}

/// Why a row was not imported.
#[derive(Clone, Copy, Debug, PartialEq, Eq, Structural)]
pub enum RowFailure {
    /// The date text is no date in the form day/month/year.
    UnreadableDate,
    /// The repository refused the transaction.
    Refused(Error),
}

/// What became of one row.
#[derive(Clone, Copy, Debug, PartialEq, Eq, Structural)]
pub enum RowOutcome {
    /// The row was stored under this identifier.
    Stored(i64),
    /// The row was left out.
    Failed(RowFailure),
}

/// What became of the rows of one import, in the order of the rows.
#[derive(Clone, Debug, PartialEq, Eq)]
pub struct ImportSummary {
    pub outcomes: Vec<RowOutcome>,
}

impl RawRowView {
    /// The unstored transaction that the row describes under the date
    /// `date`: the fields as they are, the tags split and trimmed.
    pub open spec fn transaction(self, date: Date) -> TransactionView {
        TransactionView {
            id: None,
            date,
            name: self.name,
            category: self.category,
            amount: self.amount,
            transaction_types: tag_texts(self.transaction_types),
            bank: self.bank,
        }
    }
}

impl StoreState {
    /// What becomes of `row` on this store, where reading its date gave
    /// `reading`.
    pub open spec fn row_outcome(self, row: RawRowView, reading: Option<Date>) -> RowOutcome {
        match reading {
            None => RowOutcome::Failed(RowFailure::UnreadableDate),
            Some(date) => match self.insert_result(row.transaction(date)) {
                Ok(id) => RowOutcome::Stored(id),
                Err(e) => RowOutcome::Failed(RowFailure::Refused(e)),
            },
        }
    }

    /// The store after `row`, where reading its date gave `reading`.
    pub open spec fn after_row(self, row: RawRowView, reading: Option<Date>) -> StoreState {
        match reading {
            None => self,
            Some(date) => self.after_insert(row.transaction(date)),
        }
    }

    /// The store after the rows `rows`, taken in their order.
    pub open spec fn after_rows(self, rows: Seq<RawRowView>) -> StoreState
        decreases rows.len(),
    {
        if rows.len() == 0 {
            self
        } else {
            self.after_rows(rows.drop_last()).after_row(rows.last(), parsed_date(rows.last().date))
        }
    }

    /// What becomes of each of the rows `rows`, taken in their order.
    pub open spec fn row_outcomes(self, rows: Seq<RawRowView>) -> Seq<RowOutcome>
        decreases rows.len(),
    {
        if rows.len() == 0 {
            Seq::<RowOutcome>::empty()
        } else {
            self.row_outcomes(rows.drop_last()).push(
                self.after_rows(rows.drop_last()).row_outcome(
                    rows.last(),
                    parsed_date(rows.last().date),
                ),
            )
        }
    }
}

/// How many of the outcomes are stored rows.
pub open spec fn stored_among(outcomes: Seq<RowOutcome>) -> nat
    decreases outcomes.len(),
{
    if outcomes.len() == 0 {
        0
    } else {
        stored_among(outcomes.drop_last()) + if outcomes.last() is Stored { 1nat } else { 0nat }
    }
}

/// Whether an outcome is a failure.
pub open spec fn is_failure(outcome: RowOutcome) -> bool {
    outcome is Failed
}

impl RawRow {
    /// Builds the unstored transaction that the row describes under the
    /// date `date`.
    pub fn to_transaction(&self, date: Date) -> (t: Transaction)
        ensures
            t@ == self@.transaction(date),
    {
        Transaction {
            id: None,
            date,
            name: self.name.clone(),
            category: self.category.clone(),
            amount: self.amount,
            transaction_types: split_tags(self.transaction_types.as_str()),
            bank: self.bank.clone(),
        }
    }
}

impl ImportSummary {
    /// Tells whether at least one row failed.
    pub fn has_failure(&self) -> (b: bool)
        ensures
            b == exists|i: int| 0 <= i < self.outcomes@.len() && is_failure(#[trigger] self.outcomes@[i]),
    {
        let mut i: usize = 0;
        while i < self.outcomes.len()
            invariant
                i <= self.outcomes@.len(),
                forall|k: int| 0 <= k < i ==> !is_failure(#[trigger] self.outcomes@[k]),
            decreases self.outcomes@.len() - i,
        {
            match self.outcomes[i] {
                RowOutcome::Failed(_) => {
                    assert(is_failure(self.outcomes@[i as int]));
                    return true;
                },
                RowOutcome::Stored(_) => {},
            }
            i += 1;
        }
        false
    }

    /// The number of rows that were stored.
    pub fn stored_count(&self) -> (n: usize)
        ensures
            n == stored_among(self.outcomes@),
    {
        let mut n: usize = 0;
        let mut i: usize = 0;
        proof {
            assert(self.outcomes@.take(0) =~= Seq::<RowOutcome>::empty());
        }
        while i < self.outcomes.len()
            invariant
                i <= self.outcomes@.len(),
                n <= i,
                n == stored_among(self.outcomes@.take(i as int)),
            decreases self.outcomes@.len() - i,
        {
            proof {
                assert(self.outcomes@.take(i + 1).drop_last() =~= self.outcomes@.take(i as int));
                assert(self.outcomes@.take(i + 1).last() == self.outcomes@[i as int]);
            }
            match self.outcomes[i] {
                RowOutcome::Stored(_) => {
                    n += 1;
                },
                RowOutcome::Failed(_) => {},
            }
            i += 1;
        }
        proof {
            assert(self.outcomes@.take(i as int) =~= self.outcomes@);
        }
        n
    }
}

/// Imports one row whose date text has been read already: a row without a
/// readable date is left out, any other is built and inserted.
pub fn import_read_row(store: &mut Store, row: &RawRow, reading: Option<Date>) -> (outcome: RowOutcome)
    requires
        old(store).wf(),
    ensures
        final(store).wf(),
        outcome == old(store)@.row_outcome(row@, reading),
        final(store)@ == old(store)@.after_row(row@, reading),
        outcome is Failed ==> final(store)@ == old(store)@,
{
    match reading {
        None => RowOutcome::Failed(RowFailure::UnreadableDate),
        Some(date) => match store.insert(row.to_transaction(date)) {
            Ok(id) => RowOutcome::Stored(id),
            Err(e) => RowOutcome::Failed(RowFailure::Refused(e)),
        },
    }
}

/// Imports one row: reads its date, builds the transaction and inserts it.
pub fn import_row(store: &mut Store, row: &RawRow) -> (outcome: RowOutcome)
    requires
        old(store).wf(),
    ensures
        final(store).wf(),
        outcome == old(store)@.row_outcome(row@, parsed_date(row@.date)),
        final(store)@ == old(store)@.after_row(row@, parsed_date(row@.date)),
        outcome is Failed ==> final(store)@ == old(store)@,
{
    let reading = Date::parse_day_month_year(row.date.as_str());
    import_read_row(store, row, reading)
}

/// Imports the rows in their order and reports what became of each.
///
/// A row that fails changes nothing and does not end the run: every row is
/// tried, on the store as the rows before it left it.
pub fn import(store: &mut Store, rows: &Vec<RawRow>) -> (summary: ImportSummary)
    requires
        old(store).wf(),
    ensures
        final(store).wf(),
        final(store)@ == old(store)@.after_rows(row_views(rows@)),
        summary.outcomes@ == old(store)@.row_outcomes(row_views(rows@)),
        summary.outcomes@.len() == rows@.len(),
{
    let mut outcomes: Vec<RowOutcome> = Vec::new();
    let mut i: usize = 0;
    let ghost all = row_views(rows@);
    proof {
        assert(all.take(0) =~= Seq::<RawRowView>::empty());
    }
    while i < rows.len()
        invariant
            i <= rows@.len(),
            all == row_views(rows@),
            store.wf(),
            store@ == old(store)@.after_rows(all.take(i as int)),
            outcomes@ == old(store)@.row_outcomes(all.take(i as int)),
            outcomes@.len() == i,
        decreases rows@.len() - i,
    {
        proof {
            assert(all.take(i + 1).drop_last() =~= all.take(i as int));
            assert(all.take(i + 1).last() == rows@[i as int]@);
        }
        let outcome = import_row(store, &rows[i]);
        outcomes.push(outcome);
        i += 1;
    }
    proof {
        assert(all.take(i as int) =~= all);
    }
    ImportSummary { outcomes }
}

/// Every row gets an outcome: the import never stops early.
pub proof fn lemma_every_row_has_outcome(s: StoreState, rows: Seq<RawRowView>)
    ensures
        s.row_outcomes(rows).len() == rows.len(),
    decreases rows.len(),
{
    if rows.len() > 0 {
        lemma_every_row_has_outcome(s, rows.drop_last());
    }
}

/// A row that fails leaves the store to the next row as it found it, and a
/// well-formed store stays well formed through any rows.
pub proof fn lemma_failed_row_changes_nothing(s: StoreState, rows: Seq<RawRowView>, i: int)
    requires
        s.wf(),
        0 <= i < rows.len(),
    ensures
        s.after_rows(rows.take(i)).wf(),
        s.row_outcomes(rows.take(i + 1)).last() == s.after_rows(rows.take(i)).row_outcome(
            rows[i],
            parsed_date(rows[i].date),
        ),
        is_failure(s.row_outcomes(rows.take(i + 1)).last()) ==> s.after_rows(rows.take(i + 1))
            == s.after_rows(rows.take(i)),
{
    lemma_rows_keep_wf(s, rows.take(i));
    assert(rows.take(i + 1).drop_last() =~= rows.take(i));
    assert(rows.take(i + 1).last() == rows[i]);
}

/// A well-formed store stays well formed through any rows.
pub proof fn lemma_rows_keep_wf(s: StoreState, rows: Seq<RawRowView>)
    requires
        s.wf(),
    ensures
        s.after_rows(rows).wf(),
    decreases rows.len(),
{
    if rows.len() > 0 {
        lemma_rows_keep_wf(s, rows.drop_last());
        let before = s.after_rows(rows.drop_last());
        match parsed_date(rows.last().date) {
            None => {},
            Some(date) => {
                crate::pagination::lemma_insert_atomic(
                    before,
                    rows.last().transaction(date),
                    1,
                    crate::transaction::Cursor::Start,
                );
            },
        }
    }
}

} // verus!
