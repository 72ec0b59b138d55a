//! A financial transaction, the rules it must meet to be stored, and the key
//! by which stored transactions are ordered and paged.

use vstd::prelude::*;
use crate::date::Date;
use crate::error::ValidationError;
use crate::text::texts;

verus! {

/// A monetary amount, carried as the bit pattern of an IEEE 754 binary64
/// number. The store hands it through and never computes on it.
#[derive(Clone, Copy, Debug, PartialEq, Eq, Structural)]
pub struct Amount {
    pub bits: u64,
}

/// A transaction as callers hand it in and get it back.
///
/// `id` is `None` until the transaction is stored; from then on it is the
/// key for editing and deleting.
#[derive(Clone, Debug, PartialEq, Eq)]
pub struct Transaction {
    pub id: Option<i64>,
    pub date: Date,
    pub name: String,
    pub category: String,
    pub amount: Amount,
    pub transaction_types: Vec<String>,
    pub bank: String,
}

/// The mathematical content of a [`Transaction`].
pub struct TransactionView {
    pub id: Option<i64>,
    pub date: Date,
    pub name: Seq<char>,
    pub category: Seq<char>,
    pub amount: Amount,
    pub transaction_types: Seq<Seq<char>>,
    pub bank: Seq<char>,
}

impl View for Transaction {
    type V = TransactionView;

    open spec fn view(&self) -> TransactionView {
        TransactionView {
            id: self.id,
            date: self.date,
            name: self.name@,
            category: self.category@,
            amount: self.amount,
            transaction_types: texts(self.transaction_types@),
            bank: self.bank@,
        }
    }
}

/// The contents of a vector of transactions.
pub open spec fn views(v: Seq<Transaction>) -> Seq<TransactionView> {
    v.map_values(|t: Transaction| t@)
}

/// Whether the key `(d1, i1)` is strictly less than the key `(d2, i2)`:
/// dates first, identifiers between equal dates.
pub open spec fn key_less(d1: Date, i1: i64, d2: Date, i2: i64) -> bool {
    d1.precedes(d2) || (d1 == d2 && i1 < i2)
}

impl TransactionView {
    /// The first rule that the fields break, in the order date, name,
    /// category, bank, type tags; `None` where they break none.
    pub open spec fn validation_failure(self) -> Option<ValidationError> {
        if !self.date.valid() {
            Some(ValidationError::InvalidDate)
        } else if self.name.len() == 0 {
            Some(ValidationError::EmptyName)
        } else if self.category.len() == 0 {
            Some(ValidationError::EmptyCategory)
        } else if self.bank.len() == 0 {
            Some(ValidationError::EmptyBank)
        } else if self.transaction_types.len() == 0 {
            Some(ValidationError::NoTransactionTypes)
        } else if exists|i: int|
            0 <= i < self.transaction_types.len() && (#[trigger] self.transaction_types[i]).len()
                == 0 {
            Some(ValidationError::EmptyTransactionType)
        } else {
            None
        }
    }

    /// Whether the transaction can stand in the store: it has an
    /// identifier, its fields break no rule, and no type tag occurs twice.
    pub open spec fn storable(self) -> bool {
        &&& self.id is Some
        &&& self.validation_failure() is None
        &&& self.transaction_types.no_duplicates()
    }

    /// The same transaction under the identifier `id`.
    pub open spec fn with_id(self, id: i64) -> TransactionView {
        TransactionView { id: Some(id), ..self }
    }

    /// Whether this stored transaction comes after `other` in a listing,
    /// which shows larger keys first.
    pub open spec fn listed_after(self, other: TransactionView) -> bool {
        key_less(self.date, self.id.unwrap(), other.date, other.id.unwrap())
    }
}

/// Where a page of a listing begins.
#[derive(Clone, Copy, Debug, PartialEq, Eq, Structural)]
pub enum Cursor {
    /// Before the first transaction: nothing is left out.
    Start,
    /// Behind the transaction with this key: only smaller keys follow.
    After { date: Date, id: i64 },
}

impl Cursor {
    /// Whether a transaction with the key `(date, id)` lies behind the
    /// cursor.
    pub open spec fn admits(self, date: Date, id: i64) -> bool {
        match self {
            Cursor::Start => true,
            Cursor::After { date: d, id: i } => key_less(date, id, d, i),
        }
    }

    /// Tells whether a transaction with the key `(date, id)` lies behind the
    /// cursor.
    pub fn lets_through(&self, date: &Date, id: i64) -> (b: bool)
        ensures
            b == self.admits(*date, id),
    {
        match self {
            Cursor::Start => true,
            Cursor::After { date: d, id: i } => date.is_before(d) || (*date == *d && id < *i),
        }
    }
}

/// Tells whether the key `(d1, i1)` is strictly less than the key `(d2, i2)`.
pub fn key_precedes(d1: &Date, i1: i64, d2: &Date, i2: i64) -> (b: bool)
    ensures
        b == key_less(*d1, i1, *d2, i2),
{
    d1.is_before(d2) || (*d1 == *d2 && i1 < i2)
}

/// Copies a vector of strings.
pub fn copy_texts(v: &Vec<String>) -> (r: Vec<String>)
    ensures
        texts(r@) == texts(v@),
        r@.len() == v@.len(),
{
    let mut r: Vec<String> = Vec::new();
    let mut i: usize = 0;
    while i < v.len()
        invariant
            i <= v@.len(),
            r@.len() == i,
            forall|k: int| 0 <= k < i ==> #[trigger] r@[k]@ == v@[k]@,
        decreases v@.len() - i,
    {
        r.push(v[i].clone());
        i += 1;
    }
    proof {
        assert(texts(r@) =~= texts(v@));
    }
    r
}

impl Transaction {
    /// Checks the fields against the rules of the store.
    #[verifier::loop_isolation(false)]
    pub fn validate(&self) -> (r: Result<(), ValidationError>)
        ensures
            r is Ok <==> self@.validation_failure() is None,
            r matches Err(e) ==> self@.validation_failure() == Some(e),
    {
        if !self.date.is_valid() {
            return Err(ValidationError::InvalidDate);
        }
        if self.name.as_str().unicode_len() == 0 {
            return Err(ValidationError::EmptyName);
        }
        if self.category.as_str().unicode_len() == 0 {
            return Err(ValidationError::EmptyCategory);
        }
        if self.bank.as_str().unicode_len() == 0 {
            return Err(ValidationError::EmptyBank);
        }
        if self.transaction_types.len() == 0 {
            return Err(ValidationError::NoTransactionTypes);
        }
        let mut i: usize = 0;
        while i < self.transaction_types.len()
            invariant
                i <= self.transaction_types@.len(),
                forall|k: int| 0 <= k < i ==> (#[trigger] self@.transaction_types[k]).len() > 0,
            decreases self.transaction_types@.len() - i,
        {
            if self.transaction_types[i].as_str().unicode_len() == 0 {
                assert(self@.transaction_types[i as int].len() == 0);
                return Err(ValidationError::EmptyTransactionType);
            }
            i += 1;
        }
        Ok(())
    }

    /// Copies the transaction.
    pub fn duplicate(&self) -> (r: Transaction)
        ensures
            r@ == self@,
    {
        Transaction {
            id: self.id,
            date: self.date,
            name: self.name.clone(),
            category: self.category.clone(),
            amount: self.amount,
            transaction_types: copy_texts(&self.transaction_types),
            bank: self.bank.clone(),
        }
    }
}

} // verus!
