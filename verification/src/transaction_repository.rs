//! The open store: the table of transactions, the table that associates
//! them with their type tags, and the lookup sets, with the operations that
//! write, read and page them.
//!
//! A write touches both tables. It either takes effect in both or, where
//! the storage layer refuses an association, is taken back from both, so
//! that no reader ever sees a transaction without its tags.

use vstd::prelude::*;
use crate::date::Date;
use crate::error::{DuplicateError, Error, StorageError, ValidationError};
use crate::link_table::LinkTable;
use crate::listing::{
    holds_id, largest_id, lemma_below_from, lemma_largest_id, lemma_placed_at,
    lemma_placed_back, lemma_without_absent, lemma_without_at, page, placed, well_formed, without,
};
use crate::reference_catalog::{CatalogView, LookupKind, ReferenceCatalog};
use crate::text::texts;
use crate::transaction::{
    key_less, key_precedes, views, Amount, Cursor, Transaction, TransactionView,
};

verus! {

/// One row of the table of transactions.
#[derive(Debug)]
struct Row {
    id: i64,
    date: Date,
    name: String,
    category: String,
    amount: Amount,
    bank: String,
}

/// The transaction that a row and its tags make up.
spec fn joined(row: Row, tags: Seq<Seq<char>>) -> TransactionView {
    TransactionView {
        id: Some(row.id),
        date: row.date,
        name: row.name@,
        category: row.category@,
        amount: row.amount,
        transaction_types: tags,
        bank: row.bank@,
    }
}

/// The mathematical content of a [`Store`].
pub struct StoreState {
    /// The stored transactions in listing order, most recent first.
    pub transactions: Seq<TransactionView>,
    /// The lookup sets.
    pub catalog: CatalogView,
}

impl StoreState {
    /// The transactions are well formed and no lookup set repeats a value.
    pub open spec fn wf(self) -> bool {
        well_formed(self.transactions) && self.catalog.wf()
    }

    /// What inserting `tx` returns: the first failure in the order
    /// identifier, fields, identifier space, associations; else the new
    /// identifier, one above the largest in use.
    pub open spec fn insert_result(self, tx: TransactionView) -> Result<i64, Error> {
        if tx.id is Some {
            Err(Error::Validation(ValidationError::UnexpectedId))
        } else if tx.validation_failure() is Some {
            Err(Error::Validation(tx.validation_failure().unwrap()))
        } else if largest_id(self.transactions) >= i64::MAX {
            Err(Error::Storage(StorageError::IdentifiersExhausted))
        } else if !tx.transaction_types.no_duplicates() {
            Err(Error::Storage(StorageError::DuplicateLink))
        } else {
            Ok((largest_id(self.transactions) + 1) as i64)
        }
    }

    /// The store after the attempt to insert `tx`: with `tx` placed under
    /// its new identifier, or unchanged where the attempt fails.
    pub open spec fn after_insert(self, tx: TransactionView) -> StoreState {
        match self.insert_result(tx) {
            Ok(id) => StoreState {
                transactions: placed(self.transactions, tx.with_id(id)),
                ..self
            },
            Err(_) => self,
        }
    }

    /// The store after the attempt to edit to `tx`: with the transaction of
    /// that identifier taken out and `tx` placed, or unchanged where the
    /// attempt fails.
    pub open spec fn after_edit(self, tx: TransactionView) -> StoreState {
        match self.edit_result(tx) {
            Ok(_) => StoreState {
                transactions: placed(without(self.transactions, tx.id.unwrap()), tx),
                ..self
            },
            Err(_) => self,
        }
    }

    /// The store after the attempt to restore `tx`: with `tx` placed, or
    /// unchanged where the attempt fails.
    pub open spec fn after_restore(self, tx: TransactionView) -> StoreState {
        match self.restore_result(tx) {
            Ok(_) => StoreState { transactions: placed(self.transactions, tx), ..self },
            Err(_) => self,
        }
    }

    /// The store after the attempt to add `value` to the lookup set `kind`:
    /// with the value as the last of its set, or unchanged where the set
    /// holds it already.
    pub open spec fn after_add(self, kind: LookupKind, value: Seq<char>) -> StoreState {
        match self.catalog.add(kind, value) {
            Ok(catalog) => StoreState { catalog, ..self },
            Err(_) => self,
        }
    }

    /// What deleting `id` returns: `NotFound` where no transaction has it.
    pub open spec fn delete_result(self, id: i64) -> Result<(), Error> {
        if holds_id(self.transactions, id) {
            Ok(())
        } else {
            Err(Error::NotFound)
        }
    }

    /// The store after deleting `id`: without the transaction that has it.
    pub open spec fn after_delete(self, id: i64) -> StoreState {
        StoreState { transactions: without(self.transactions, id), ..self }
    }

    /// What editing to `tx` returns: the first failure in the order
    /// identifier, fields, presence, associations.
    pub open spec fn edit_result(self, tx: TransactionView) -> Result<(), Error> {
        if tx.id is None {
            Err(Error::Validation(ValidationError::MissingId))
        } else if tx.validation_failure() is Some {
            Err(Error::Validation(tx.validation_failure().unwrap()))
        } else if !holds_id(self.transactions, tx.id.unwrap()) {
            Err(Error::NotFound)
        } else if !tx.transaction_types.no_duplicates() {
            Err(Error::Storage(StorageError::DuplicateLink))
        } else {
            Ok(())
        }
    }

    /// What restoring the stored transaction `tx` returns: the first
    /// failure in the order identifier, fields, identifier in use,
    /// associations.
    pub open spec fn restore_result(self, tx: TransactionView) -> Result<(), Error> {
        if tx.id is None {
            Err(Error::Validation(ValidationError::MissingId))
        } else if tx.validation_failure() is Some {
            Err(Error::Validation(tx.validation_failure().unwrap()))
        } else if holds_id(self.transactions, tx.id.unwrap()) {
            Err(Error::Storage(StorageError::DuplicateId))
        } else if !tx.transaction_types.no_duplicates() {
            Err(Error::Storage(StorageError::DuplicateLink))
        } else {
            Ok(())
        }
    }
}

/// The content of an open store.
///
/// A `&mut Store` is the exclusive use of the store for one call: no other
/// operation runs on it meanwhile.
#[derive(Debug)]
pub struct Store {
    catalog: ReferenceCatalog,
    rows: Vec<Row>,
    links: LinkTable,
}

impl View for Store {
    type V = StoreState;

    closed spec fn view(&self) -> StoreState {
        StoreState { transactions: self.transactions(), catalog: self.catalog@ }
    }
}

impl Store {
    /// The rows, each joined with its tags.
    spec fn transactions(&self) -> Seq<TransactionView> {
        Seq::new(
            self.rows@.len(),
            |i: int| joined(self.rows@[i], self.links.tags(self.rows@[i].id)),
        )
    }

    /// The two tables agree: the association table honours its key, and
    /// only stored transactions have associations.
    pub closed spec fn consistent(&self) -> bool {
        &&& self.links.wf()
        &&& forall|id: i64|
            !holds_id(self.transactions(), id) ==> #[trigger] self.links.tags(id) == Seq::<
                Seq<char>,
            >::empty()
    }

    /// The store is in a state that its operations keep: the tables agree
    /// and the content is well formed.
    pub open spec fn wf(&self) -> bool {
        self.consistent() && self@.wf()
    }

    /// A store with the empty schema: no transaction, no lookup value.
    pub fn new() -> (s: Store)
        ensures
            s.wf(),
            s@.transactions == Seq::<TransactionView>::empty(),
            s@.catalog.categories == Seq::<Seq<char>>::empty(),
            s@.catalog.banks == Seq::<Seq<char>>::empty(),
            s@.catalog.transaction_types == Seq::<Seq<char>>::empty(),
    {
        let s = Store { catalog: ReferenceCatalog::new(), rows: Vec::new(), links: LinkTable::new() };
        proof {
            assert(s.transactions() =~= Seq::<TransactionView>::empty());
        }
        s
    }

    /// The index of the row with the identifier `id`.
    fn find(&self, id: i64) -> (r: Option<usize>)
        ensures
            r matches Some(i) ==> i < self.rows@.len() && self.rows@[i as int].id == id,
            r is Some <==> holds_id(self.transactions(), id),
    {
        let mut i: usize = 0;
        while i < self.rows.len()
            invariant
                i <= self.rows@.len(),
                forall|k: int| 0 <= k < i ==> (#[trigger] self.rows@[k]).id != id,
            decreases self.rows@.len() - i,
        {
            if self.rows[i].id == id {
                assert(self.transactions()[i as int].id == Some(id));
                return Some(i);
            }
            i += 1;
        }
        proof {
            assert forall|k: int| 0 <= k < self.transactions().len() implies (
            #[trigger] self.transactions()[k]).id != Some(id) by {
                assert(self.rows@[k].id != id);
            }
        }
        None
    }

    /// The transaction at index `i` of the listing.
    fn read(&self, i: usize) -> (t: Transaction)
        requires
            i < self.rows@.len(),
        ensures
            t@ == self.transactions()[i as int],
    {
        let row = &self.rows[i];
        Transaction {
            id: Some(row.id),
            date: row.date,
            name: row.name.clone(),
            category: row.category.clone(),
            amount: row.amount,
            transaction_types: self.links.tags_for(row.id),
            bank: row.bank.clone(),
        }
    }

    /// The largest identifier in use, and 0 where none is positive.
    fn largest(&self) -> (m: i64)
        ensures
            m == largest_id(self.transactions()),
    {
        let mut m: i64 = 0;
        let mut i: usize = 0;
        proof {
            assert(self.transactions().take(0) =~= Seq::<TransactionView>::empty());
        }
        while i < self.rows.len()
            invariant
                i <= self.rows@.len(),
                m == largest_id(self.transactions().take(i as int)),
            decreases self.rows@.len() - i,
        {
            proof {
                let next = self.transactions().take(i + 1);
                assert(next.drop_last() =~= self.transactions().take(i as int));
                assert(next.last() == self.transactions()[i as int]);
            }
            if self.rows[i].id > m {
                m = self.rows[i].id;
            }
            i += 1;
        }
        proof {
            assert(self.transactions().take(i as int) =~= self.transactions());
        }
        m
    }

    /// Writes `tx` under the identifier `id`: first its row, then one
    /// association per tag. Where an association is refused, those already
    /// written and the row are taken back.
    fn write(&mut self, id: i64, tx: &Transaction) -> (r: Result<(), StorageError>)
        requires
            old(self).wf(),
            !holds_id(old(self).transactions(), id),
            tx@.validation_failure() is None,
        ensures
            final(self).wf(),
            final(self)@.catalog == old(self)@.catalog,
            tx@.transaction_types.no_duplicates() ==> r is Ok && final(self).transactions()
                == placed(old(self).transactions(), tx@.with_id(id)),
            !tx@.transaction_types.no_duplicates() ==> r == Err::<(), StorageError>(
                StorageError::DuplicateLink,
            ) && final(self).transactions() == old(self).transactions(),
    {
        let ghost old_txs = self.transactions();
        let ghost t = tx@.with_id(id);
        let mut pos: usize = 0;
        while pos < self.rows.len() && key_precedes(
            &tx.date,
            id,
            &self.rows[pos].date,
            self.rows[pos].id,
        )
            invariant
                pos <= self.rows@.len(),
                *self == *old(self),
                forall|k: int|
                    0 <= k < pos ==> key_less(
                        tx.date,
                        id,
                        (#[trigger] self.rows@[k]).date,
                        self.rows@[k].id,
                    ),
            decreases self.rows@.len() - pos,
        {
            pos += 1;
        }
        let row = Row {
            id,
            date: tx.date,
            name: tx.name.clone(),
            category: tx.category.clone(),
            amount: tx.amount,
            bank: tx.bank.clone(),
        };
        let ghost new_row = row;
        proof {
            assert forall|k: int| 0 <= k < old_txs.len() implies self.rows@[k].id != id by {
                assert(old_txs[k].id != Some(id));
            }
            assert(self.links.tags(id) == Seq::<Seq<char>>::empty());
            assert(tx@.transaction_types.take(0) =~= Seq::<Seq<char>>::empty());
        }
        self.rows.insert(pos, row);
        let mut i: usize = 0;
        while i < tx.transaction_types.len()
            invariant
                i <= tx.transaction_types@.len(),
                pos <= old(self).rows@.len(),
                self.rows@ == old(self).rows@.insert(pos as int, new_row),
                self.catalog == old(self).catalog,
                old(self).wf(),
                old_txs == old(self).transactions(),
                self.links.wf(),
                forall|j: i64| j != id ==> #[trigger] self.links.tags(j) == old(self).links.tags(j),
                old(self).links.tags(id) == Seq::<Seq<char>>::empty(),
                self.links.tags(id) == tx@.transaction_types.take(i as int),
            decreases tx.transaction_types@.len() - i,
        {
            let ghost tag = tx.transaction_types@[i as int]@;
            assert(tag == tx@.transaction_types[i as int]);
            match self.links.insert(id, tx.transaction_types[i].clone()) {
                Ok(_) => {},
                Err(_) => {
                    proof {
                        let seen = tx@.transaction_types.take(i as int);
                        assert(seen.contains(tag));
                        let n = choose|n: int| 0 <= n < seen.len() && seen[n] == tag;
                        assert(tx@.transaction_types[n] == tx@.transaction_types[i as int]);
                    }
                    self.links.remove_all(id);
                    self.rows.remove(pos);
                    proof {
                        assert(self.rows@ =~= old(self).rows@);
                        assert forall|j: i64| #[trigger]
                            self.links.tags(j) == old(self).links.tags(j) by {}
                        assert(self.transactions() =~= old_txs);
                    }
                    return Err(StorageError::DuplicateLink);
                },
            }
            proof {
                assert(tx@.transaction_types.take(i as int).push(tag)
                    =~= tx@.transaction_types.take(i + 1));
            }
            i += 1;
        }
        proof {
            assert(tx@.transaction_types.take(i as int) =~= tx@.transaction_types);
            self.links.lemma_wf_tags(id);
            assert(t.storable());
            assert forall|k: int| 0 <= k < pos implies t.listed_after(#[trigger] old_txs[k]) by {
                assert(old(self).rows@[k].id == old_txs[k].id.unwrap());
            }
            lemma_placed_at(old_txs, t, pos as int);
            let new_txs = old_txs.insert(pos as int, t);
            assert forall|k: int| 0 <= k < old_txs.len() implies old(self).rows@[k].id != id by {
                assert(old_txs[k].id != Some(id));
            }
            assert(self.transactions() =~= new_txs);
            assert forall|j: i64| !holds_id(self.transactions(), j) implies #[trigger]
                self.links.tags(j) == Seq::<Seq<char>>::empty() by {
                assert(new_txs[pos as int].id == Some(id));
                if holds_id(old_txs, j) {
                    let k = choose|k: int| 0 <= k < old_txs.len() && (#[trigger] old_txs[k]).id
                        == Some(j);
                    let m = if k < pos { k } else { k + 1 };
                    assert(new_txs[m].id == Some(j));
                }
            }
        }
        Ok(())
    }

    /// Removes the row at index `i` and all of its associations.
    fn erase(&mut self, i: usize)
        requires
            old(self).wf(),
            i < old(self).rows@.len(),
        ensures
            final(self).wf(),
            final(self)@.catalog == old(self)@.catalog,
            final(self).transactions() == old(self).transactions().remove(i as int),
    {
        let ghost old_txs = self.transactions();
        let id = self.rows[i].id;
        self.rows.remove(i);
        self.links.remove_all(id);
        proof {
            lemma_without_at(old_txs, i as int);
            let new_txs = old_txs.remove(i as int);
            assert forall|k: int| 0 <= k < old_txs.len() && k != i implies old(self).rows@[k].id
                != id by {
                assert(old_txs[k].id != old_txs[i as int].id);
            }
            assert(self.transactions() =~= new_txs);
            assert forall|j: i64| !holds_id(self.transactions(), j) implies #[trigger]
                self.links.tags(j) == Seq::<Seq<char>>::empty() by {
                if j != id && holds_id(old_txs, j) {
                    let k = choose|k: int| 0 <= k < old_txs.len() && (#[trigger] old_txs[k]).id
                        == Some(j);
                    let m = if k < i { k } else { k - 1 };
                    assert(new_txs[m].id == Some(j));
                }
            }
        }
    }

    /// Stores a new transaction and returns the identifier it was given.
    ///
    /// The identifier is one above the largest in use. The row and its
    /// associations are written as one: where the call fails, the store is
    /// as it was before.
    pub fn insert(&mut self, tx: Transaction) -> (r: Result<i64, Error>)
        requires
            old(self).wf(),
        ensures
            final(self).wf(),
            r == old(self)@.insert_result(tx@),
            final(self)@ == old(self)@.after_insert(tx@),
            r is Err ==> final(self)@ == old(self)@,
    {
        if tx.id.is_some() {
            return Err(Error::Validation(ValidationError::UnexpectedId));
        }
        match tx.validate() {
            Err(e) => {
                return Err(Error::Validation(e));
            },
            Ok(_) => {},
        }
        let m = self.largest();
        if m == i64::MAX {
            return Err(Error::Storage(StorageError::IdentifiersExhausted));
        }
        let id = m + 1;
        proof {
            lemma_largest_id(self.transactions());
        }
        match self.write(id, &tx) {
            Ok(_) => Ok(id),
            Err(e) => Err(Error::Storage(e)),
        }
    }

    /// Puts back a transaction that was stored before, under the identifier
    /// it carries.
    ///
    /// This is how the content of the file is brought into a fresh store.
    /// Where the call fails, the store is as it was before.
    pub fn restore(&mut self, tx: Transaction) -> (r: Result<(), Error>)
        requires
            old(self).wf(),
        ensures
            final(self).wf(),
            r == old(self)@.restore_result(tx@),
            final(self)@ == old(self)@.after_restore(tx@),
            r is Err ==> final(self)@ == old(self)@,
    {
        let id = match tx.id {
            None => {
                return Err(Error::Validation(ValidationError::MissingId));
            },
            Some(id) => id,
        };
        match tx.validate() {
            Err(e) => {
                return Err(Error::Validation(e));
            },
            Ok(_) => {},
        }
        if self.find(id).is_some() {
            return Err(Error::Storage(StorageError::DuplicateId));
        }
        assert(tx@.with_id(id) == tx@);
        match self.write(id, &tx) {
            Ok(_) => Ok(()),
            Err(e) => Err(Error::Storage(e)),
        }
    }

    /// Replaces the stored transaction that has the identifier of `tx`.
    ///
    /// Every field is replaced, and the associated tags become exactly
    /// those of `tx`. Where the call fails, the store is as it was before.
    pub fn edit(&mut self, tx: Transaction) -> (r: Result<(), Error>)
        requires
            old(self).wf(),
        ensures
            final(self).wf(),
            r == old(self)@.edit_result(tx@),
            final(self)@ == old(self)@.after_edit(tx@),
            r is Err ==> final(self)@ == old(self)@,
    {
        let id = match tx.id {
            None => {
                return Err(Error::Validation(ValidationError::MissingId));
            },
            Some(id) => id,
        };
        match tx.validate() {
            Err(e) => {
                return Err(Error::Validation(e));
            },
            Ok(_) => {},
        }
        let i = match self.find(id) {
            None => {
                return Err(Error::NotFound);
            },
            Some(i) => i,
        };
        let ghost old_txs = self.transactions();
        let previous = self.read(i);
        self.erase(i);
        proof {
            lemma_without_at(old_txs, i as int);
            assert(tx@.with_id(id) == tx@);
            assert(previous@.with_id(id) == previous@);
        }
        match self.write(id, &tx) {
            Ok(_) => Ok(()),
            Err(e) => {
                proof {
                    lemma_placed_back(old_txs, i as int);
                }
                let back = self.write(id, &previous);
                assert(back is Ok);
                Err(Error::Storage(e))
            },
        }
    }

    /// Removes the stored transaction with the identifier `id`, and its
    /// associations with it.
    pub fn delete(&mut self, id: i64) -> (r: Result<(), Error>)
        requires
            old(self).wf(),
        ensures
            final(self).wf(),
            r == old(self)@.delete_result(id),
            final(self)@ == old(self)@.after_delete(id),
            r is Err ==> final(self)@ == old(self)@,
    {
        match self.find(id) {
            None => {
                proof {
                    lemma_without_absent(self.transactions(), id);
                }
                Err(Error::NotFound)
            },
            Some(i) => {
                proof {
                    lemma_without_at(self.transactions(), i as int);
                }
                self.erase(i);
                Ok(())
            },
        }
    }

    /// The stored transaction with the identifier `id`.
    pub fn get(&self, id: i64) -> (r: Option<Transaction>)
        requires
            self.wf(),
        ensures
            r is Some <==> holds_id(self@.transactions, id),
            r matches Some(t) ==> t@.id == Some(id) && self@.transactions.contains(t@),
    {
        match self.find(id) {
            None => None,
            Some(i) => {
                let t = self.read(i);
                assert(self.transactions()[i as int] == t@);
                Some(t)
            },
        }
    }

    /// The number of stored transactions.
    pub fn len(&self) -> (n: usize)
        ensures
            n == self@.transactions.len(),
    {
        self.rows.len()
    }

    /// One page of the listing: the first `records_per_page` transactions
    /// behind `cursor`, most recent first.
    ///
    /// Pages follow one another by handing in the key of the last
    /// transaction of the page before. A store that is written to between
    /// two calls may show a transaction twice or not at all.
    pub fn list_page(&self, records_per_page: u32, cursor: Cursor) -> (r: Vec<Transaction>)
        requires
            self.wf(),
        ensures
            views(r@) == page(self@.transactions, records_per_page as nat, cursor),
    {
        let ghost txs = self.transactions();
        let mut start: usize = 0;
        while start < self.rows.len() && !cursor.lets_through(
            &self.rows[start].date,
            self.rows[start].id,
        )
            invariant
                start <= self.rows@.len(),
                forall|k: int|
                    0 <= k < start ==> !cursor.admits(
                        (#[trigger] self.rows@[k]).date,
                        self.rows@[k].id,
                    ),
            decreases self.rows@.len() - start,
        {
            start += 1;
        }
        proof {
            assert forall|k: int| 0 <= k < start implies !cursor.admits(
                (#[trigger] txs[k]).date,
                txs[k].id.unwrap(),
            ) by {
                assert(self.rows@[k].id == txs[k].id.unwrap());
            }
            lemma_below_from(txs, cursor, start as int);
        }
        let mut out: Vec<Transaction> = Vec::new();
        let mut k: usize = start;
        proof {
            assert(views(out@) =~= txs.subrange(start as int, k as int));
        }
        while k < self.rows.len() && out.len() < records_per_page as usize
            invariant
                start <= k <= self.rows@.len(),
                txs == self.transactions(),
                out@.len() == k - start,
                out@.len() <= records_per_page,
                views(out@) == txs.subrange(start as int, k as int),
            decreases self.rows@.len() - k,
        {
            let t = self.read(k);
            let ghost before = out@;
            out.push(t);
            proof {
                assert(views(out@) =~= views(before).push(t@));
                assert(txs.subrange(start as int, k as int).push(txs[k as int]) =~= txs.subrange(
                    start as int,
                    k + 1,
                ));
            }
            k += 1;
        }
        proof {
            let rest = txs.skip(start as int);
            if (records_per_page as nat) < rest.len() {
                assert(txs.subrange(start as int, k as int) =~= rest.take(records_per_page as int));
            } else {
                assert(txs.subrange(start as int, k as int) =~= rest);
            }
        }
        out
    }

    /// The whole listing, most recent first.
    pub fn list_all(&self) -> (r: Vec<Transaction>)
        requires
            self.wf(),
        ensures
            views(r@) == self@.transactions,
    {
        let mut out: Vec<Transaction> = Vec::new();
        let mut k: usize = 0;
        proof {
            assert(views(out@) =~= self.transactions().take(0));
        }
        while k < self.rows.len()
            invariant
                k <= self.rows@.len(),
                views(out@) == self.transactions().take(k as int),
            decreases self.rows@.len() - k,
        {
            let t = self.read(k);
            let ghost before = out@;
            out.push(t);
            proof {
                assert(views(out@) =~= views(before).push(t@));
                assert(self.transactions().take(k as int).push(self.transactions()[k as int])
                    =~= self.transactions().take(k + 1));
            }
            k += 1;
        }
        proof {
            assert(self.transactions().take(k as int) =~= self.transactions());
        }
        out
    }

    /// Adds `value` to the lookup set `kind`; see [`ReferenceCatalog::add`].
    pub fn add(&mut self, kind: LookupKind, value: &str) -> (r: Result<(), DuplicateError>)
        requires
            old(self).wf(),
        ensures
            final(self).wf(),
            final(self)@.transactions == old(self)@.transactions,
            r is Err <==> old(self)@.catalog.values(kind).contains(value@),
            r is Err ==> final(self)@ == old(self)@,
            r is Ok ==> final(self)@.catalog == old(self)@.catalog.with_added(kind, value@),
            final(self)@ == old(self)@.after_add(kind, value@),
    {
        let r = self.catalog.add(kind, value);
        proof {
            assert(self.transactions() =~= old(self).transactions());
        }
        r
    }

    /// All values of the lookup set `kind`, oldest first; see
    /// [`ReferenceCatalog::list`].
    pub fn values_for(&self, kind: LookupKind) -> (r: Vec<String>)
        ensures
            texts(r@) == self@.catalog.values(kind),
    {
        self.catalog.list(kind)
    }
}

} // verus!
