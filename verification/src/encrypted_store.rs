//! Opening the store and holding the open store for the process.
//!
//! The file is read and decrypted by the surrounding program, which reports
//! what it found as a [`StoreFile`]. What follows from that is decided
//! here: whether a store comes of it, which one, and what becomes of the
//! store that the process held before.

use vstd::prelude::*;
use crate::error::InitializationError;
use crate::listing::{holds_id, lemma_placed_at, well_formed};
use crate::reference_catalog::{CatalogView, LookupKind};
use crate::text::texts;
use crate::transaction::{views, Transaction, TransactionView};
use crate::transaction_repository::{Store, StoreState};

verus! {

/// The content of a store as it is written to the file and read from it.
#[derive(Clone, Debug, PartialEq, Eq)]
pub struct Snapshot {
    pub transactions: Vec<Transaction>,
    pub categories: Vec<String>,
    pub banks: Vec<String>,
    pub transaction_types: Vec<String>,
}

/// The mathematical content of a [`Snapshot`].
pub struct SnapshotView {
    pub transactions: Seq<TransactionView>,
    pub categories: Seq<Seq<char>>,
    pub banks: Seq<Seq<char>>,
    pub transaction_types: Seq<Seq<char>>,
}

impl View for Snapshot {
    type V = SnapshotView;

    open spec fn view(&self) -> SnapshotView {
        SnapshotView {
            transactions: views(self.transactions@),
            categories: texts(self.categories@),
            banks: texts(self.banks@),
            transaction_types: texts(self.transaction_types@),
        }
    }
}

/// What the surrounding program found when it tried the passphrase on the
/// file at the store's path.
#[derive(Debug)]
pub enum StoreFile {
    /// There is no file: a store is to be created under the passphrase.
    Absent,
    /// The filesystem denied access to the file or its directory.
    Denied,
    /// The file exists and the passphrase does not decrypt it.
    Undecipherable,
    /// The passphrase decrypted the file, and this is its content.
    Decrypted(Snapshot),
}

/// The mathematical content of a [`StoreFile`].
pub enum StoreFileView {
    Absent,
    Denied,
    Undecipherable,
    Decrypted(SnapshotView),
}

impl View for StoreFile {
    type V = StoreFileView;

    open spec fn view(&self) -> StoreFileView {
        match self {
            StoreFile::Absent => StoreFileView::Absent,
            StoreFile::Denied => StoreFileView::Denied,
            StoreFile::Undecipherable => StoreFileView::Undecipherable,
            StoreFile::Decrypted(s) => StoreFileView::Decrypted(s@),
        }
    }
}

/// The store with the empty schema.
pub open spec fn empty_store() -> StoreState {
    StoreState {
        transactions: Seq::<TransactionView>::empty(),
        catalog: CatalogView {
            categories: Seq::<Seq<char>>::empty(),
            banks: Seq::<Seq<char>>::empty(),
            transaction_types: Seq::<Seq<char>>::empty(),
        },
    }
}

impl StoreState {
    /// The store after adding `values` to the lookup set `kind` one by
    /// one, or `None` where one of them is refused.
    pub open spec fn with_values(self, kind: LookupKind, values: Seq<Seq<char>>) -> Option<
        StoreState,
    >
        decreases values.len(),
    {
        if values.len() == 0 {
            Some(self)
        } else {
            match self.with_values(kind, values.drop_last()) {
                None => None,
                Some(before) => if before.catalog.add(kind, values.last()) is Ok {
                    Some(before.after_add(kind, values.last()))
                } else {
                    None
                },
            }
        }
    }

    /// The store after restoring `txs` one by one, or `None` where one of
    /// them is refused.
    pub open spec fn with_restored(self, txs: Seq<TransactionView>) -> Option<StoreState>
        decreases txs.len(),
    {
        if txs.len() == 0 {
            Some(self)
        } else {
            match self.with_restored(txs.drop_last()) {
                None => None,
                Some(before) => if before.restore_result(txs.last()) is Ok {
                    Some(before.after_restore(txs.last()))
                } else {
                    None
                },
            }
        }
    }

    /// What is written to the file of this store.
    pub open spec fn snapshot(self) -> SnapshotView {
        SnapshotView {
            transactions: self.transactions,
            categories: self.catalog.categories,
            banks: self.catalog.banks,
            transaction_types: self.catalog.transaction_types,
        }
    }
}

/// The store that a snapshot gives: the empty schema, filled with the
/// lookup values and then the transactions. `None` where the snapshot
/// breaks a rule of the schema: a lookup value or an identifier that
/// occurs twice, or a transaction that could not have been stored.
pub open spec fn loaded(snapshot: SnapshotView) -> Option<StoreState> {
    match empty_store().with_values(LookupKind::Category, snapshot.categories) {
        None => None,
        Some(a) => match a.with_values(LookupKind::Bank, snapshot.banks) {
            None => None,
            Some(b) => match b.with_values(
                LookupKind::TransactionType,
                snapshot.transaction_types,
            ) {
                None => None,
                Some(c) => c.with_restored(snapshot.transactions),
            },
        },
    }
}

/// What opening comes to: a new empty store where there is no file, the
/// store that the content gives where the file was decrypted, and an error
/// otherwise.
pub open spec fn opening(file: StoreFileView) -> Result<StoreState, InitializationError> {
    match file {
        StoreFileView::Absent => Ok(empty_store()),
        StoreFileView::Denied => Err(InitializationError::AccessDenied),
        StoreFileView::Undecipherable => Err(InitializationError::WrongPassphrase),
        StoreFileView::Decrypted(snapshot) => match loaded(snapshot) {
            Some(store) => Ok(store),
            None => Err(InitializationError::Corrupt),
        },
    }
}

/// What the process holds after an attempt to open: the store that came of
/// it, or what it held before where none came of it.
pub open spec fn held_after(held: Option<StoreState>, file: StoreFileView) -> Option<
    StoreState,
> {
    match opening(file) {
        Ok(store) => Some(store),
        Err(_) => held,
    }
}

/// Where a beginning of the values is refused, all of them are.
pub proof fn lemma_with_values_prefix(s: StoreState, kind: LookupKind, values: Seq<Seq<char>>, k: int)
    requires
        0 <= k <= values.len(),
        s.with_values(kind, values.take(k)) is None,
    ensures
        s.with_values(kind, values) is None,
    decreases values.len(),
{
    if k == values.len() {
        assert(values.take(k) =~= values);
    } else {
        assert(values.drop_last().take(k) =~= values.take(k));
        lemma_with_values_prefix(s, kind, values.drop_last(), k);
    }
}

/// Where a beginning of the transactions is refused, all of them are.
pub proof fn lemma_with_restored_prefix(s: StoreState, txs: Seq<TransactionView>, k: int)
    requires
        0 <= k <= txs.len(),
        s.with_restored(txs.take(k)) is None,
    ensures
        s.with_restored(txs) is None,
    decreases txs.len(),
{
    if k == txs.len() {
        assert(txs.take(k) =~= txs);
    } else {
        assert(txs.drop_last().take(k) =~= txs.take(k));
        lemma_with_restored_prefix(s, txs.drop_last(), k);
    }
}

/// Adds the values to one lookup set of the store; stops and tells `false`
/// at the first that is refused.
fn load_values(store: &mut Store, kind: LookupKind, values: &Vec<String>) -> (ok: bool)
    requires
        old(store).wf(),
    ensures
        final(store).wf(),
        ok == (old(store)@.with_values(kind, texts(values@)) is Some),
        ok ==> Some(final(store)@) == old(store)@.with_values(kind, texts(values@)),
{
    let ghost all = texts(values@);
    let mut i: usize = 0;
    proof {
        assert(all.take(0) =~= Seq::<Seq<char>>::empty());
    }
    while i < values.len()
        invariant
            i <= values@.len(),
            all == texts(values@),
            store.wf(),
            old(store)@.with_values(kind, all.take(i as int)) == Some(store@),
        decreases values@.len() - i,
    {
        proof {
            assert(all.take(i + 1).drop_last() =~= all.take(i as int));
            assert(all.take(i + 1).last() == values@[i as int]@);
        }
        match store.add(kind, values[i].as_str()) {
            Ok(_) => {},
            Err(_) => {
                proof {
                    lemma_with_values_prefix(old(store)@, kind, all, i + 1);
                }
                return false;
            },
        }
        i += 1;
    }
    proof {
        assert(all.take(i as int) =~= all);
    }
    true
}

/// Restores the transactions into the store; stops and tells `false` at the
/// first that is refused.
fn load_transactions(store: &mut Store, txs: &Vec<Transaction>) -> (ok: bool)
    requires
        old(store).wf(),
    ensures
        final(store).wf(),
        ok == (old(store)@.with_restored(views(txs@)) is Some),
        ok ==> Some(final(store)@) == old(store)@.with_restored(views(txs@)),
{
    let ghost all = views(txs@);
    let mut i: usize = 0;
    proof {
        assert(all.take(0) =~= Seq::<TransactionView>::empty());
    }
    while i < txs.len()
        invariant
            i <= txs@.len(),
            all == views(txs@),
            store.wf(),
            old(store)@.with_restored(all.take(i as int)) == Some(store@),
        decreases txs@.len() - i,
    {
        proof {
            assert(all.take(i + 1).drop_last() =~= all.take(i as int));
            assert(all.take(i + 1).last() == txs@[i as int]@);
        }
        match store.restore(txs[i].duplicate()) {
            Ok(_) => {},
            Err(_) => {
                proof {
                    lemma_with_restored_prefix(old(store)@, all, i + 1);
                }
                return false;
            },
        }
        i += 1;
    }
    proof {
        assert(all.take(i as int) =~= all);
    }
    true
}

impl Store {
    /// Builds the store that a snapshot gives, or tells that the snapshot
    /// breaks a rule of the schema.
    pub fn load(snapshot: &Snapshot) -> (r: Result<Store, InitializationError>)
        ensures
            match loaded(snapshot@) {
                Some(content) => r is Ok && r.unwrap()@ == content && r.unwrap().wf(),
                None => r matches Err(e) && e == InitializationError::Corrupt,
            },
    {
        let mut store = Store::new();
        assert(store@ == empty_store());
        if !load_values(&mut store, LookupKind::Category, &snapshot.categories) {
            return Err(InitializationError::Corrupt);
        }
        if !load_values(&mut store, LookupKind::Bank, &snapshot.banks) {
            return Err(InitializationError::Corrupt);
        }
        if !load_values(&mut store, LookupKind::TransactionType, &snapshot.transaction_types) {
            return Err(InitializationError::Corrupt);
        }
        if !load_transactions(&mut store, &snapshot.transactions) {
            return Err(InitializationError::Corrupt);
        }
        Ok(store)
    }

    /// The content of the store as it is written to the file.
    pub fn snapshot(&self) -> (r: Snapshot)
        requires
            self.wf(),
        ensures
            r@ == self@.snapshot(),
    {
        Snapshot {
            transactions: self.list_all(),
            categories: self.values_for(LookupKind::Category),
            banks: self.values_for(LookupKind::Bank),
            transaction_types: self.values_for(LookupKind::TransactionType),
        }
    }
}

/// Decides what the attempt to open the file comes to.
///
/// Where there is no file, the store is created with the empty schema.
/// Where the passphrase decrypted the file, the store is built from its
/// content. In every other case no store comes of it.
pub fn open_or_create(file: StoreFile) -> (r: Result<Store, InitializationError>)
    ensures
        match opening(file@) {
            Ok(content) => r is Ok && r.unwrap()@ == content && r.unwrap().wf(),
            Err(e) => r matches Err(f) && f == e,
        },
{
    match file {
        StoreFile::Absent => Ok(Store::new()),
        StoreFile::Denied => Err(InitializationError::AccessDenied),
        StoreFile::Undecipherable => Err(InitializationError::WrongPassphrase),
        StoreFile::Decrypted(snapshot) => Store::load(&snapshot),
    }
}

/// The store that the process holds: none until a passphrase has opened
/// one, then always the one that was opened last.
#[derive(Debug)]
pub struct StoreHandle {
    current: Option<Store>,
}

impl View for StoreHandle {
    type V = Option<StoreState>;

    closed spec fn view(&self) -> Option<StoreState> {
        match self.current {
            Some(store) => Some(store@),
            None => None,
        }
    }
}

impl StoreHandle {
    /// The store that is held, if any, is in a state that its operations
    /// keep.
    pub closed spec fn wf(&self) -> bool {
        self.current matches Some(store) ==> store.wf()
    }

    /// Whether a store is held.
    pub open spec fn ready(&self) -> bool {
        self@ is Some
    }

    /// A handle that holds no store.
    pub fn new() -> (h: StoreHandle)
        ensures
            h.wf(),
            h@ is None,
    {
        StoreHandle { current: None }
    }

    /// Tells whether a store is held.
    pub fn is_ready(&self) -> (b: bool)
        ensures
            b == self.ready(),
    {
        self.current.is_some()
    }

    /// Takes in what an attempt to open came to: a store replaces the one
    /// held before, which is dropped as it is; an error leaves the handle
    /// as it was.
    pub fn install(&mut self, opened: Result<Store, InitializationError>) -> (r: Result<
        (),
        InitializationError,
    >)
        requires
            old(self).wf(),
            opened matches Ok(store) ==> store.wf(),
        ensures
            final(self).wf(),
            match opened {
                Ok(store) => r is Ok && final(self)@ == Some(store@),
                Err(e) => r == Err::<(), InitializationError>(e) && final(self)@ == old(self)@
                    && final(self).ready() == old(self).ready(),
            },
    {
        match opened {
            Ok(store) => {
                self.current = Some(store);
                Ok(())
            },
            Err(e) => Err(e),
        }
    }

    /// Opens the store from what was found at its path and holds it from
    /// now on. Where no store comes of the attempt, the handle is as it was:
    /// still without a store, or still with the one it held.
    pub fn open(&mut self, file: StoreFile) -> (r: Result<(), InitializationError>)
        requires
            old(self).wf(),
        ensures
            final(self).wf(),
            final(self)@ == held_after(old(self)@, file@),
            match opening(file@) {
                Ok(content) => r is Ok && final(self)@ == Some(content),
                Err(e) => r == Err::<(), InitializationError>(e) && final(self)@ == old(self)@
                    && final(self).ready() == old(self).ready(),
            },
    {
        self.install(open_or_create(file))
    }

    /// The store that is held, for reading.
    pub fn store(&self) -> (r: Option<&Store>)
        requires
            self.wf(),
        ensures
            r is Some == self.ready(),
            r matches Some(store) ==> store.wf() && self@ == Some(store@),
    {
        self.current.as_ref()
    }

    /// The store that is held, for one operation that may write to it.
    pub fn store_mut(&mut self) -> (r: Option<&mut Store>)
        requires
            old(self).wf(),
        ensures
            r is Some == old(self).ready(),
            r is None ==> final(self)@ == old(self)@ && final(self).wf(),
            r matches Some(store) ==> {
                &&& store.wf()
                &&& old(self)@ == Some(store@)
                &&& final(self)@ == Some(final(store)@)
                &&& final(store).wf() ==> final(self).wf()
            },
    {
        self.current.as_mut()
    }
}

/// The states of the handle.
///
/// A failed attempt to open changes nothing: a handle without a store stays
/// without one, and a handle with a store keeps that store. A successful
/// attempt leaves the handle with the store that was opened, whatever it
/// held. So a handle that holds a store never comes to hold none, and a
/// wrong passphrase or a denied access never installs one.
pub proof fn lemma_handle_states(held: Option<StoreState>, file: StoreFileView)
    ensures
        opening(file) is Err ==> held_after(held, file) == held,
        opening(file) matches Ok(store) ==> held_after(held, file) == Some(store),
        held is Some ==> held_after(held, file) is Some,
        file is Undecipherable ==> opening(file) == Err::<StoreState, InitializationError>(
            InitializationError::WrongPassphrase,
        ) && held_after(held, file) == held,
        file is Denied ==> opening(file) == Err::<StoreState, InitializationError>(
            InitializationError::AccessDenied,
        ) && held_after(held, file) == held,
        file is Absent ==> held_after(held, file) == Some(empty_store()),
{
}

/// Writing a well-formed store to the file and reading it back gives the
/// same store.
pub proof fn lemma_snapshot_round_trip(s: StoreState)
    requires
        s.wf(),
    ensures
        loaded(s.snapshot()) == Some(s),
        opening(StoreFileView::Decrypted(s.snapshot())) == Ok::<StoreState, InitializationError>(s),
{
    let e = empty_store();
    let a = StoreState {
        catalog: CatalogView { categories: s.catalog.categories, ..e.catalog },
        ..e
    };
    let b = StoreState { catalog: CatalogView { banks: s.catalog.banks, ..a.catalog }, ..a };
    let c = StoreState {
        catalog: CatalogView { transaction_types: s.catalog.transaction_types, ..b.catalog },
        ..b
    };
    lemma_values_load(e, LookupKind::Category, s.catalog.categories, s.catalog.categories.len() as int);
    assert(s.catalog.categories.take(s.catalog.categories.len() as int) =~= s.catalog.categories);
    assert(e.catalog.categories + s.catalog.categories =~= s.catalog.categories);
    assert(e.with_values(LookupKind::Category, s.catalog.categories) == Some(a));
    lemma_values_load(a, LookupKind::Bank, s.catalog.banks, s.catalog.banks.len() as int);
    assert(s.catalog.banks.take(s.catalog.banks.len() as int) =~= s.catalog.banks);
    assert(a.catalog.banks + s.catalog.banks =~= s.catalog.banks);
    assert(a.with_values(LookupKind::Bank, s.catalog.banks) == Some(b));
    lemma_values_load(
        b,
        LookupKind::TransactionType,
        s.catalog.transaction_types,
        s.catalog.transaction_types.len() as int,
    );
    assert(s.catalog.transaction_types.take(s.catalog.transaction_types.len() as int)
        =~= s.catalog.transaction_types);
    assert(b.catalog.transaction_types + s.catalog.transaction_types
        =~= s.catalog.transaction_types);
    assert(b.with_values(LookupKind::TransactionType, s.catalog.transaction_types) == Some(c));
    assert(c.catalog == s.catalog);
    lemma_transactions_load(c, s.transactions, s.transactions.len() as int);
    assert(s.transactions.take(s.transactions.len() as int) =~= s.transactions);
}

/// The catalog with the texts `values` put behind one of its sets.
pub open spec fn with_appended(c: CatalogView, kind: LookupKind, values: Seq<Seq<char>>) -> CatalogView {
    match kind {
        LookupKind::Category => CatalogView { categories: c.categories + values, ..c },
        LookupKind::Bank => CatalogView { banks: c.banks + values, ..c },
        LookupKind::TransactionType => CatalogView {
            transaction_types: c.transaction_types + values,
            ..c
        },
    }
}

/// Values that repeat neither one another nor a value of the set are all
/// taken, in their order.
pub proof fn lemma_values_load(s: StoreState, kind: LookupKind, values: Seq<Seq<char>>, k: int)
    requires
        0 <= k <= values.len(),
        (s.catalog.values(kind) + values).no_duplicates(),
    ensures
        s.with_values(kind, values.take(k)) == Some(
            StoreState { catalog: with_appended(s.catalog, kind, values.take(k)), ..s },
        ),
    decreases k,
{
    let have = s.catalog.values(kind);
    if k == 0 {
        assert(values.take(0) =~= Seq::<Seq<char>>::empty());
        assert(have + values.take(0) =~= have);
        assert(with_appended(s.catalog, kind, values.take(0)) == s.catalog);
    } else {
        lemma_values_load(s, kind, values, k - 1);
        let part = values.take(k);
        assert(part.drop_last() =~= values.take(k - 1));
        assert(part.last() == values[k - 1]);
        let before = StoreState { catalog: with_appended(s.catalog, kind, values.take(k - 1)), ..s };
        let held = before.catalog.values(kind);
        assert(held == have + values.take(k - 1));
        let whole = have + values;
        assert(!held.contains(values[k - 1])) by {
            if held.contains(values[k - 1]) {
                let i = choose|i: int| 0 <= i < held.len() && held[i] == values[k - 1];
                assert(whole[i] == held[i]);
                assert(whole[have.len() + k - 1] == values[k - 1]);
            }
        }
        assert(held.push(values[k - 1]) =~= have + part);
        assert(before.after_add(kind, values[k - 1]) == StoreState {
            catalog: with_appended(s.catalog, kind, part),
            ..s
        });
    }
}

/// Transactions in listing order are restored into a store without
/// transactions one behind the other.
pub proof fn lemma_transactions_load(s: StoreState, txs: Seq<TransactionView>, k: int)
    requires
        0 <= k <= txs.len(),
        s.transactions.len() == 0,
        well_formed(txs),
    ensures
        s.with_restored(txs.take(k)) == Some(StoreState { transactions: txs.take(k), ..s }),
        well_formed(txs.take(k)),
    decreases k,
{
    if k == 0 {
        assert(txs.take(0) =~= Seq::<TransactionView>::empty());
        assert(s.transactions =~= txs.take(0));
    } else {
        lemma_transactions_load(s, txs, k - 1);
        let part = txs.take(k);
        let done = txs.take(k - 1);
        let t = txs[k - 1];
        assert(part.drop_last() =~= done);
        assert(part.last() == t);
        let before = StoreState { transactions: done, ..s };
        assert(!holds_id(done, t.id.unwrap())) by {
            if holds_id(done, t.id.unwrap()) {
                let i = choose|i: int| 0 <= i < done.len() && (#[trigger] done[i]).id == t.id;
                assert(txs[i].id != txs[k - 1].id);
            }
        }
        assert(t.storable());
        assert forall|i: int| 0 <= i < done.len() implies t.listed_after(#[trigger] done[i]) by {
            assert(txs[k - 1].listed_after(txs[i]));
        }
        lemma_placed_at(done, t, k - 1);
        assert(done.insert(k - 1, t) =~= part);
    }
}

} // verus!
