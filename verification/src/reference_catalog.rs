//! The three flat lookup sets from which the fields of a transaction are
//! drawn: categories, banks and transaction-type tags.

use vstd::prelude::*;
use crate::error::DuplicateError;
use crate::text::texts;
use crate::transaction::copy_texts;

verus! {

/// Which of the three lookup sets is meant.
#[derive(Clone, Copy, Debug, PartialEq, Eq, Structural)]
pub enum LookupKind {
    Category,
    Bank,
    TransactionType,
}

/// The lookup set that holds the values for a field of a transaction, by
/// the field's name: `category`, `bank` or `transaction_types`.
pub open spec fn kind_of_field(name: Seq<char>) -> Option<LookupKind> {
    if name == "category"@ {
        Some(LookupKind::Category)
    } else if name == "bank"@ {
        Some(LookupKind::Bank)
    } else if name == "transaction_types"@ {
        Some(LookupKind::TransactionType)
    } else {
        None
    }
}

/// Tells whether two texts are the same.
fn same_text(a: &str, b: &str) -> (same: bool)
    ensures
        same == (a@ == b@),
{
    a.to_owned() == b.to_owned()
}

impl LookupKind {
    /// Finds the lookup set for a field of a transaction by the field's
    /// name; `None` where the name is that of no field with a lookup set.
    pub fn from_field_name(name: &str) -> (r: Option<LookupKind>)
        ensures
            r == kind_of_field(name@),
    {
        if same_text(name, "category") {
            Some(LookupKind::Category)
        } else if same_text(name, "bank") {
            Some(LookupKind::Bank)
        } else if same_text(name, "transaction_types") {
            Some(LookupKind::TransactionType)
        } else {
            None
        }
    }
}

/// The three sets as sequences of texts, each in insertion order.
pub struct CatalogView {
    pub categories: Seq<Seq<char>>,
    pub banks: Seq<Seq<char>>,
    pub transaction_types: Seq<Seq<char>>,
}

impl CatalogView {
    /// The values of one set, oldest first.
    pub open spec fn values(self, kind: LookupKind) -> Seq<Seq<char>> {
        match kind {
            LookupKind::Category => self.categories,
            LookupKind::Bank => self.banks,
            LookupKind::TransactionType => self.transaction_types,
        }
    }

    /// No value occurs twice in its set.
    pub open spec fn wf(self) -> bool {
        &&& self.categories.no_duplicates()
        &&& self.banks.no_duplicates()
        &&& self.transaction_types.no_duplicates()
    }

    /// The catalog with `value` put at the end of one set.
    pub open spec fn with_added(self, kind: LookupKind, value: Seq<char>) -> CatalogView {
        match kind {
            LookupKind::Category => CatalogView {
                categories: self.categories.push(value),
                ..self
            },
            LookupKind::Bank => CatalogView { banks: self.banks.push(value), ..self },
            LookupKind::TransactionType => CatalogView {
                transaction_types: self.transaction_types.push(value),
                ..self
            },
        }
    }

    /// What adding `value` to one set gives: the error where the set holds it
    /// already, else the enlarged catalog.
    pub open spec fn add(self, kind: LookupKind, value: Seq<char>) -> Result<
        CatalogView,
        DuplicateError,
    > {
        if self.values(kind).contains(value) {
            Err(DuplicateError)
        } else {
            Ok(self.with_added(kind, value))
        }
    }

    /// How often `value` occurs in one set.
    pub open spec fn occurrences(self, kind: LookupKind, value: Seq<char>) -> nat {
        self.values(kind).filter(equals_text(value)).len()
    }
}

/// The test that picks the texts equal to `value`.
pub open spec fn equals_text(value: Seq<char>) -> spec_fn(Seq<char>) -> bool {
    |v: Seq<char>| v == value
}

/// The lookup sets of a store.
#[derive(Debug)]
pub struct ReferenceCatalog {
    categories: Vec<String>,
    banks: Vec<String>,
    transaction_types: Vec<String>,
}

impl View for ReferenceCatalog {
    type V = CatalogView;

    closed spec fn view(&self) -> CatalogView {
        CatalogView {
            categories: texts(self.categories@),
            banks: texts(self.banks@),
            transaction_types: texts(self.transaction_types@),
        }
    }
}

/// Tells whether `list` holds the text of `value`.
fn holds(list: &Vec<String>, value: &String) -> (b: bool)
    ensures
        b == texts(list@).contains(value@),
{
    let mut i: usize = 0;
    while i < list.len()
        invariant
            i <= list@.len(),
            forall|k: int| 0 <= k < i ==> #[trigger] texts(list@)[k] != value@,
        decreases list@.len() - i,
    {
        if list[i] == *value {
            assert(texts(list@)[i as int] == value@);
            return true;
        }
        i += 1;
    }
    false
}

/// Puts `value` at the end of `list` unless the list holds it.
fn add_to(list: &mut Vec<String>, value: String) -> (r: Result<(), DuplicateError>)
    ensures
        texts(old(list)@).contains(value@) ==> r is Err && texts(final(list)@) == texts(
            old(list)@,
        ),
        !texts(old(list)@).contains(value@) ==> r is Ok && texts(final(list)@) == texts(
            old(list)@,
        ).push(value@),
{
    if holds(list, &value) {
        return Err(DuplicateError);
    }
    list.push(value);
    proof {
        assert(texts(list@) =~= texts(old(list)@).push(value@));
    }
    Ok(())
}

impl ReferenceCatalog {
    /// No value occurs twice in its set.
    pub open spec fn wf(&self) -> bool {
        self@.wf()
    }

    /// A catalog with three empty sets.
    pub fn new() -> (c: ReferenceCatalog)
        ensures
            c.wf(),
            c@.categories == Seq::<Seq<char>>::empty(),
            c@.banks == Seq::<Seq<char>>::empty(),
            c@.transaction_types == Seq::<Seq<char>>::empty(),
    {
        let c = ReferenceCatalog {
            categories: Vec::new(),
            banks: Vec::new(),
            transaction_types: Vec::new(),
        };
        proof {
            assert(c@.categories =~= Seq::<Seq<char>>::empty());
            assert(c@.banks =~= Seq::<Seq<char>>::empty());
            assert(c@.transaction_types =~= Seq::<Seq<char>>::empty());
        }
        c
    }

    /// Adds `value` to the set `kind`.
    ///
    /// Fails, and changes nothing, where the set already holds exactly this
    /// text; otherwise the value becomes the last of its set.
    pub fn add(&mut self, kind: LookupKind, value: &str) -> (r: Result<(), DuplicateError>)
        requires
            old(self).wf(),
        ensures
            final(self).wf(),
            r is Err <==> old(self)@.values(kind).contains(value@),
            r is Err ==> final(self)@ == old(self)@,
            r is Ok ==> final(self)@ == old(self)@.with_added(kind, value@),
            old(self)@.add(kind, value@) == match r {
                Ok(_) => Ok::<CatalogView, DuplicateError>(final(self)@),
                Err(e) => Err::<CatalogView, DuplicateError>(e),
            },
    {
        let owned = value.to_owned();
        let r = match kind {
            LookupKind::Category => add_to(&mut self.categories, owned),
            LookupKind::Bank => add_to(&mut self.banks, owned),
            LookupKind::TransactionType => add_to(&mut self.transaction_types, owned),
        };
        proof {
            if r is Ok {
                lemma_added_keeps_wf(old(self)@, kind, value@);
            }
        }
        r
    }

    /// All values of the set `kind`, oldest first.
    pub fn list(&self, kind: LookupKind) -> (r: Vec<String>)
        ensures
            texts(r@) == self@.values(kind),
    {
        match kind {
            LookupKind::Category => copy_texts(&self.categories),
            LookupKind::Bank => copy_texts(&self.banks),
            LookupKind::TransactionType => copy_texts(&self.transaction_types),
        }
    }

    /// Tells whether the set `kind` holds `value`.
    pub fn contains(&self, kind: LookupKind, value: &str) -> (b: bool)
        ensures
            b == self@.values(kind).contains(value@),
    {
        let owned = value.to_owned();
        match kind {
            LookupKind::Category => holds(&self.categories, &owned),
            LookupKind::Bank => holds(&self.banks, &owned),
            LookupKind::TransactionType => holds(&self.transaction_types, &owned),
        }
    }
}

/// Adding a value that a set lacks keeps every set free of repetitions.
pub proof fn lemma_added_keeps_wf(c: CatalogView, kind: LookupKind, value: Seq<char>)
    requires
        c.wf(),
        !c.values(kind).contains(value),
    ensures
        c.with_added(kind, value).wf(),
{
    let s = c.values(kind);
    let t = s.push(value);
    assert forall|a: int, b: int| 0 <= a < t.len() && 0 <= b < t.len() && a != b implies t[a]
        != t[b] by {
        if a == s.len() {
            assert(s[b] == t[b]);
        } else if b == s.len() {
            assert(s[a] == t[a]);
        }
    }
}

/// A set without repetitions holds a value once if it holds it, and not at
/// all otherwise.
pub proof fn lemma_occurrences(c: CatalogView, kind: LookupKind, value: Seq<char>)
    requires
        c.wf(),
    ensures
        c.occurrences(kind, value) == (if c.values(kind).contains(value) { 1nat } else { 0nat }),
{
    let s = c.values(kind);
    let pred = equals_text(value);
    if s.contains(value) {
        let p = choose|p: int| 0 <= p < s.len() && s[p] == value;
        crate::seq_facts::lemma_filter_count_one(s, pred, p);
    } else {
        crate::seq_facts::lemma_filter_keeps_none(s, pred);
    }
}

/// Reference uniqueness: of two additions of the same value to the same set
/// of a well-formed catalog, the first to find it absent succeeds, every
/// later one fails with [`DuplicateError`] and changes nothing, and the set
/// then holds the value exactly once.
pub proof fn lemma_add_twice(c: CatalogView, kind: LookupKind, value: Seq<char>)
    requires
        c.wf(),
    ensures
        c.add(kind, value) matches Ok(c1) ==> {
            &&& c1.wf()
            &&& c1.add(kind, value) is Err
            &&& c1.occurrences(kind, value) == 1
            &&& c1.values(kind) == c.values(kind).push(value)
        },
        c.add(kind, value) is Err ==> c.occurrences(kind, value) == 1,
{
    lemma_occurrences(c, kind, value);
    if c.add(kind, value) is Ok {
        let c1 = c.with_added(kind, value);
        lemma_added_keeps_wf(c, kind, value);
        let s = c1.values(kind);
        assert(s[s.len() - 1] == value);
        lemma_occurrences(c1, kind, value);
    }
}

} // verus!
