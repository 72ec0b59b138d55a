//! The association between transactions and their type tags: one row per
//! pair of a transaction's identifier and a tag, keyed by that pair.

use vstd::prelude::*;
use crate::error::StorageError;
use crate::text::texts;

verus! {

/// One association row.
#[derive(Debug)]
pub struct Link {
    pub transaction_id: i64,
    pub tag: String,
}

/// The tags that the rows `links` give to the transaction `id`, in the order
/// of the rows.
pub open spec fn tags_among(links: Seq<Link>, id: i64) -> Seq<Seq<char>>
    decreases links.len(),
{
    if links.len() == 0 {
        Seq::<Seq<char>>::empty()
    } else {
        let before = tags_among(links.drop_last(), id);
        if links.last().transaction_id == id {
            before.push(links.last().tag@)
        } else {
            before
        }
    }
}

/// A tag is among those of `id` exactly where some row pairs the two.
pub proof fn lemma_tags_among_contains(links: Seq<Link>, id: i64, tag: Seq<char>)
    ensures
        tags_among(links, id).contains(tag) <==> exists|k: int|
            0 <= k < links.len() && (#[trigger] links[k]).transaction_id == id && links[k].tag@
                == tag,
    decreases links.len(),
{
    if links.len() > 0 {
        let before = links.drop_last();
        lemma_tags_among_contains(before, id, tag);
        let t = tags_among(links, id);
        if t.contains(tag) {
            let n = choose|n: int| 0 <= n < t.len() && t[n] == tag;
            if links.last().transaction_id == id && n == t.len() - 1 {
                assert(links[links.len() - 1].tag@ == tag);
            } else {
                assert(tags_among(before, id)[n] == tag);
                let k = choose|k: int|
                    0 <= k < before.len() && (#[trigger] before[k]).transaction_id == id
                        && before[k].tag@ == tag;
                assert(links[k] == before[k]);
            }
        }
        if exists|k: int|
            0 <= k < links.len() && (#[trigger] links[k]).transaction_id == id && links[k].tag@
                == tag {
            let k = choose|k: int|
                0 <= k < links.len() && (#[trigger] links[k]).transaction_id == id
                    && links[k].tag@ == tag;
            if k == links.len() - 1 {
                assert(t[t.len() - 1] == tag);
            } else {
                assert(before[k] == links[k]);
                let n = choose|n: int|
                    0 <= n < tags_among(before, id).len() && tags_among(before, id)[n] == tag;
                assert(t[n] == tag);
            }
        }
    }
}

/// Taking out a row of another transaction leaves the tags of `id` as they
/// were.
pub proof fn lemma_tags_among_remove_other(links: Seq<Link>, i: int, id: i64)
    requires
        0 <= i < links.len(),
        links[i].transaction_id != id,
    ensures
        tags_among(links.remove(i), id) == tags_among(links, id),
    decreases links.len(),
{
    if i == links.len() - 1 {
        assert(links.remove(i) =~= links.drop_last());
    } else {
        lemma_tags_among_remove_other(links.drop_last(), i, id);
        assert(links.remove(i).drop_last() =~= links.drop_last().remove(i));
        assert(links.remove(i).last() == links.last());
    }
}

/// Where no row belongs to `id`, it has no tags.
pub proof fn lemma_tags_among_none(links: Seq<Link>, id: i64)
    requires
        forall|k: int| 0 <= k < links.len() ==> (#[trigger] links[k]).transaction_id != id,
    ensures
        tags_among(links, id) == Seq::<Seq<char>>::empty(),
    decreases links.len(),
{
    if links.len() > 0 {
        lemma_tags_among_none(links.drop_last(), id);
    }
}

/// The table of association rows.
#[derive(Debug)]
pub struct LinkTable {
    links: Vec<Link>,
}

impl LinkTable {
    /// The tags of the transaction `id`, in the order in which they were
    /// associated.
    pub closed spec fn tags(&self, id: i64) -> Seq<Seq<char>> {
        tags_among(self.links@, id)
    }

    /// The key of the table holds: no transaction has a tag twice.
    pub closed spec fn wf(&self) -> bool {
        forall|id: i64| (#[trigger] tags_among(self.links@, id)).no_duplicates()
    }

    /// What [`LinkTable::wf`] says of one transaction.
    pub proof fn lemma_wf_tags(&self, id: i64)
        requires
            self.wf(),
        ensures
            self.tags(id).no_duplicates(),
    {
    }

    /// An empty table.
    pub fn new() -> (t: LinkTable)
        ensures
            t.wf(),
            forall|id: i64| #[trigger] t.tags(id) == Seq::<Seq<char>>::empty(),
    {
        LinkTable { links: Vec::new() }
    }

    /// Associates `tag` with the transaction `id`, unless the pair is
    /// already there.
    pub fn insert(&mut self, id: i64, tag: String) -> (r: Result<(), StorageError>)
        requires
            old(self).wf(),
        ensures
            final(self).wf(),
            forall|j: i64| j != id ==> #[trigger] final(self).tags(j) == old(self).tags(j),
            old(self).tags(id).contains(tag@) ==> r == Err::<(), StorageError>(
                StorageError::DuplicateLink,
            ) && final(self).tags(id) == old(self).tags(id),
            !old(self).tags(id).contains(tag@) ==> r is Ok && final(self).tags(id) == old(
                self,
            ).tags(id).push(tag@),
    {
        let mut k: usize = 0;
        while k < self.links.len()
            invariant
                k <= self.links@.len(),
                *self == *old(self),
                self.wf(),
                forall|m: int|
                    0 <= m < k ==> !((#[trigger] self.links@[m]).transaction_id == id
                        && self.links@[m].tag@ == tag@),
            decreases self.links@.len() - k,
        {
            if self.links[k].transaction_id == id && self.links[k].tag == tag {
                proof {
                    lemma_tags_among_contains(self.links@, id, tag@);
                }
                return Err(StorageError::DuplicateLink);
            }
            k += 1;
        }
        proof {
            lemma_tags_among_contains(self.links@, id, tag@);
        }
        let ghost before = self.links@;
        let link = Link { transaction_id: id, tag };
        self.links.push(link);
        proof {
            assert(self.links@.drop_last() =~= before);
            assert forall|j: i64| (#[trigger] tags_among(self.links@, j)).no_duplicates() by {
                if j == id {
                    let t = tags_among(before, id);
                    assert(t.no_duplicates());
                    assert(!t.contains(tag@));
                    let u = t.push(tag@);
                    assert forall|a: int, b: int| 0 <= a < u.len() && 0 <= b < u.len() && a != b
                    implies u[a] != u[b] by {
                        if a == t.len() {
                            assert(t[b] == u[b]);
                        } else if b == t.len() {
                            assert(t[a] == u[a]);
                        }
                    }
                } else {
                    assert(tags_among(before, j).no_duplicates());
                }
            }
        }
        Ok(())
    }

    /// Removes every association of the transaction `id`.
    pub fn remove_all(&mut self, id: i64)
        requires
            old(self).wf(),
        ensures
            final(self).wf(),
            final(self).tags(id) == Seq::<Seq<char>>::empty(),
            forall|j: i64| j != id ==> #[trigger] final(self).tags(j) == old(self).tags(j),
    {
        let mut k: usize = 0;
        while k < self.links.len()
            invariant
                k <= self.links@.len(),
                forall|m: int| 0 <= m < k ==> (#[trigger] self.links@[m]).transaction_id != id,
                forall|j: i64|
                    j != id ==> #[trigger] tags_among(self.links@, j) == tags_among(
                        old(self).links@,
                        j,
                    ),
            decreases self.links@.len() - k,
        {
            if self.links[k].transaction_id == id {
                let ghost before = self.links@;
                self.links.remove(k);
                proof {
                    assert forall|j: i64| j != id implies #[trigger] tags_among(self.links@, j)
                        == tags_among(old(self).links@, j) by {
                        lemma_tags_among_remove_other(before, k as int, j);
                    }
                }
            } else {
                k += 1;
            }
        }
        proof {
            lemma_tags_among_none(self.links@, id);
            assert forall|j: i64| (#[trigger] tags_among(self.links@, j)).no_duplicates() by {
                if j != id {
                    assert(tags_among(old(self).links@, j).no_duplicates());
                }
            }
        }
    }

    /// The tags of the transaction `id`, in the order in which they were
    /// associated.
    pub fn tags_for(&self, id: i64) -> (r: Vec<String>)
        ensures
            texts(r@) == self.tags(id),
    {
        let mut r: Vec<String> = Vec::new();
        let mut k: usize = 0;
        proof {
            assert(self.links@.take(0) =~= Seq::<Link>::empty());
            assert(texts(r@) =~= tags_among(self.links@.take(0), id));
        }
        while k < self.links.len()
            invariant
                k <= self.links@.len(),
                texts(r@) == tags_among(self.links@.take(k as int), id),
            decreases self.links@.len() - k,
        {
            proof {
                assert(self.links@.take(k + 1).drop_last() =~= self.links@.take(k as int));
                assert(self.links@.take(k + 1).last() == self.links@[k as int]);
            }
            if self.links[k].transaction_id == id {
                let ghost before = r@;
                r.push(self.links[k].tag.clone());
                proof {
                    assert(texts(r@) =~= texts(before).push(self.links@[k as int].tag@));
                }
            }
            k += 1;
        }
        proof {
            assert(self.links@.take(k as int) =~= self.links@);
        }
        r
    }
}

} // verus!
