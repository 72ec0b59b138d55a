//! What a reader sees who pages through an unchanging store, and what the
//! listing shows after a write.

use vstd::prelude::*;
use crate::error::{Error, StorageError};
use crate::listing::{
    behind, below, cursor_after, holds_id, largest_id, lemma_below_from, lemma_key_order,
    lemma_largest_id, lemma_placed_at, lemma_without_at, ordered, page, placed, shown_before,
    well_formed, without,
};
use crate::seq_facts::lemma_filter_keeps_all;
use crate::transaction::{Cursor, TransactionView};
use crate::transaction_repository::StoreState;

verus! {

/// The index at which page number `k` begins in a listing of `len`
/// transactions read in pages of `size`: `k * size`, cut at `len`.
pub open spec fn page_start(len: nat, size: nat, k: nat) -> int {
    if k * size < len { (k * size) as int } else { len as int }
}

/// The cursor that the reader hands in for page number `k`, counted from 0:
/// the start for the first page, and then each time the key of the last
/// transaction that the page before showed.
pub open spec fn cursor_at(txs: Seq<TransactionView>, size: nat, k: nat) -> Cursor
    decreases k,
{
    if k == 0 {
        Cursor::Start
    } else {
        let before = cursor_at(txs, size, (k - 1) as nat);
        cursor_after(page(txs, size, before), before)
    }
}

/// Page number `k` of a reader who asks for pages of `size` transactions.
pub open spec fn nth_page(txs: Seq<TransactionView>, size: nat, k: nat) -> Seq<TransactionView> {
    page(txs, size, cursor_at(txs, size, k))
}

/// The first `k` pages, one after the other.
pub open spec fn first_pages(txs: Seq<TransactionView>, size: nat, k: nat) -> Seq<TransactionView>
    decreases k,
{
    if k == 0 {
        Seq::<TransactionView>::empty()
    } else {
        first_pages(txs, size, (k - 1) as nat) + nth_page(txs, size, (k - 1) as nat)
    }
}

/// Nothing lies before the start: every transaction is behind it.
pub proof fn lemma_below_start(txs: Seq<TransactionView>)
    ensures
        below(txs, Cursor::Start) == txs,
{
    lemma_filter_keeps_all(txs, behind(Cursor::Start));
}

/// Behind the cursor for page `k` lie the transactions from index
/// `k * size` on, and page `k` is the slice of the listing from there to
/// index `(k + 1) * size`, cut at the end of the listing.
pub proof fn lemma_nth_page(txs: Seq<TransactionView>, size: nat, k: nat)
    requires
        well_formed(txs),
        size >= 1,
    ensures
        below(txs, cursor_at(txs, size, k)) == txs.skip(page_start(txs.len(), size, k)),
        nth_page(txs, size, k) == txs.subrange(
            page_start(txs.len(), size, k),
            page_start(txs.len(), size, k + 1),
        ),
    decreases k,
{
    let n = txs.len() as int;
    let from = page_start(txs.len(), size, k);
    let to = page_start(txs.len(), size, k + 1);
    assert((k + 1) * size == k * size + size) by (nonlinear_arith);
    assert(k * size >= 0) by (nonlinear_arith);
    if k == 0 {
        assert(k * size == 0) by (nonlinear_arith)
            requires
                k == 0,
        ;
        lemma_below_start(txs);
        assert(txs.skip(0) =~= txs);
    } else {
        let j = (k - 1) as nat;
        lemma_nth_page(txs, size, j);
        assert((j + 1) * size == k * size);
        assert(j * size == k * size - size) by (nonlinear_arith)
            requires
                j == k - 1,
        ;
        let c = cursor_at(txs, size, j);
        let shown = nth_page(txs, size, j);
        let prev = page_start(txs.len(), size, j);
        assert(shown == txs.subrange(prev, from));
        if shown.len() == 0 {
            assert(prev == from);
            assert(cursor_at(txs, size, k) == c);
        } else {
            let last = txs[from - 1];
            assert(shown.last() == last);
            let next = Cursor::After { date: last.date, id: last.id.unwrap() };
            assert(cursor_at(txs, size, k) == next);
            assert forall|i: int| 0 <= i < from implies !next.admits(
                (#[trigger] txs[i]).date,
                txs[i].id.unwrap(),
            ) by {
                if i < from - 1 {
                    assert(txs[from - 1].listed_after(txs[i]));
                }
                lemma_key_order(
                    txs[i].date,
                    txs[i].id.unwrap(),
                    last.date,
                    last.id.unwrap(),
                    txs[i].date,
                    txs[i].id.unwrap(),
                );
            }
            if from < n {
                assert(txs[from].listed_after(txs[from - 1]));
            }
            lemma_below_from(txs, next, from);
        }
    }
    let rest = txs.skip(from);
    assert(below(txs, cursor_at(txs, size, k)) == rest);
    if size < rest.len() {
        assert(rest.take(size as int) =~= txs.subrange(from, to));
    } else {
        assert(rest =~= txs.subrange(from, to));
    }
}

/// The first `k` pages together are the first `k * size` transactions of
/// the listing.
pub proof fn lemma_first_pages(txs: Seq<TransactionView>, size: nat, k: nat)
    requires
        well_formed(txs),
        size >= 1,
    ensures
        first_pages(txs, size, k) == txs.take(page_start(txs.len(), size, k)),
    decreases k,
{
    let n = txs.len() as int;
    assert(k * size >= 0) by (nonlinear_arith);
    if k == 0 {
        assert(k * size == 0) by (nonlinear_arith)
            requires
                k == 0,
        ;
        assert(txs.take(0) =~= Seq::<TransactionView>::empty());
    } else {
        let j = (k - 1) as nat;
        lemma_first_pages(txs, size, j);
        lemma_nth_page(txs, size, j);
        assert(j * size == k * size - size) by (nonlinear_arith)
            requires
                j == k - 1,
        ;
        assert(j * size >= 0) by (nonlinear_arith);
        assert(txs.take(page_start(txs.len(), size, j)) + txs.subrange(
            page_start(txs.len(), size, j),
            page_start(txs.len(), size, k),
        ) =~= txs.take(page_start(txs.len(), size, k)));
    }
}

/// Pagination completeness.
///
/// A reader who starts at [`Cursor::Start`], asks for pages of `size`
/// transactions and hands back the key of the last transaction of each page
/// sees, with `n` transactions in a store that is not written to meanwhile:
/// `n / size` full pages, then one page of the `n % size` transactions that
/// are left, which is shorter than `size` and empty where `size` divides
/// `n`; all these pages together are the whole listing, each transaction
/// once and in strictly falling order of keys; and every later page is
/// empty.
pub proof fn lemma_pagination_complete(txs: Seq<TransactionView>, size: nat)
    requires
        well_formed(txs),
        size >= 1,
    ensures
        forall|k: nat| k < txs.len() / size ==> (#[trigger] nth_page(txs, size, k)).len() == size,
        nth_page(txs, size, txs.len() / size).len() == txs.len() % size,
        nth_page(txs, size, txs.len() / size).len() < size,
        forall|k: nat| k > txs.len() / size ==> (#[trigger] nth_page(txs, size, k)).len() == 0,
        first_pages(txs, size, txs.len() / size + 1) == txs,
        ordered(txs),
{
    let n = txs.len();
    let full = n / size;
    assert(n == full * size + n % size && 0 <= n % size < size) by (nonlinear_arith)
        requires
            full == n / size,
            size >= 1,
    ;
    assert forall|k: nat| k < full implies (#[trigger] nth_page(txs, size, k)).len() == size by {
        lemma_nth_page(txs, size, k);
        assert((k + 1) * size <= full * size) by (nonlinear_arith)
            requires
                k + 1 <= full,
        ;
        assert((k + 1) * size == k * size + size) by (nonlinear_arith);
        assert(k * size >= 0) by (nonlinear_arith);
    }
    assert forall|k: nat| k > full implies (#[trigger] nth_page(txs, size, k)).len() == 0 by {
        lemma_nth_page(txs, size, k);
        assert(k * size >= (full + 1) * size) by (nonlinear_arith)
            requires
                k >= full + 1,
        ;
        assert((full + 1) * size == full * size + size) by (nonlinear_arith);
        assert((k + 1) * size == k * size + size) by (nonlinear_arith);
    }
    lemma_nth_page(txs, size, full);
    assert((full + 1) * size == full * size + size) by (nonlinear_arith);
    lemma_first_pages(txs, size, full + 1);
    assert(txs.take(n as int) =~= txs);
}

/// Round trip of an insertion.
///
/// Where inserting `tx` into a well-formed store succeeds with the
/// identifier `id`, that identifier was not in use before; the listing
/// then holds `tx` under `id`, with every other field as it was handed in,
/// at exactly one place; the other transactions are those of before; and a
/// reader who pages through the store with any page size finds it on the
/// page that its place falls on.
pub proof fn lemma_insert_round_trip(s: StoreState, tx: TransactionView, size: nat)
    requires
        s.wf(),
        s.insert_result(tx) is Ok,
        size >= 1,
    ensures
        ({
            let id = s.insert_result(tx).unwrap();
            let stored = tx.with_id(id);
            let after = placed(s.transactions, stored);
            &&& !holds_id(s.transactions, id)
            &&& well_formed(after)
            &&& after.len() == s.transactions.len() + 1
            &&& without(after, id) == s.transactions
            &&& exists|p: int|
                {
                    &&& 0 <= p < after.len()
                    &&& #[trigger] after[p] == stored
                    &&& nth_page(after, size, page_of_index(p, size)).contains(stored)
                }
            &&& forall|q: int|
                0 <= q < after.len() && (#[trigger] after[q]).id == Some(id) ==> after[q]
                    == stored
        }),
{
    let txs = s.transactions;
    let id = s.insert_result(tx).unwrap();
    let stored = tx.with_id(id);
    let after = placed(txs, stored);
    lemma_largest_id(txs);
    assert(!holds_id(txs, id)) by {
        if holds_id(txs, id) {
            let i = choose|i: int| 0 <= i < txs.len() && (#[trigger] txs[i]).id == Some(id);
            assert(txs[i].id.unwrap() <= largest_id(txs));
        }
    }
    let p = lemma_place_of(txs, stored);
    assert(after =~= txs.insert(p, stored));
    lemma_without_at(after, p);
    assert(after.remove(p) =~= txs);
    let k = page_of_index(p, size);
    lemma_nth_page(after, size, k);
    assert(k * size <= p < (k + 1) * size) by (nonlinear_arith)
        requires
            k == p / (size as int),
            size >= 1,
            p >= 0,
    ;
    let from = page_start(after.len(), size, k);
    let to = page_start(after.len(), size, k + 1);
    assert((k + 1) * size == k * size + size) by (nonlinear_arith);
    assert(from == k * size);
    assert(to > p);
    assert(after.subrange(from, to)[p - from] == stored);
    assert(nth_page(after, size, k).contains(stored));
    assert(after[p] == stored);
    assert(after.len() == txs.len() + 1);
    assert(without(after, id) == txs);
    assert forall|q: int| 0 <= q < after.len() && (#[trigger] after[q]).id == Some(id) implies after[q]
        == stored by {
        if q != p {
            assert(after[q].id != after[p].id);
        }
    }
}

/// The number of the page, counted from 0, on which index `p` of a listing
/// falls for a reader of pages of `size` transactions.
pub open spec fn page_of_index(p: int, size: nat) -> nat {
    (p / size as int) as nat
}

/// The place at which a storable transaction with an unused identifier is
/// put: the listing stays well formed, and the place is the number of
/// transactions with a larger key.
pub proof fn lemma_place_of(txs: Seq<TransactionView>, t: TransactionView) -> (p: int)
    requires
        well_formed(txs),
        t.storable(),
        !holds_id(txs, t.id.unwrap()),
    ensures
        0 <= p <= txs.len(),
        p == txs.filter(shown_before(t)).len(),
        placed(txs, t) == txs.insert(p, t),
        well_formed(placed(txs, t)),
        placed(txs, t)[p] == t,
{
    let p = first_not_before(txs, t, 0);
    lemma_first_not_before(txs, t, 0);
    lemma_placed_at(txs, t, p);
    p
}

/// The first index from `from` on whose transaction has no larger key than
/// `t`, or the length where there is none.
pub open spec fn first_not_before(txs: Seq<TransactionView>, t: TransactionView, from: int) -> int
    decreases txs.len() - from,
{
    if 0 <= from < txs.len() && t.listed_after(txs[from]) {
        first_not_before(txs, t, from + 1)
    } else {
        from
    }
}

/// What [`first_not_before`] finds, where every transaction before `from`
/// has a larger key than `t`.
pub proof fn lemma_first_not_before(txs: Seq<TransactionView>, t: TransactionView, from: int)
    requires
        0 <= from <= txs.len(),
        forall|k: int| 0 <= k < from ==> t.listed_after(#[trigger] txs[k]),
    ensures
        from <= first_not_before(txs, t, from) <= txs.len(),
        forall|k: int|
            0 <= k < first_not_before(txs, t, from) ==> t.listed_after(#[trigger] txs[k]),
        first_not_before(txs, t, from) < txs.len() ==> !t.listed_after(
            txs[first_not_before(txs, t, from)],
        ),
    decreases txs.len() - from,
{
    if from < txs.len() && t.listed_after(txs[from]) {
        lemma_first_not_before(txs, t, from + 1);
    }
}

/// An edit replaces a transaction fully.
///
/// Where editing a well-formed store to `tx` succeeds, the listing holds
/// under the identifier of `tx` exactly `tx`, with the type tags of `tx`
/// and no others, at exactly one place; it has as many transactions as
/// before; and the transactions with other identifiers are untouched.
pub proof fn lemma_edit_replaces(s: StoreState, tx: TransactionView)
    requires
        s.wf(),
        s.edit_result(tx) is Ok,
    ensures
        ({
            let id = tx.id.unwrap();
            let after = placed(without(s.transactions, id), tx);
            &&& well_formed(after)
            &&& after.len() == s.transactions.len()
            &&& without(after, id) == without(s.transactions, id)
            &&& after.contains(tx)
            &&& forall|q: int|
                0 <= q < after.len() && (#[trigger] after[q]).id == Some(id) ==> after[q] == tx
                    && after[q].transaction_types == tx.transaction_types
        }),
{
    let txs = s.transactions;
    let id = tx.id.unwrap();
    let i = choose|i: int| 0 <= i < txs.len() && (#[trigger] txs[i]).id == Some(id);
    lemma_without_at(txs, i);
    let rest = without(txs, id);
    let p = lemma_place_of(rest, tx);
    let after = placed(rest, tx);
    lemma_without_at(after, p);
    assert(after.remove(p) =~= rest);
    assert forall|q: int| 0 <= q < after.len() && (#[trigger] after[q]).id == Some(id) implies after[q]
        == tx && after[q].transaction_types == tx.transaction_types by {
        if q != p {
            assert(after[q].id != after[p].id);
        }
    }
}

/// Write atomicity.
///
/// An attempt to insert leaves a well-formed store well formed, and a
/// failed attempt leaves it as it was: every page of every reader is what
/// it was before. In particular, where the fields of `tx` are in order and
/// an identifier is free, but a type tag occurs twice, so that the row is
/// written and an association is then refused, the attempt fails with
/// [`StorageError::DuplicateLink`] and no transaction has the identifier
/// under which the row had been written.
pub proof fn lemma_insert_atomic(s: StoreState, tx: TransactionView, size: nat, cursor: Cursor)
    requires
        s.wf(),
    ensures
        s.after_insert(tx).wf(),
        s.insert_result(tx) is Err ==> s.after_insert(tx) == s && page(
            s.after_insert(tx).transactions,
            size,
            cursor,
        ) == page(s.transactions, size, cursor),
        tx.id is None && tx.validation_failure() is None && largest_id(s.transactions)
            < i64::MAX && !tx.transaction_types.no_duplicates() ==> {
            &&& s.insert_result(tx) == Err::<i64, Error>(
                Error::Storage(StorageError::DuplicateLink),
            )
            &&& s.after_insert(tx) == s
            &&& !holds_id(
                s.after_insert(tx).transactions,
                (largest_id(s.transactions) + 1) as i64,
            )
        },
{
    lemma_largest_id(s.transactions);
    if s.insert_result(tx) is Ok {
        lemma_insert_round_trip(s, tx, 1);
    }
    if largest_id(s.transactions) < i64::MAX {
        let id = (largest_id(s.transactions) + 1) as i64;
        if holds_id(s.transactions, id) {
            let i = choose|i: int|
                0 <= i < s.transactions.len() && (#[trigger] s.transactions[i]).id == Some(id);
            assert(s.transactions[i].id.unwrap() <= largest_id(s.transactions));
        }
    }
}

} // verus!
