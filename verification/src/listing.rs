//! The stored transactions as one sequence in listing order, most recent
//! first, and what inserting, removing and paging mean on it.

use vstd::prelude::*;
use crate::date::Date;
use crate::seq_facts::{
    lemma_filter_drops_one, lemma_filter_is_prefix, lemma_filter_is_suffix, lemma_filter_keeps_all,
};
use crate::transaction::{key_less, Cursor, TransactionView};

verus! {

/// The test that picks the transactions with another identifier than `id`.
pub open spec fn lacks_id(id: i64) -> spec_fn(TransactionView) -> bool {
    |t: TransactionView| t.id != Some(id)
}

/// The test that picks the transactions which a listing shows before `t`:
/// those with a larger key.
pub open spec fn shown_before(t: TransactionView) -> spec_fn(TransactionView) -> bool {
    |u: TransactionView| t.listed_after(u)
}

/// The test that picks the transactions behind `cursor`.
pub open spec fn behind(cursor: Cursor) -> spec_fn(TransactionView) -> bool {
    |t: TransactionView| cursor.admits(t.date, t.id.unwrap())
}

/// Keys fall strictly from each transaction to the next.
pub open spec fn ordered(txs: Seq<TransactionView>) -> bool {
    forall|i: int, j: int|
        0 <= i < j < txs.len() ==> (#[trigger] txs[j]).listed_after(#[trigger] txs[i])
}

/// No identifier occurs twice.
pub open spec fn distinct_ids(txs: Seq<TransactionView>) -> bool {
    forall|i: int, j: int|
        0 <= i < txs.len() && 0 <= j < txs.len() && i != j ==> (#[trigger] txs[i]).id != (
        #[trigger] txs[j]).id
}

/// What holds of the transactions of a store at all times: each can stand
/// in the store, no identifier occurs twice, and they are in listing order.
pub open spec fn well_formed(txs: Seq<TransactionView>) -> bool {
    &&& forall|i: int| 0 <= i < txs.len() ==> (#[trigger] txs[i]).storable()
    &&& distinct_ids(txs)
    &&& ordered(txs)
}

/// Whether some transaction has the identifier `id`.
pub open spec fn holds_id(txs: Seq<TransactionView>, id: i64) -> bool {
    exists|i: int| 0 <= i < txs.len() && (#[trigger] txs[i]).id == Some(id)
}

/// The largest identifier in use, and 0 where none is positive.
pub open spec fn largest_id(txs: Seq<TransactionView>) -> int
    decreases txs.len(),
{
    if txs.len() == 0 {
        0
    } else {
        let before = largest_id(txs.drop_last());
        let last = txs.last().id.unwrap() as int;
        if last > before { last } else { before }
    }
}

/// The sequence with `t` put where its key belongs: behind every
/// transaction with a larger key.
pub open spec fn placed(txs: Seq<TransactionView>, t: TransactionView) -> Seq<TransactionView> {
    txs.insert(txs.filter(shown_before(t)).len() as int, t)
}

/// The sequence without the transaction that has the identifier `id`.
pub open spec fn without(txs: Seq<TransactionView>, id: i64) -> Seq<TransactionView> {
    txs.filter(lacks_id(id))
}

/// The transactions behind `cursor`, in listing order.
pub open spec fn below(txs: Seq<TransactionView>, cursor: Cursor) -> Seq<TransactionView> {
    txs.filter(behind(cursor))
}

/// The page of at most `size` transactions that begins behind `cursor`.
pub open spec fn page(txs: Seq<TransactionView>, size: nat, cursor: Cursor) -> Seq<
    TransactionView,
> {
    let rest = below(txs, cursor);
    if size < rest.len() { rest.take(size as int) } else { rest }
}

/// The cursor to hand in for the page after `shown`: behind its last
/// transaction, or `cursor` again where the page was empty.
pub open spec fn cursor_after(shown: Seq<TransactionView>, cursor: Cursor) -> Cursor {
    if shown.len() == 0 {
        cursor
    } else {
        Cursor::After { date: shown.last().date, id: shown.last().id.unwrap() }
    }
}

/// The order of keys is strict, total and transitive.
pub proof fn lemma_key_order(d1: Date, i1: i64, d2: Date, i2: i64, d3: Date, i3: i64)
    ensures
        !key_less(d1, i1, d1, i1),
        key_less(d1, i1, d2, i2) ==> !key_less(d2, i2, d1, i1),
        (d1 != d2 || i1 != i2) ==> key_less(d1, i1, d2, i2) || key_less(d2, i2, d1, i1),
        key_less(d1, i1, d2, i2) && key_less(d2, i2, d3, i3) ==> key_less(d1, i1, d3, i3),
{
}

/// No identifier in use is above [`largest_id`], which is never negative.
pub proof fn lemma_largest_id(txs: Seq<TransactionView>)
    ensures
        largest_id(txs) >= 0,
        forall|i: int| 0 <= i < txs.len() ==> (#[trigger] txs[i]).id.unwrap() <= largest_id(txs),
        txs.len() > 0 ==> largest_id(txs) <= i64::MAX,
        largest_id(txs) <= i64::MAX,
    decreases txs.len(),
{
    if txs.len() > 0 {
        lemma_largest_id(txs.drop_last());
        assert forall|i: int| 0 <= i < txs.len() implies (#[trigger] txs[i]).id.unwrap()
            <= largest_id(txs) by {
            if i < txs.len() - 1 {
                assert(txs.drop_last()[i] == txs[i]);
            }
        }
    }
}

/// Where `pos` is the first index whose transaction does not have a larger
/// key than `t`, that is where `t` is placed, and the sequence stays well
/// formed.
pub proof fn lemma_placed_at(txs: Seq<TransactionView>, t: TransactionView, pos: int)
    requires
        well_formed(txs),
        t.storable(),
        !holds_id(txs, t.id.unwrap()),
        0 <= pos <= txs.len(),
        forall|k: int| 0 <= k < pos ==> t.listed_after(#[trigger] txs[k]),
        pos < txs.len() ==> !t.listed_after(txs[pos]),
    ensures
        placed(txs, t) == txs.insert(pos, t),
        well_formed(txs.insert(pos, t)),
{
    let pred = shown_before(t);
    assert forall|k: int| pos <= k < txs.len() implies (#[trigger] txs[k]).listed_after(t) by {
        lemma_key_order(
            t.date,
            t.id.unwrap(),
            txs[k].date,
            txs[k].id.unwrap(),
            txs[pos].date,
            txs[pos].id.unwrap(),
        );
        lemma_key_order(
            t.date,
            t.id.unwrap(),
            txs[pos].date,
            txs[pos].id.unwrap(),
            txs[k].date,
            txs[k].id.unwrap(),
        );
        assert(txs[k].id != t.id);
        assert(txs[pos].id != t.id);
        if k > pos {
            assert(txs[k].listed_after(txs[pos]));
        }
    }
    assert forall|k: int| pos <= k < txs.len() implies !pred(#[trigger] txs[k]) by {
        lemma_key_order(
            t.date,
            t.id.unwrap(),
            txs[k].date,
            txs[k].id.unwrap(),
            t.date,
            t.id.unwrap(),
        );
        assert(txs[k].listed_after(t));
    }
    assert forall|k: int| 0 <= k < pos implies pred(#[trigger] txs[k]) by {}
    lemma_filter_is_prefix(txs, pred, pos);
    let new = txs.insert(pos, t);
    assert forall|i: int, j: int| 0 <= i < j < new.len() implies (#[trigger] new[j]).listed_after(
        #[trigger] new[i],
    ) by {
        if j < pos {
            assert(new[i] == txs[i] && new[j] == txs[j]);
        } else if j == pos {
            assert(new[i] == txs[i]);
        } else if i < pos {
            assert(new[i] == txs[i] && new[j] == txs[j - 1]);
            assert(txs[j - 1].listed_after(t));
            lemma_key_order(
                txs[j - 1].date,
                txs[j - 1].id.unwrap(),
                t.date,
                t.id.unwrap(),
                txs[i].date,
                txs[i].id.unwrap(),
            );
        } else if i == pos {
            assert(new[j] == txs[j - 1]);
            assert(txs[j - 1].listed_after(t));
        } else {
            assert(new[i] == txs[i - 1] && new[j] == txs[j - 1]);
        }
    }
    assert forall|i: int, j: int|
        0 <= i < new.len() && 0 <= j < new.len() && i != j implies (#[trigger] new[i]).id != (
    #[trigger] new[j]).id by {
        let oi = if i < pos { i } else { i - 1 };
        let oj = if j < pos { j } else { j - 1 };
        if i != pos {
            assert(new[i] == txs[oi]);
        }
        if j != pos {
            assert(new[j] == txs[oj]);
        }
    }
    assert forall|i: int| 0 <= i < new.len() implies (#[trigger] new[i]).storable() by {
        if i < pos {
            assert(new[i] == txs[i]);
        } else if i > pos {
            assert(new[i] == txs[i - 1]);
        }
    }
}

/// Leaving out an identifier that index `i` holds removes exactly that
/// transaction, and the rest stays well formed.
pub proof fn lemma_without_at(txs: Seq<TransactionView>, i: int)
    requires
        well_formed(txs),
        0 <= i < txs.len(),
    ensures
        without(txs, txs[i].id.unwrap()) == txs.remove(i),
        well_formed(txs.remove(i)),
        !holds_id(txs.remove(i), txs[i].id.unwrap()),
{
    let id = txs[i].id.unwrap();
    let pred = lacks_id(id);
    assert forall|k: int| 0 <= k < txs.len() && k != i implies pred(#[trigger] txs[k]) by {
        assert(txs[k].id != txs[i].id);
    }
    lemma_filter_drops_one(txs, pred, i);
    let new = txs.remove(i);
    assert forall|a: int| 0 <= a < new.len() implies (#[trigger] new[a]).storable() && new[a].id
        != Some(id) by {
        let o = if a < i { a } else { a + 1 };
        assert(new[a] == txs[o]);
        assert(txs[o].id != txs[i].id);
    }
    assert forall|a: int, b: int| 0 <= a < b < new.len() implies (#[trigger] new[b]).listed_after(
        #[trigger] new[a],
    ) by {
        let oa = if a < i { a } else { a + 1 };
        let ob = if b < i { b } else { b + 1 };
        assert(new[a] == txs[oa] && new[b] == txs[ob]);
    }
    assert forall|a: int, b: int|
        0 <= a < new.len() && 0 <= b < new.len() && a != b implies (#[trigger] new[a]).id != (
    #[trigger] new[b]).id by {
        let oa = if a < i { a } else { a + 1 };
        let ob = if b < i { b } else { b + 1 };
        assert(new[a] == txs[oa] && new[b] == txs[ob]);
    }
}

/// Leaving out an identifier that no transaction has changes nothing.
pub proof fn lemma_without_absent(txs: Seq<TransactionView>, id: i64)
    requires
        !holds_id(txs, id),
    ensures
        without(txs, id) == txs,
{
    lemma_filter_keeps_all(txs, lacks_id(id));
}

/// A transaction that was taken out is placed back where it stood.
pub proof fn lemma_placed_back(txs: Seq<TransactionView>, i: int)
    requires
        well_formed(txs),
        0 <= i < txs.len(),
    ensures
        placed(txs.remove(i), txs[i]) == txs,
{
    let t = txs[i];
    let rest = txs.remove(i);
    lemma_without_at(txs, i);
    assert forall|k: int| 0 <= k < i implies t.listed_after(#[trigger] rest[k]) by {
        assert(rest[k] == txs[k]);
    }
    if i < rest.len() {
        assert(rest[i] == txs[i + 1]);
        assert(txs[i + 1].listed_after(txs[i]));
        lemma_key_order(
            t.date,
            t.id.unwrap(),
            rest[i].date,
            rest[i].id.unwrap(),
            t.date,
            t.id.unwrap(),
        );
    }
    lemma_placed_at(rest, t, i);
    assert(rest.insert(i, t) =~= txs);
}

/// Where `start` is the first index whose transaction lies behind the
/// cursor, the transactions behind the cursor are those from `start` on.
pub proof fn lemma_below_from(txs: Seq<TransactionView>, cursor: Cursor, start: int)
    requires
        ordered(txs),
        0 <= start <= txs.len(),
        forall|k: int|
            0 <= k < start ==> !cursor.admits((#[trigger] txs[k]).date, txs[k].id.unwrap()),
        start < txs.len() ==> cursor.admits(txs[start].date, txs[start].id.unwrap()),
    ensures
        below(txs, cursor) == txs.skip(start),
{
    let pred = behind(cursor);
    assert forall|k: int| start <= k < txs.len() implies pred(#[trigger] txs[k]) by {
        if k > start {
            assert(txs[k].listed_after(txs[start]));
            match cursor {
                Cursor::Start => {},
                Cursor::After { date, id } => {
                    lemma_key_order(
                        txs[k].date,
                        txs[k].id.unwrap(),
                        txs[start].date,
                        txs[start].id.unwrap(),
                        date,
                        id,
                    );
                },
            }
        }
    }
    assert forall|k: int| 0 <= k < start implies !pred(#[trigger] txs[k]) by {}
    lemma_filter_is_suffix(txs, pred, start);
}

} // verus!
