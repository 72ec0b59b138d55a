//! Splitting a delimited text into its pieces and trimming white space.

use vstd::prelude::*;
use vstd::string::*;

verus! {

/// Whether `char::is_whitespace` holds of a character: whether it has the
/// Unicode property White_Space.
pub uninterp spec fn is_white_space(c: char) -> bool;

/// Calls `char::is_whitespace`.
///
/// Trusted: the answer is the property named by [`is_white_space`].
#[verifier::external_body]
fn char_is_white_space(c: char) -> (b: bool)
    ensures
        b == is_white_space(c),
{
    c.is_whitespace()
}

/// The text without the white space it starts with.
pub open spec fn trimmed_start(s: Seq<char>) -> Seq<char>
    decreases s.len(),
{
    if s.len() > 0 && is_white_space(s[0]) {
        trimmed_start(s.skip(1))
    } else {
        s
    }
}

/// The text without the white space it ends with.
pub open spec fn trimmed_end(s: Seq<char>) -> Seq<char>
    decreases s.len(),
{
    if s.len() > 0 && is_white_space(s.last()) {
        trimmed_end(s.drop_last())
    } else {
        s
    }
}

/// The text without the white space around it.
pub open spec fn trimmed(s: Seq<char>) -> Seq<char> {
    trimmed_end(trimmed_start(s))
}

/// The pieces of a text between the occurrences of `delimiter`, in order.
/// A text without the delimiter is one piece, the empty text too.
pub open spec fn split_on(s: Seq<char>, delimiter: char) -> Seq<Seq<char>>
    decreases s.len(),
{
    if s.len() == 0 {
        seq![Seq::<char>::empty()]
    } else {
        let before = split_on(s.drop_last(), delimiter);
        if s.last() == delimiter {
            before.push(Seq::<char>::empty())
        } else {
            before.drop_last().push(before.last().push(s.last()))
        }
    }
}

/// The trimmed pieces of a text between its `/` signs.
pub open spec fn tag_texts(s: Seq<char>) -> Seq<Seq<char>> {
    split_on(s, '/').map_values(|piece: Seq<char>| trimmed(piece))
}

/// The texts that a vector of strings holds.
pub open spec fn texts(v: Seq<String>) -> Seq<Seq<char>> {
    v.map_values(|s: String| s@)
}

/// Returns the text without the white space around it.
pub fn trim(s: &str) -> (r: &str)
    ensures
        r@ == trimmed(s@),
{
    let n = s.unicode_len();
    let mut a: usize = 0;
    proof {
        assert(s@.skip(0) =~= s@);
    }
    while a < n && char_is_white_space(s.get_char(a))
        invariant
            a <= n,
            n == s@.len(),
            trimmed_start(s@) == trimmed_start(s@.skip(a as int)),
        decreases n - a,
    {
        proof {
            let rest = s@.skip(a as int);
            assert(rest[0] == s@[a as int]);
            assert(rest.skip(1) =~= s@.skip(a + 1));
        }
        a += 1;
    }
    proof {
        assert(s@.skip(a as int) =~= s@.subrange(a as int, n as int));
        if a < n {
            assert(s@.skip(a as int)[0] == s@[a as int]);
        }
    }
    let mut b: usize = n;
    while b > a && char_is_white_space(s.get_char(b - 1))
        invariant
            a <= b <= n,
            n == s@.len(),
            trimmed(s@) == trimmed_end(s@.subrange(a as int, b as int)),
        decreases b,
    {
        proof {
            let cur = s@.subrange(a as int, b as int);
            assert(cur.last() == s@[b - 1]);
            assert(cur.drop_last() =~= s@.subrange(a as int, b - 1));
        }
        b -= 1;
    }
    proof {
        let cur = s@.subrange(a as int, b as int);
        if b > a {
            assert(cur.last() == s@[b - 1]);
        }
    }
    s.substring_char(a, b)
}

/// Splits a text on `/` and trims each piece, as the type tags of a
/// spreadsheet row are written.
pub fn split_tags(s: &str) -> (tags: Vec<String>)
    ensures
        texts(tags@) == tag_texts(s@),
        tags@.len() >= 1,
{
    let n = s.unicode_len();
    let mut tags: Vec<String> = Vec::new();
    let mut start: usize = 0;
    let mut i: usize = 0;
    proof {
        assert(s@.take(0) =~= Seq::<char>::empty());
        assert(s@.subrange(0, 0) =~= Seq::<char>::empty());
        assert(split_on(s@.take(0), '/') =~= Seq::<Seq<char>>::empty().push(
            s@.subrange(0, 0),
        ));
    }
    while i < n
        invariant
            start <= i <= n,
            n == s@.len(),
            split_on(s@.take(i as int), '/').len() == tags@.len() + 1,
            split_on(s@.take(i as int), '/').last() == s@.subrange(start as int, i as int),
            forall|k: int|
                0 <= k < tags@.len() ==> #[trigger] tags@[k]@ == trimmed(
                    split_on(s@.take(i as int), '/')[k],
                ),
        decreases n - i,
    {
        let c = s.get_char(i);
        proof {
            let next = s@.take(i + 1);
            assert(next.drop_last() =~= s@.take(i as int));
            assert(next.last() == s@[i as int]);
            if c != '/' {
                assert(s@.subrange(start as int, i as int).push(c) =~= s@.subrange(
                    start as int,
                    i + 1,
                ));
            } else {
                assert(s@.subrange(i + 1, i + 1) =~= Seq::<char>::empty());
            }
        }
        if c == '/' {
            let piece = trim(s.substring_char(start, i));
            tags.push(piece.to_owned());
            start = i + 1;
        }
        i += 1;
    }
    let piece = trim(s.substring_char(start, n));
    tags.push(piece.to_owned());
    proof {
        assert(s@.take(n as int) =~= s@);
        assert(texts(tags@) =~= tag_texts(s@));
    }
    tags
}

} // verus!
