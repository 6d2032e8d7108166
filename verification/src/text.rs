//! Character-level primitives on text: whitespace, equality and the
//! lexicographic order by code point.
//!
//! A `&str` is seen through its view, the sequence of its characters. The order
//! defined here is the order of `str` itself: UTF-8 keeps the order of code
//! points, so comparing strings byte by byte and comparing them character by
//! character give the same answer.

use vstd::prelude::*;
use vstd::std_specs::iter::IteratorSpec;

verus! {

/// The characters with the Unicode property `White_Space`.
pub open spec fn is_whitespace(c: char) -> bool {
    let u = c as u32;
    ||| 0x09 <= u <= 0x0D
    ||| u == 0x20
    ||| u == 0x85
    ||| u == 0xA0
    ||| u == 0x1680
    ||| 0x2000 <= u <= 0x200A
    ||| u == 0x2028
    ||| u == 0x2029
    ||| u == 0x202F
    ||| u == 0x205F
    ||| u == 0x3000
}

/// `x` has a smaller code point than `y`.
pub open spec fn char_before(x: char, y: char) -> bool {
    (x as u32) < (y as u32)
}

/// The number of leading positions at which `a` and `b` hold the same character.
pub open spec fn common_prefix_len(a: Seq<char>, b: Seq<char>) -> nat
    decreases a.len(),
{
    if a.len() == 0 || b.len() == 0 || a[0] != b[0] {
        0
    } else {
        1 + common_prefix_len(a.drop_first(), b.drop_first())
    }
}

/// `a` comes strictly before `b` in lexicographic order: at the first position
/// where they differ, `a` has ended or holds the smaller character.
pub open spec fn precedes(a: Seq<char>, b: Seq<char>) -> bool {
    let p = common_prefix_len(a, b) as int;
    p < b.len() && (p == a.len() || char_before(a[p], b[p]))
}

/// `a` comes before `b` or is `b`.
pub open spec fn precedes_or_same(a: Seq<char>, b: Seq<char>) -> bool {
    a == b || precedes(a, b)
}

/// The character of `a` at index `p`, if `a` is that long.
pub open spec fn char_at(a: Seq<char>, p: int) -> Option<char> {
    if 0 <= p < a.len() {
        Some(a[p])
    } else {
        None
    }
}

/// Two different characters have different code points.
pub proof fn lemma_char_before_connected(x: char, y: char)
    ensures
        x == y || char_before(x, y) || char_before(y, x),
{
    vstd::utf8::char_u32_cast(x, x as u32);
    vstd::utf8::char_u32_cast(y, y as u32);
}

/// What `common_prefix_len` returns: the two sequences agree before it, and at
/// it one of them has ended or they differ.
pub proof fn lemma_common_prefix(a: Seq<char>, b: Seq<char>)
    ensures
        common_prefix_len(a, b) <= a.len(),
        common_prefix_len(a, b) <= b.len(),
        forall|j: int| 0 <= j < common_prefix_len(a, b) ==> a[j] == b[j],
        common_prefix_len(a, b) < a.len() && common_prefix_len(a, b) < b.len() ==> a[common_prefix_len(
            a,
            b,
        ) as int] != b[common_prefix_len(a, b) as int],
    decreases a.len(),
{
    if a.len() == 0 || b.len() == 0 || a[0] != b[0] {
    } else {
        let a1 = a.drop_first();
        let b1 = b.drop_first();
        lemma_common_prefix(a1, b1);
        let p = common_prefix_len(a1, b1) as int;
        assert forall|j: int| 0 <= j < p + 1 implies a[j] == b[j] by {
            if j > 0 {
                assert(a1[j - 1] == a[j]);
                assert(b1[j - 1] == b[j]);
            }
        }
        if p < a1.len() && p < b1.len() {
            assert(a1[p] == a[p + 1]);
            assert(b1[p] == b[p + 1]);
        }
    }
}

/// Only one position has the properties of `lemma_common_prefix`.
pub proof fn lemma_common_prefix_is(a: Seq<char>, b: Seq<char>, p: int)
    requires
        0 <= p <= a.len(),
        p <= b.len(),
        forall|j: int| 0 <= j < p ==> a[j] == b[j],
        p == a.len() || p == b.len() || a[p] != b[p],
    ensures
        common_prefix_len(a, b) == p,
{
    lemma_common_prefix(a, b);
}

/// Two sequences are equal exactly when neither ends nor differs before the
/// other does.
pub proof fn lemma_same_iff_no_mismatch(a: Seq<char>, b: Seq<char>)
    ensures
        a == b <==> (common_prefix_len(a, b) == a.len() && common_prefix_len(a, b) == b.len()),
{
    lemma_common_prefix(a, b);
    if common_prefix_len(a, b) == a.len() && common_prefix_len(a, b) == b.len() {
        assert(a =~= b);
    }
}

/// No sequence comes before itself.
pub proof fn lemma_precedes_irreflexive(a: Seq<char>)
    ensures
        !precedes(a, a),
{
    lemma_same_iff_no_mismatch(a, a);
}

/// Of two sequences that come before each other there are none.
pub proof fn lemma_precedes_asymmetric(a: Seq<char>, b: Seq<char>)
    ensures
        !(precedes(a, b) && precedes(b, a)),
{
    lemma_common_prefix(a, b);
    lemma_common_prefix_is(b, a, common_prefix_len(a, b) as int);
}

/// Two different sequences are ordered one way or the other.
pub proof fn lemma_precedes_connected(a: Seq<char>, b: Seq<char>)
    ensures
        a == b || precedes(a, b) || precedes(b, a),
{
    lemma_common_prefix(a, b);
    let p = common_prefix_len(a, b) as int;
    lemma_common_prefix_is(b, a, p);
    lemma_same_iff_no_mismatch(a, b);
    if p < a.len() && p < b.len() {
        lemma_char_before_connected(a[p], b[p]);
    }
}

/// The order is transitive.
pub proof fn lemma_precedes_transitive(a: Seq<char>, b: Seq<char>, c: Seq<char>)
    requires
        precedes(a, b),
        precedes(b, c),
    ensures
        precedes(a, c),
{
    lemma_common_prefix(a, b);
    lemma_common_prefix(b, c);
    let p = common_prefix_len(a, b) as int;
    let q = common_prefix_len(b, c) as int;
    let r = if p <= q {
        p
    } else {
        q
    };
    lemma_common_prefix_is(a, c, r);
}

/// `precedes_or_same` is a total order on character sequences.
pub proof fn lemma_precedes_or_same_total_order()
    ensures
        forall|a: Seq<char>| #[trigger] precedes_or_same(a, a),
        forall|a: Seq<char>, b: Seq<char>|
            #[trigger] precedes_or_same(a, b) && #[trigger] precedes_or_same(b, a) ==> a == b,
        forall|a: Seq<char>, b: Seq<char>|
            #[trigger] precedes_or_same(a, b) || #[trigger] precedes_or_same(b, a),
        forall|a: Seq<char>, b: Seq<char>, c: Seq<char>|
            #[trigger] precedes_or_same(a, b) && #[trigger] precedes_or_same(b, c)
                ==> precedes_or_same(a, c),
{
    assert forall|a: Seq<char>, b: Seq<char>|
        #[trigger] precedes_or_same(a, b) && #[trigger] precedes_or_same(b, a) implies a == b by {
        lemma_precedes_asymmetric(a, b);
    }
    assert forall|a: Seq<char>, b: Seq<char>|
        #[trigger] precedes_or_same(a, b) || #[trigger] precedes_or_same(b, a) by {
        lemma_precedes_connected(a, b);
    }
    assert forall|a: Seq<char>, b: Seq<char>, c: Seq<char>|
        #[trigger] precedes_or_same(a, b) && #[trigger] precedes_or_same(b, c) implies precedes_or_same(
        a,
        c,
    ) by {
        if a != b && b != c {
            lemma_precedes_transitive(a, b, c);
        }
    }
}

/// Whether `c` is a whitespace character.
pub fn char_is_whitespace(c: char) -> (r: bool)
    ensures
        r == is_whitespace(c),
{
    let u: u32 = c as u32;
    (0x09 <= u && u <= 0x0D) || u == 0x20 || u == 0x85 || u == 0xA0 || u == 0x1680 || (0x2000 <= u
        && u <= 0x200A) || u == 0x2028 || u == 0x2029 || u == 0x202F || u == 0x205F || u == 0x3000
}

/// Walks `a` and `b` together and returns the characters at the first position
/// where they part: `None` on the side of a string that has ended there.
fn first_mismatch(a: &str, b: &str) -> (r: (Option<char>, Option<char>))
    ensures
        r.0 == char_at(a@, common_prefix_len(a@, b@) as int),
        r.1 == char_at(b@, common_prefix_len(a@, b@) as int),
{
    let mut rest = b.chars();
    for x in it: a.chars()
        invariant
            it.seq() == a@,
            rest.obeys_prophetic_iter_laws(),
            it.index() <= b@.len(),
            rest.remaining() == b@.skip(it.index() as int),
            forall|j: int| 0 <= j < it.index() ==> a@[j] == b@[j],
    {
        let ghost p = it.index() as int;
        let y = rest.next();
        match y {
            None => {
                proof {
                    lemma_common_prefix_is(a@, b@, p);
                }
                return (Some(x), None);
            },
            Some(y) => {
                assert(y == b@[p]);
                if x != y {
                    proof {
                        lemma_common_prefix_is(a@, b@, p);
                    }
                    return (Some(x), Some(y));
                }
                assert(b@.skip(p).drop_first() == b@.skip(p + 1));
            },
        }
    }
    let y = rest.next();
    proof {
        lemma_common_prefix_is(a@, b@, a@.len() as int);
        if b@.len() > a@.len() {
            assert(y == Some(b@[a@.len() as int]));
        }
    }
    (None, y)
}

/// Whether `a` and `b` hold the same characters.
pub fn same_text(a: &str, b: &str) -> (r: bool)
    ensures
        r == (a@ == b@),
{
    proof {
        lemma_same_iff_no_mismatch(a@, b@);
        lemma_common_prefix(a@, b@);
    }
    match first_mismatch(a, b) {
        (None, None) => true,
        _ => false,
    }
}

/// Whether `a` comes strictly before `b` in lexicographic order.
pub fn text_precedes(a: &str, b: &str) -> (r: bool)
    ensures
        r == precedes(a@, b@),
{
    proof {
        lemma_common_prefix(a@, b@);
    }
    match first_mismatch(a, b) {
        (None, Some(_)) => true,
        (Some(x), Some(y)) => (x as u32) < (y as u32),
        _ => false,
    }
}

} // verus!
