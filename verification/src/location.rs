//! Location keys: the region that a free-text place or address names.
//!
//! A place such as `"10km NE of Healy, Alaska"` names its region in the part
//! after the last comma. The key of a text is that part without the whitespace
//! around it. A text without a comma is its own last part; a text whose last
//! part is blank has the empty key, which stands for "no region".

use vstd::prelude::*;
use crate::text::{is_whitespace, char_is_whitespace};

verus! {

/// The index at which the last comma-separated part of `s` begins: just after
/// the last comma, or 0 where there is none.
pub open spec fn segment_start(s: Seq<char>) -> nat
    decreases s.len(),
{
    if s.len() == 0 {
        0
    } else if s.last() == ',' {
        s.len()
    } else {
        segment_start(s.drop_last())
    }
}

/// The part of `s` after its last comma; all of `s` where there is none.
pub open spec fn last_segment(s: Seq<char>) -> Seq<char> {
    s.skip(segment_start(s) as int)
}

/// `s` without its leading whitespace.
pub open spec fn trim_start(s: Seq<char>) -> Seq<char>
    decreases s.len(),
{
    if s.len() > 0 && is_whitespace(s[0]) {
        trim_start(s.drop_first())
    } else {
        s
    }
}

/// `s` without its trailing whitespace.
pub open spec fn trim_end(s: Seq<char>) -> Seq<char>
    decreases s.len(),
{
    if s.len() > 0 && is_whitespace(s.last()) {
        trim_end(s.drop_last())
    } else {
        s
    }
}

/// `s` without the whitespace around it.
pub open spec fn trim(s: Seq<char>) -> Seq<char> {
    trim_end(trim_start(s))
}

/// The location key of a text: its last comma-separated part, trimmed.
pub open spec fn derived_key(s: Seq<char>) -> Seq<char> {
    trim(last_segment(s))
}

/// The last part begins inside `s`, just after a comma or at the very start,
/// and holds no comma itself.
pub proof fn lemma_segment_start(s: Seq<char>)
    ensures
        segment_start(s) <= s.len(),
        segment_start(s) > 0 ==> s[segment_start(s) - 1] == ',',
        forall|j: int| segment_start(s) <= j < s.len() ==> s[j] != ',',
    decreases s.len(),
{
    if s.len() > 0 && s.last() != ',' {
        let t = s.drop_last();
        lemma_segment_start(t);
        assert forall|j: int| segment_start(s) <= j < s.len() implies s[j] != ',' by {
            if j < t.len() {
                assert(t[j] == s[j]);
            }
        }
    }
}

/// A comma ends every earlier part: the last part of `s` followed by a comma
/// is empty.
pub proof fn lemma_last_segment_after_comma(s: Seq<char>)
    ensures
        last_segment(s.push(',')) == Seq::<char>::empty(),
{
    assert(s.push(',').last() == ',');
}

/// Any other character extends the last part.
pub proof fn lemma_last_segment_push(s: Seq<char>, c: char)
    requires
        c != ',',
    ensures
        last_segment(s.push(c)) == last_segment(s).push(c),
{
    lemma_segment_start(s);
    assert(s.push(c).drop_last() == s);
    assert(s.push(c).skip(segment_start(s) as int) == s.skip(segment_start(s) as int).push(c));
}

/// What `trim_start` returns: a suffix of `s` that begins with no whitespace,
/// after nothing but whitespace.
pub proof fn lemma_trim_start(s: Seq<char>)
    ensures
        trim_start(s).len() <= s.len(),
        trim_start(s) == s.skip(s.len() - trim_start(s).len()),
        trim_start(s).len() > 0 ==> !is_whitespace(trim_start(s)[0]),
        forall|j: int| 0 <= j < s.len() - trim_start(s).len() ==> is_whitespace(s[j]),
    decreases s.len(),
{
    if s.len() > 0 && is_whitespace(s[0]) {
        let t = s.drop_first();
        lemma_trim_start(t);
        let k = t.len() - trim_start(t).len();
        assert(t.skip(k) == s.skip(k + 1));
        assert forall|j: int| 0 <= j < s.len() - trim_start(s).len() implies is_whitespace(
            s[j],
        ) by {
            if j > 0 {
                assert(t[j - 1] == s[j]);
            }
        }
    } else {
        assert(s.skip(0) == s);
    }
}

/// What `trim_end` returns: a prefix of `s` that ends with no whitespace,
/// before nothing but whitespace.
pub proof fn lemma_trim_end(s: Seq<char>)
    ensures
        trim_end(s).len() <= s.len(),
        trim_end(s) == s.take(trim_end(s).len() as int),
        trim_end(s).len() > 0 ==> !is_whitespace(trim_end(s).last()),
        forall|j: int| trim_end(s).len() <= j < s.len() ==> is_whitespace(s[j]),
    decreases s.len(),
{
    if s.len() > 0 && is_whitespace(s.last()) {
        let t = s.drop_last();
        lemma_trim_end(t);
        assert(t.take(trim_end(t).len() as int) == s.take(trim_end(t).len() as int));
        assert forall|j: int| trim_end(s).len() <= j < s.len() implies is_whitespace(s[j]) by {
            if j < t.len() {
                assert(t[j] == s[j]);
            }
        }
    } else {
        assert(s.take(s.len() as int) == s);
    }
}

/// How `trim_start` grows with its argument: whitespace after nothing but
/// whitespace is dropped, and any other character is kept.
pub proof fn lemma_trim_start_push(s: Seq<char>, c: char)
    ensures
        trim_start(s.push(c)) == if trim_start(s).len() > 0 || !is_whitespace(c) {
            trim_start(s).push(c)
        } else {
            Seq::<char>::empty()
        },
    decreases s.len(),
{
    if s.len() == 0 {
        assert(s.push(c).drop_first() == Seq::<char>::empty());
        assert(trim_start(Seq::<char>::empty()) == Seq::<char>::empty());
    } else if is_whitespace(s[0]) {
        lemma_trim_start_push(s.drop_first(), c);
        assert(s.push(c).drop_first() == s.drop_first().push(c));
    } else {
        assert(s.push(c)[0] == s[0]);
    }
}

/// How `trim_end` grows with its argument: trailing whitespace changes
/// nothing, and any other character ends the result.
pub proof fn lemma_trim_end_push(s: Seq<char>, c: char)
    ensures
        trim_end(s.push(c)) == if is_whitespace(c) {
            trim_end(s)
        } else {
            s.push(c)
        },
{
    assert(s.push(c).drop_last() == s);
}

/// A key holds no comma and has no whitespace at either end.
pub proof fn lemma_derived_key_is_clean(s: Seq<char>)
    ensures
        forall|j: int| 0 <= j < derived_key(s).len() ==> derived_key(s)[j] != ',',
        derived_key(s).len() > 0 ==> !is_whitespace(derived_key(s)[0]),
        derived_key(s).len() > 0 ==> !is_whitespace(derived_key(s).last()),
{
    let seg = last_segment(s);
    let front = trim_start(seg);
    let key = trim_end(front);
    lemma_segment_start(s);
    lemma_trim_start(seg);
    lemma_trim_end(front);
    assert forall|j: int| 0 <= j < key.len() implies key[j] != ',' by {
        let k = seg.len() - front.len();
        assert(key[j] == front[j]);
        assert(front[j] == seg[k + j]);
        assert(seg[k + j] == s[segment_start(s) + k + j]);
    }
    if key.len() > 0 {
        assert(key[0] == front[0]);
    }
}

/// The key of a key is that key: deriving twice changes nothing.
pub proof fn lemma_derived_key_idempotent(s: Seq<char>)
    ensures
        derived_key(derived_key(s)) == derived_key(s),
{
    let key = derived_key(s);
    lemma_derived_key_is_clean(s);
    lemma_no_comma_is_own_segment(key);
    assert(last_segment(key) == key);
    assert(trim_start(key) == key);
    assert(trim_end(key) == key);
}

/// A text without a comma is its own last part.
pub proof fn lemma_no_comma_is_own_segment(s: Seq<char>)
    requires
        forall|j: int| 0 <= j < s.len() ==> s[j] != ',',
    ensures
        last_segment(s) == s,
{
    lemma_segment_start(s);
    assert(s.skip(0) == s);
}

/// Derives the location key of `text`: the part after its last comma, without
/// the whitespace around it. The key is empty where that part is blank.
pub fn location_key(text: &str) -> (key: String)
    ensures
        key@ == derived_key(text@),
{
    let total: usize = text.unicode_len();
    let mut from: usize = 0;
    let mut to: usize = 0;
    let mut seen: bool = false;
    let mut i: usize = 0;
    proof {
        assert(text@.take(0) == Seq::<char>::empty());
        assert(last_segment(Seq::<char>::empty()) == Seq::<char>::empty());
    }
    for c in it: text.chars()
        invariant
            it.seq() == text@,
            total == text@.len(),
            i == it.index(),
            from <= to <= i,
            seen ==> trim_start(last_segment(text@.take(i as int))) == text@.subrange(
                from as int,
                i as int,
            ),
            seen ==> from < to,
            seen ==> derived_key(text@.take(i as int)) == text@.subrange(from as int, to as int),
            !seen ==> trim_start(last_segment(text@.take(i as int))) == Seq::<char>::empty(),
    {
        proof {
            let p = text@.take(i as int);
            let seg = last_segment(p);
            assert(text@.take(i + 1) == p.push(c));
            if c == ',' {
                lemma_last_segment_after_comma(p);
            } else {
                lemma_last_segment_push(p, c);
                lemma_trim_start_push(seg, c);
                lemma_trim_end_push(trim_start(seg), c);
                lemma_trim_end_push(Seq::<char>::empty(), c);
                if seen {
                    assert(text@.subrange(from as int, i as int).push(c) == text@.subrange(
                        from as int,
                        i + 1,
                    ));
                } else {
                    assert(Seq::<char>::empty().push(c) == text@.subrange(i as int, i + 1));
                }
            }
        }
        if c == ',' {
            seen = false;
            from = i + 1;
            to = i + 1;
        } else if !char_is_whitespace(c) {
            if !seen {
                from = i;
                seen = true;
            }
            to = i + 1;
        }
        i = i + 1;
    }
    proof {
        assert(text@.take(i as int) == text@);
    }
    if seen {
        text.substring_char(from, to).to_owned()
    } else {
        String::new()
    }
}

} // verus!
