//! Tables keyed by location: what it means for a table to count or to group a
//! sequence of keys, and the order in which such a table is handed out.
//!
//! The model of the input is a sequence of keys, one for each event, in the
//! order of the events; the empty key marks an event that belongs to no
//! location. A table is a sequence of entries `(key, value)`. The tables that
//! the library returns hold one entry for each non-empty key that occurs, in
//! ascending order of the keys: for given events there is one such table only.

use vstd::prelude::*;
use itertools::Itertools;
use crate::text::{precedes, text_precedes};
use crate::text::{lemma_precedes_connected, lemma_precedes_irreflexive, lemma_precedes_transitive};

verus! {

/// The characters of each string of `v`.
pub open spec fn texts(v: Seq<String>) -> Seq<Seq<char>> {
    v.map_values(|s: String| s@)
}

/// A table with each key seen as its characters.
pub open spec fn keyed<V>(table: Seq<(String, V)>) -> Seq<(Seq<char>, V)> {
    table.map_values(|e: (String, V)| (e.0@, e.1))
}

/// A list of positions as mathematical integers.
pub open spec fn indices(v: Seq<usize>) -> Seq<int> {
    v.map_values(|p: usize| p as int)
}

/// The positions at which `keys` holds `k`, in ascending order.
pub open spec fn positions(keys: Seq<Seq<char>>, k: Seq<char>) -> Seq<int>
    decreases keys.len(),
{
    if keys.len() == 0 {
        Seq::empty()
    } else if keys.last() == k {
        positions(keys.drop_last(), k).push(keys.len() - 1)
    } else {
        positions(keys.drop_last(), k)
    }
}

/// How often `keys` holds `k`.
pub open spec fn occurrences(keys: Seq<Seq<char>>, k: Seq<char>) -> nat {
    positions(keys, k).len()
}

/// How many of `keys` are not empty.
pub open spec fn nonblank(keys: Seq<Seq<char>>) -> nat {
    keys.filter(|k: Seq<char>| k.len() > 0).len()
}

/// `keys` without every occurrence of `k`.
pub open spec fn without(keys: Seq<Seq<char>>, k: Seq<char>) -> Seq<Seq<char>> {
    keys.filter(|x: Seq<char>| x != k)
}

/// The sum of the counts of a count table.
pub open spec fn total(table: Seq<(Seq<char>, usize)>) -> nat
    decreases table.len(),
{
    if table.len() == 0 {
        0
    } else {
        total(table.drop_last()) + table.last().1 as nat
    }
}

/// No two entries of `table` have the same key.
pub open spec fn distinct_keys<V>(table: Seq<(Seq<char>, V)>) -> bool {
    forall|i: int, j: int|
        0 <= i < j < table.len() ==> (#[trigger] table[i]).0 != (#[trigger] table[j]).0
}

/// The keys of `table` ascend strictly.
pub open spec fn ascending_keys<V>(table: Seq<(Seq<char>, V)>) -> bool {
    forall|i: int, j: int|
        0 <= i < j < table.len() ==> precedes((#[trigger] table[i]).0, (#[trigger] table[j]).0)
}

/// `table` has an entry with the key `k`.
pub open spec fn has_key<V>(table: Seq<(Seq<char>, V)>, k: Seq<char>) -> bool {
    exists|i: int| 0 <= i < table.len() && (#[trigger] table[i]).0 == k
}

/// `table` holds, in any order, one entry for each key that occurs in `keys`,
/// the empty key included, and with it how often the key occurs.
pub open spec fn is_tally(keys: Seq<Seq<char>>, table: Seq<(Seq<char>, usize)>) -> bool {
    &&& distinct_keys(table)
    &&& forall|i: int|
        0 <= i < table.len() ==> keys.contains((#[trigger] table[i]).0) && table[i].1
            == occurrences(keys, table[i].0)
    &&& forall|k: Seq<char>| keys.contains(k) ==> #[trigger] has_key(table, k)
}

/// `table` holds, in any order, one entry for each key that occurs in `keys`,
/// the empty key included, and with it the positions at which the key occurs,
/// ascending.
pub open spec fn is_grouping(keys: Seq<Seq<char>>, table: Seq<(Seq<char>, Vec<usize>)>) -> bool {
    &&& distinct_keys(table)
    &&& forall|i: int|
        0 <= i < table.len() ==> keys.contains((#[trigger] table[i]).0) && indices(table[i].1@)
            == positions(keys, table[i].0)
    &&& forall|k: Seq<char>| keys.contains(k) ==> #[trigger] has_key(table, k)
}

/// `table` is the count table of `keys`: one entry for each non-empty key that
/// occurs in `keys`, with how often it occurs, in ascending order of the keys.
pub open spec fn counts_by_key(keys: Seq<Seq<char>>, table: Seq<(Seq<char>, usize)>) -> bool {
    &&& ascending_keys(table)
    &&& forall|i: int|
        0 <= i < table.len() ==> (#[trigger] table[i]).0.len() > 0 && keys.contains(table[i].0)
            && table[i].1 == occurrences(keys, table[i].0)
    &&& forall|k: Seq<char>| k.len() > 0 && keys.contains(k) ==> #[trigger] has_key(table, k)
}

/// `table` is the group table of `keys`: one entry for each non-empty key that
/// occurs in `keys`, with the positions at which it occurs, ascending, in
/// ascending order of the keys.
pub open spec fn groups_by_key(keys: Seq<Seq<char>>, table: Seq<(Seq<char>, Vec<usize>)>) -> bool {
    &&& ascending_keys(table)
    &&& forall|i: int|
        0 <= i < table.len() ==> (#[trigger] table[i]).0.len() > 0 && keys.contains(table[i].0)
            && indices(table[i].1@) == positions(keys, table[i].0)
    &&& forall|k: Seq<char>| k.len() > 0 && keys.contains(k) ==> #[trigger] has_key(table, k)
}

/// Counts the strings of `keys` with `Itertools::counts` and hands the
/// resulting map out as a list of its entries. Believed, not proved: the list
/// has one entry for each distinct string of `keys`, with the number of times
/// that string occurs. Nothing is said of the order of the entries, which is
/// that of a hash map.
#[verifier::external_body]
pub(crate) fn count_keys(keys: Vec<String>) -> (table: Vec<(String, usize)>)
    ensures
        is_tally(texts(keys@), keyed(table@)),
{
    keys.into_iter().counts().into_iter().collect()
}

/// Groups the positions of `keys` by the string found there with
/// `Itertools::into_group_map_by` and hands the resulting map out as a list of
/// its entries. Believed, not proved: the list has one entry for each distinct
/// string of `keys`, with the positions at which that string occurs, in
/// ascending order. Nothing is said of the order of the entries, which is that
/// of a hash map.
#[verifier::external_body]
pub(crate) fn group_keys(keys: &Vec<String>) -> (table: Vec<(String, Vec<usize>)>)
    ensures
        is_grouping(texts(keys@), keyed(table@)),
{
    keys.iter()
        .enumerate()
        .into_group_map_by(|item| item.1)
        .into_iter()
        .map(|(key, items)| (key.clone(), items.into_iter().map(|item| item.0).collect()))
        .collect()
}

/// What a sequence holds after an insertion: the new element and what it held.
pub proof fn lemma_insert_contains<A>(s: Seq<A>, p: int, x: A)
    requires
        0 <= p <= s.len(),
    ensures
        forall|y: A| #[trigger] s.insert(p, x).contains(y) <==> (y == x || s.contains(y)),
{
    let t = s.insert(p, x);
    s.insert_ensures(p, x);
    assert forall|y: A| #[trigger] t.contains(y) implies (y == x || s.contains(y)) by {
        let i = choose|i: int| 0 <= i < t.len() && t[i] == y;
        if i < p {
            assert(t[i] == s[i]);
        } else if i > p {
            assert(t[i] == s[i - 1]);
        }
    }
    assert forall|y: A| (y == x || s.contains(y)) implies #[trigger] t.contains(y) by {
        if y == x {
            assert(t[p] == x);
        } else {
            let i = choose|i: int| 0 <= i < s.len() && s[i] == y;
            if i < p {
                assert(t[i] == s[i]);
            } else {
                assert(t[i + 1] == s[i]);
            }
        }
    }
}

/// An entry with a new key, put behind the entries with smaller keys and
/// before the first entry without one, leaves an ascending table ascending.
pub proof fn lemma_insert_keeps_order<V>(table: Seq<(Seq<char>, V)>, p: int, fresh: (Seq<char>, V))
    requires
        ascending_keys(table),
        0 <= p <= table.len(),
        forall|q: int| 0 <= q < p ==> precedes((#[trigger] table[q]).0, fresh.0),
        p < table.len() ==> !precedes(table[p].0, fresh.0),
        !has_key(table, fresh.0),
    ensures
        ascending_keys(table.insert(p, fresh)),
{
    let after = table.insert(p, fresh);
    table.insert_ensures(p, fresh);
    assert forall|q: int| p <= q < table.len() implies precedes(
        fresh.0,
        (#[trigger] table[q]).0,
    ) by {
        assert(table[p].0 != fresh.0);
        lemma_precedes_connected(fresh.0, table[p].0);
        if q > p {
            lemma_precedes_transitive(fresh.0, table[p].0, table[q].0);
        }
    }
    assert forall|a: int, b: int| 0 <= a < b < after.len() implies precedes(
        (#[trigger] after[a]).0,
        (#[trigger] after[b]).0,
    ) by {
        if a < p {
            assert(after[a] == table[a]);
        } else if a > p {
            assert(after[a] == table[a - 1]);
        }
        if b < p {
            assert(after[b] == table[b]);
        } else if b > p {
            assert(after[b] == table[b - 1]);
        }
    }
}

/// In a table with distinct keys, the entries before an entry do not have its
/// key.
pub proof fn lemma_key_is_new<V>(table: Seq<(Seq<char>, V)>, n: int, part: Seq<(Seq<char>, V)>)
    requires
        distinct_keys(table),
        0 <= n < table.len(),
        forall|i: int| 0 <= i < part.len() ==> table.take(n).contains(#[trigger] part[i]),
    ensures
        !has_key(part, table[n].0),
{
    if has_key(part, table[n].0) {
        let i = choose|i: int| 0 <= i < part.len() && (#[trigger] part[i]).0 == table[n].0;
        assert(table.take(n).contains(part[i]));
        let j = choose|j: int| 0 <= j < table.take(n).len() && table.take(n)[j] == part[i];
        assert(table[j].0 == table[n].0);
    }
}

/// Puts the entries of `table` in ascending order of their keys and leaves out
/// the entry with the empty key.
pub(crate) fn in_key_order<V>(table: Vec<(String, V)>) -> (sorted: Vec<(String, V)>)
    requires
        distinct_keys(keyed(table@)),
    ensures
        ascending_keys(keyed(sorted@)),
        forall|i: int|
            0 <= i < sorted.len() ==> (#[trigger] keyed(sorted@)[i]).0.len() > 0 && keyed(
                table@,
            ).contains(keyed(sorted@)[i]),
        forall|j: int|
            0 <= j < table.len() && (#[trigger] keyed(table@)[j]).0.len() > 0 ==> keyed(
                sorted@,
            ).contains(keyed(table@)[j]),
{
    let ghost source = keyed(table@);
    let mut sorted: Vec<(String, V)> = Vec::new();
    for entry in it: table
        invariant
            it.seq() == table@,
            source == keyed(table@),
            distinct_keys(source),
            ascending_keys(keyed(sorted@)),
            forall|i: int|
                0 <= i < sorted.len() ==> (#[trigger] keyed(sorted@)[i]).0.len() > 0
                    && source.take(it.index() as int).contains(keyed(sorted@)[i]),
            forall|j: int|
                0 <= j < it.index() ==> (#[trigger] source[j]).0.len() > 0 ==> keyed(
                    sorted@,
                ).contains(source[j]),
    {
        let ghost n = it.index() as int;
        let ghost before = keyed(sorted@);
        let ghost fresh = (entry.0@, entry.1);
        proof {
            assert(source[n] == fresh);
            assert(source.take(n + 1) == source.take(n).push(fresh));
            assert forall|i: int| 0 <= i < before.len() implies source.take(n + 1).contains(
                #[trigger] before[i],
            ) by {
                let j = choose|j: int| 0 <= j < n && source.take(n)[j] == before[i];
                assert(source.take(n + 1)[j] == before[i]);
            }
        }
        if !entry.0.as_str().is_empty() {
            let mut p: usize = 0;
            while p < sorted.len() && text_precedes(sorted[p].0.as_str(), entry.0.as_str())
                invariant
                    p <= sorted.len(),
                    before == keyed(sorted@),
                    fresh.0 == entry.0@,
                    forall|q: int| 0 <= q < p ==> precedes((#[trigger] before[q]).0, fresh.0),
                decreases sorted.len() - p,
            {
                assert(before[p as int].0 == sorted[p as int].0@);
                p = p + 1;
            }
            proof {
                if p < sorted.len() {
                    assert(before[p as int].0 == sorted[p as int].0@);
                }
                lemma_key_is_new(source, n, before);
                lemma_insert_keeps_order(before, p as int, fresh);
                lemma_insert_contains(before, p as int, fresh);
            }
            sorted.insert(p, entry);
            proof {
                let after = keyed(sorted@);
                assert(after == before.insert(p as int, fresh));
                assert(source.take(n + 1).contains(fresh)) by {
                    assert(source.take(n + 1)[n] == fresh);
                }
                assert forall|i: int| 0 <= i < after.len() implies (#[trigger] after[i]).0.len() > 0
                    && source.take(n + 1).contains(after[i]) by {
                    assert(after.contains(after[i]));
                    if after[i] != fresh {
                        let i0 = choose|i0: int| 0 <= i0 < before.len() && before[i0] == after[i];
                        assert(before[i0].0.len() > 0);
                    }
                }
            }
        }
    }
    proof {
        assert(source.take(table.len() as int) == source);
    }
    sorted
}

/// What `positions` returns: ascending positions of `keys`, each of which
/// holds `k`, and none that holds `k` is missing.
pub proof fn lemma_positions(keys: Seq<Seq<char>>, k: Seq<char>)
    ensures
        positions(keys, k).len() <= keys.len(),
        forall|i: int|
            0 <= i < positions(keys, k).len() ==> 0 <= (#[trigger] positions(keys, k)[i])
                < keys.len() && keys[positions(keys, k)[i]] == k,
        forall|i: int, j: int|
            0 <= i < j < positions(keys, k).len() ==> (#[trigger] positions(keys, k)[i])
                < (#[trigger] positions(keys, k)[j]),
        forall|p: int|
            0 <= p < keys.len() && #[trigger] keys[p] == k ==> positions(keys, k).contains(p),
    decreases keys.len(),
{
    if keys.len() > 0 {
        let front = keys.drop_last();
        let before = positions(front, k);
        let all = positions(keys, k);
        lemma_positions(front, k);
        assert forall|i: int| 0 <= i < all.len() implies 0 <= (#[trigger] all[i]) < keys.len()
            && keys[all[i]] == k by {
            if i < before.len() {
                assert(all[i] == before[i]);
                assert(front[before[i]] == keys[before[i]]);
            }
        }
        assert forall|i: int, j: int| 0 <= i < j < all.len() implies (#[trigger] all[i]) < (
        #[trigger] all[j]) by {
            assert(all[i] == before[i]);
            if j < before.len() {
                assert(all[j] == before[j]);
            }
        }
        assert forall|p: int| 0 <= p < keys.len() && #[trigger] keys[p] == k implies all.contains(
            p,
        ) by {
            if p < front.len() {
                assert(front[p] == k);
                let i = choose|i: int| 0 <= i < before.len() && before[i] == p;
                assert(all[i] == p);
            } else {
                assert(all[all.len() - 1] == p);
            }
        }
    }
}

/// A key occurs in `keys` exactly when it is counted at least once.
pub proof fn lemma_contains_iff_occurs(keys: Seq<Seq<char>>, k: Seq<char>)
    ensures
        keys.contains(k) <==> occurrences(keys, k) > 0,
{
    lemma_positions(keys, k);
    if keys.contains(k) {
        let p = choose|p: int| 0 <= p < keys.len() && keys[p] == k;
        assert(positions(keys, k).contains(p));
    }
    if occurrences(keys, k) > 0 {
        let p = positions(keys, k)[0];
        assert(keys[p] == k);
    }
}

/// How `nonblank` grows with `keys`.
pub proof fn lemma_nonblank_push(keys: Seq<Seq<char>>, x: Seq<char>)
    ensures
        nonblank(keys.push(x)) == nonblank(keys) + if x.len() > 0 {
            1nat
        } else {
            0nat
        },
{
    keys.lemma_filter_push(x, |k: Seq<char>| k.len() > 0);
}

/// How `without` grows with `keys`.
pub proof fn lemma_without_push(keys: Seq<Seq<char>>, x: Seq<char>, k: Seq<char>)
    ensures
        without(keys.push(x), k) == if x != k {
            without(keys, k).push(x)
        } else {
            without(keys, k)
        },
{
    reveal(Seq::filter);
    assert(keys.push(x).drop_last() == keys);
}

/// Taking every occurrence of `k` out of `keys` leaves no `k`, leaves the
/// count of any other key as it was, and takes as many non-empty keys away as
/// `k` occurred, if `k` is not empty.
pub proof fn lemma_without(keys: Seq<Seq<char>>, k: Seq<char>, other: Seq<char>)
    requires
        other != k,
    ensures
        occurrences(without(keys, k), k) == 0,
        occurrences(without(keys, k), other) == occurrences(keys, other),
        nonblank(keys) == nonblank(without(keys, k)) + if k.len() > 0 {
            occurrences(keys, k)
        } else {
            0nat
        },
    decreases keys.len(),
{
    if keys.len() == 0 {
        assert(without(keys, k) == keys) by {
            reveal(Seq::filter);
        }
        assert(nonblank(keys) == 0) by {
            reveal(Seq::filter);
        }
    } else {
        let front = keys.drop_last();
        let x = keys.last();
        assert(keys == front.push(x));
        lemma_without(front, k, other);
        lemma_without_push(front, x, k);
        lemma_nonblank_push(front, x);
        if x != k {
            lemma_nonblank_push(without(front, k), x);
            assert(without(front, k).push(x).drop_last() == without(front, k));
        }
    }
}

/// The counts of a count table add up to the number of non-empty keys.
pub proof fn lemma_counts_total(keys: Seq<Seq<char>>, table: Seq<(Seq<char>, usize)>)
    requires
        counts_by_key(keys, table),
    ensures
        total(table) == nonblank(keys),
{
    lemma_ascending_is_distinct(table);
    lemma_total_of_distinct(keys, table);
}

/// Strictly ascending keys are distinct.
pub proof fn lemma_ascending_is_distinct<V>(table: Seq<(Seq<char>, V)>)
    requires
        ascending_keys(table),
    ensures
        distinct_keys(table),
{
    assert forall|i: int, j: int| 0 <= i < j < table.len() implies (#[trigger] table[i]).0 != (
    #[trigger] table[j]).0 by {
        lemma_precedes_irreflexive(table[i].0);
    }
}

/// The counts of a table add up to the number of non-empty keys whatever the
/// order of its entries, as long as it has an entry for each non-empty key
/// that occurs and no two for one key.
pub proof fn lemma_total_of_distinct(keys: Seq<Seq<char>>, table: Seq<(Seq<char>, usize)>)
    requires
        distinct_keys(table),
        forall|i: int|
            0 <= i < table.len() ==> (#[trigger] table[i]).0.len() > 0 && table[i].1
                == occurrences(keys, table[i].0),
        forall|k: Seq<char>| k.len() > 0 && keys.contains(k) ==> #[trigger] has_key(table, k),
    ensures
        total(table) == nonblank(keys),
    decreases table.len(),
{
    if table.len() == 0 {
        assert forall|i: int| 0 <= i < keys.len() implies (#[trigger] keys[i]).len() == 0 by {
            if keys[i].len() > 0 {
                assert(keys.contains(keys[i]));
                assert(has_key(table, keys[i]));
            }
        }
        let wanted = |k: Seq<char>| k.len() > 0;
        assert(keys.all(|x: Seq<char>| !wanted(x)));
        keys.lemma_all_neg_filter_empty(wanted);
    } else {
        let front = table.drop_last();
        let k = table.last().0;
        let rest = without(keys, k);
        assert(table[table.len() - 1].0 == k);
        assert forall|i: int| 0 <= i < front.len() implies (#[trigger] front[i]).0.len() > 0
            && front[i].1 == occurrences(rest, front[i].0) by {
            assert(front[i] == table[i]);
            lemma_without(keys, k, front[i].0);
        }
        assert forall|other: Seq<char>| other.len() > 0 && rest.contains(other) implies #[trigger] has_key(
            front,
            other,
        ) by {
            lemma_contains_iff_occurs(rest, other);
            if other != k {
                lemma_without(keys, k, other);
                lemma_contains_iff_occurs(keys, other);
                assert(has_key(table, other));
                let i = choose|i: int| 0 <= i < table.len() && (#[trigger] table[i]).0 == other;
                assert(front[i] == table[i]);
            } else {
                lemma_without(keys, k, Seq::<char>::empty());
            }
        }
        assert(distinct_keys(front)) by {
            assert forall|i: int, j: int| 0 <= i < j < front.len() implies (#[trigger] front[i]).0
                != (#[trigger] front[j]).0 by {
                assert(front[i] == table[i]);
                assert(front[j] == table[j]);
            }
        }
        lemma_total_of_distinct(rest, front);
        lemma_without(keys, k, Seq::<char>::empty());
    }
}

/// Two ascending tables that have the same keys have them at the same places.
pub proof fn lemma_same_keys_same_places<V, W>(
    a: Seq<(Seq<char>, V)>,
    b: Seq<(Seq<char>, W)>,
)
    requires
        ascending_keys(a),
        ascending_keys(b),
        forall|i: int| 0 <= i < a.len() ==> has_key(b, (#[trigger] a[i]).0),
        forall|j: int| 0 <= j < b.len() ==> has_key(a, (#[trigger] b[j]).0),
    ensures
        a.len() == b.len(),
        forall|i: int| 0 <= i < a.len() ==> (#[trigger] a[i]).0 == b[i].0,
    decreases a.len(),
{
    if a.len() == 0 {
        if b.len() > 0 {
            assert(has_key(a, b[0].0));
        }
    } else {
        assert(has_key(b, a[0].0));
        let j0 = choose|j: int| 0 <= j < b.len() && (#[trigger] b[j]).0 == a[0].0;
        assert(has_key(a, b[0].0));
        let i0 = choose|i: int| 0 <= i < a.len() && (#[trigger] a[i]).0 == b[0].0;
        if i0 > 0 {
            // b[0] is a[i0], behind a[0], which is b[j0], not before b[0].
            if j0 > 0 {
                lemma_precedes_transitive(a[0].0, a[i0].0, b[j0].0);
            }
            lemma_precedes_irreflexive(a[0].0);
        }
        assert(a[0].0 == b[0].0);
        let a1 = a.drop_first();
        let b1 = b.drop_first();
        assert forall|i: int| 0 <= i < a1.len() implies has_key(b1, (#[trigger] a1[i]).0) by {
            assert(a1[i] == a[i + 1]);
            assert(has_key(b, a[i + 1].0));
            let j = choose|j: int| 0 <= j < b.len() && (#[trigger] b[j]).0 == a[i + 1].0;
            lemma_precedes_irreflexive(a[0].0);
            assert(j > 0);
            assert(b1[j - 1] == b[j]);
        }
        assert forall|j: int| 0 <= j < b1.len() implies has_key(a1, (#[trigger] b1[j]).0) by {
            assert(b1[j] == b[j + 1]);
            assert(has_key(a, b[j + 1].0));
            let i = choose|i: int| 0 <= i < a.len() && (#[trigger] a[i]).0 == b[j + 1].0;
            lemma_precedes_irreflexive(b[0].0);
            assert(i > 0);
            assert(a1[i - 1] == a[i]);
        }
        assert(ascending_keys(a1)) by {
            assert forall|i: int, j: int| 0 <= i < j < a1.len() implies precedes(
                (#[trigger] a1[i]).0,
                (#[trigger] a1[j]).0,
            ) by {
                assert(a1[i] == a[i + 1]);
                assert(a1[j] == a[j + 1]);
            }
        }
        assert(ascending_keys(b1)) by {
            assert forall|i: int, j: int| 0 <= i < j < b1.len() implies precedes(
                (#[trigger] b1[i]).0,
                (#[trigger] b1[j]).0,
            ) by {
                assert(b1[i] == b[i + 1]);
                assert(b1[j] == b[j + 1]);
            }
        }
        lemma_same_keys_same_places(a1, b1);
        assert forall|i: int| 0 <= i < a.len() implies (#[trigger] a[i]).0 == b[i].0 by {
            if i > 0 {
                assert(a1[i - 1] == a[i]);
                assert(b1[i - 1] == b[i]);
            }
        }
    }
}

/// Given keys have one count table only.
pub proof fn lemma_counts_unique(
    keys: Seq<Seq<char>>,
    a: Seq<(Seq<char>, usize)>,
    b: Seq<(Seq<char>, usize)>,
)
    requires
        counts_by_key(keys, a),
        counts_by_key(keys, b),
    ensures
        a == b,
{
    lemma_same_keys_same_places(a, b);
    assert(a =~= b);
}

/// Given keys have one group table only: two of them hold the same keys and
/// the same positions.
pub proof fn lemma_groups_unique(
    keys: Seq<Seq<char>>,
    a: Seq<(Seq<char>, Vec<usize>)>,
    b: Seq<(Seq<char>, Vec<usize>)>,
)
    requires
        groups_by_key(keys, a),
        groups_by_key(keys, b),
    ensures
        a.len() == b.len(),
        forall|i: int| 0 <= i < a.len() ==> (#[trigger] a[i]).0 == b[i].0 && a[i].1@ == b[i].1@,
{
    lemma_same_keys_same_places(a, b);
    assert forall|i: int| 0 <= i < a.len() implies (#[trigger] a[i]).0 == b[i].0 && a[i].1@
        == b[i].1@ by {
        let x = a[i].1@;
        let y = b[i].1@;
        assert(indices(x) == indices(y));
        assert(x.len() == indices(x).len());
        assert(y.len() == indices(y).len());
        assert forall|j: int| 0 <= j < x.len() implies x[j] == y[j] by {
            assert(indices(x)[j] == x[j] as int);
            assert(indices(y)[j] == y[j] as int);
        }
        assert(x =~= y);
    }
}

/// The count table and the group table of the same keys have the same keys,
/// no group is empty, and each count is the size of the group.
pub proof fn lemma_counts_match_groups(
    keys: Seq<Seq<char>>,
    counts: Seq<(Seq<char>, usize)>,
    groups: Seq<(Seq<char>, Vec<usize>)>,
)
    requires
        counts_by_key(keys, counts),
        groups_by_key(keys, groups),
    ensures
        counts.len() == groups.len(),
        forall|i: int|
            0 <= i < counts.len() ==> (#[trigger] counts[i]).0 == groups[i].0 && counts[i].1
                == groups[i].1.len() && groups[i].1.len() > 0,
{
    lemma_same_keys_same_places(counts, groups);
    assert forall|i: int| 0 <= i < counts.len() implies (#[trigger] counts[i]).0 == groups[i].0
        && counts[i].1 == groups[i].1.len() && groups[i].1.len() > 0 by {
        assert(indices(groups[i].1@).len() == groups[i].1@.len());
        lemma_contains_iff_occurs(keys, groups[i].0);
    }
}

/// No group is empty.
pub proof fn lemma_groups_not_empty(
    keys: Seq<Seq<char>>,
    groups: Seq<(Seq<char>, Vec<usize>)>,
    i: int,
)
    requires
        groups_by_key(keys, groups),
        0 <= i < groups.len(),
    ensures
        groups[i].1.len() > 0,
{
    lemma_contains_iff_occurs(keys, groups[i].0);
    assert(indices(groups[i].1@).len() == groups[i].1@.len());
}

/// Each position of a group is a position of `keys`, and the key found there
/// is the key of the group.
pub proof fn lemma_group_members(
    keys: Seq<Seq<char>>,
    groups: Seq<(Seq<char>, Vec<usize>)>,
    i: int,
    j: int,
)
    requires
        groups_by_key(keys, groups),
        0 <= i < groups.len(),
        0 <= j < groups[i].1.len(),
    ensures
        groups[i].1[j] < keys.len(),
        keys[groups[i].1[j] as int] == groups[i].0,
{
    lemma_positions(keys, groups[i].0);
    assert(indices(groups[i].1@)[j] == groups[i].1[j] as int);
    assert(positions(keys, groups[i].0)[j] == groups[i].1[j] as int);
}

/// An event with a non-empty key is in the group of that key and in no other
/// group; an event with the empty key is in no group.
pub proof fn lemma_event_in_one_group(
    keys: Seq<Seq<char>>,
    groups: Seq<(Seq<char>, Vec<usize>)>,
    p: int,
)
    requires
        groups_by_key(keys, groups),
        0 <= p < keys.len(),
    ensures
        keys[p].len() > 0 ==> exists|i: int|
            0 <= i < groups.len() && (#[trigger] groups[i]).0 == keys[p] && indices(
                groups[i].1@,
            ).contains(p),
        forall|i: int|
            0 <= i < groups.len() && indices((#[trigger] groups[i]).1@).contains(p) ==> groups[i].0
                == keys[p],
{
    if keys[p].len() > 0 {
        assert(keys.contains(keys[p]));
        assert(has_key(groups, keys[p]));
        let i = choose|i: int| 0 <= i < groups.len() && (#[trigger] groups[i]).0 == keys[p];
        lemma_positions(keys, keys[p]);
        assert(indices(groups[i].1@).contains(p));
    }
    assert forall|i: int|
        0 <= i < groups.len() && indices((#[trigger] groups[i]).1@).contains(p) implies groups[i].0
        == keys[p] by {
        lemma_positions(keys, groups[i].0);
        let found = positions(keys, groups[i].0);
        let j = choose|j: int| 0 <= j < found.len() && found[j] == p;
        assert(keys[found[j]] == groups[i].0);
    }
}

} // verus!
