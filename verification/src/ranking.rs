//! Ranking of a table by its values.
//!
//! The entry with the greater value ranks first; of two entries with the same
//! value, the one whose key comes first in lexicographic order. On entries
//! this is a total order, so a table has one ranking only, whatever the order
//! in which its entries are presented.

use vstd::prelude::*;
use vstd::relations::{sorted_by, total_ordering};
use vstd::seq_lib::{lemma_multiset_commutative, lemma_sorted_unique};
use core::cmp::Ordering;
use vstd::std_specs::cmp::PartialOrdSpec;
use crate::grouping::keyed;
use crate::text::{precedes, precedes_or_same, text_precedes};
use crate::text::{
    lemma_precedes_asymmetric,
    lemma_precedes_connected,
    lemma_precedes_or_same_total_order,
};

verus! {

/// `x` is greater than `y`.
pub open spec fn value_above<T: PartialOrd>(x: T, y: T) -> bool {
    x.partial_cmp_spec(&y) == Some(Ordering::Greater)
}

/// `x` and `y` compare as equal.
pub open spec fn value_same<T: PartialOrd>(x: T, y: T) -> bool {
    x.partial_cmp_spec(&y) == Some(Ordering::Equal)
}

/// The comparison of `T` is a total order: it is the one that the
/// specification of `T` gives, any two values are comparable, only a value
/// itself compares as equal to it, and "greater" is asymmetric and transitive.
pub open spec fn is_total_order<T: PartialOrd>() -> bool {
    &&& T::obeys_partial_cmp_spec()
    &&& forall|x: T, y: T| #[trigger] value_above(x, y) || value_same(x, y) || value_above(y, x)
    &&& forall|x: T, y: T| #[trigger] value_same(x, y) <==> x == y
    &&& forall|x: T, y: T| !(#[trigger] value_above(x, y) && #[trigger] value_above(y, x))
    &&& forall|x: T, y: T, z: T|
        #[trigger] value_above(x, y) && #[trigger] value_above(y, z) ==> value_above(x, z)
}

/// `a` ranks no later than `b`: it has the greater value, or the same value and
/// a key that does not come after that of `b`.
pub open spec fn outranks<T: PartialOrd>(a: (Seq<char>, T), b: (Seq<char>, T)) -> bool {
    value_above(a.1, b.1) || (value_same(a.1, b.1) && precedes_or_same(a.0, b.0))
}

/// `outranks` as a relation.
pub open spec fn rank_order<T: PartialOrd>() -> spec_fn((Seq<char>, T), (Seq<char>, T)) -> bool {
    |a: (Seq<char>, T), b: (Seq<char>, T)| outranks(a, b)
}

/// The entries of a table in the order of their ranks.
pub open spec fn ranking<T: PartialOrd>(entries: Seq<(Seq<char>, T)>) -> Seq<(Seq<char>, T)> {
    entries.sort_by(rank_order::<T>())
}

/// Along `table` the values never ascend.
pub open spec fn descending_values<T: PartialOrd>(table: Seq<(Seq<char>, T)>) -> bool {
    forall|i: int, j: int|
        0 <= i < j < table.len() ==> !value_above((#[trigger] table[j]).1, (#[trigger] table[i]).1)
}

/// The length of the first `n` of `len` entries.
pub open spec fn at_most(n: nat, len: nat) -> nat {
    if n <= len {
        n
    } else {
        len
    }
}

/// The unsigned machine integers are totally ordered.
pub proof fn lemma_unsigned_total_order()
    ensures
        is_total_order::<u8>(),
        is_total_order::<u16>(),
        is_total_order::<u32>(),
        is_total_order::<u64>(),
        is_total_order::<u128>(),
        is_total_order::<usize>(),
{
}

/// The signed machine integers are totally ordered.
pub proof fn lemma_signed_total_order()
    ensures
        is_total_order::<i8>(),
        is_total_order::<i16>(),
        is_total_order::<i32>(),
        is_total_order::<i64>(),
        is_total_order::<i128>(),
        is_total_order::<isize>(),
{
}

/// Over totally ordered values, `outranks` is a total order on entries.
pub proof fn lemma_rank_order_total<T: PartialOrd>()
    requires
        is_total_order::<T>(),
    ensures
        total_ordering(rank_order::<T>()),
{
    let r = rank_order::<T>();
    lemma_precedes_or_same_total_order();
    assert forall|a: (Seq<char>, T)| #[trigger] r(a, a) by {
        assert(value_same(a.1, a.1));
    }
    assert forall|a: (Seq<char>, T), b: (Seq<char>, T)| #[trigger] r(a, b) && #[trigger] r(
        b,
        a,
    ) implies a == b by {
        assert(!(value_above(a.1, b.1) && value_above(b.1, a.1)));
        assert(value_same(a.1, b.1) <==> a.1 == b.1);
        assert(value_same(b.1, a.1) <==> b.1 == a.1);
        assert(precedes_or_same(a.0, b.0) && precedes_or_same(b.0, a.0));
    }
    assert forall|a: (Seq<char>, T), b: (Seq<char>, T)| #[trigger] r(a, b) || #[trigger] r(
        b,
        a,
    ) by {
        assert(value_above(a.1, b.1) || value_same(a.1, b.1) || value_above(b.1, a.1));
        assert(value_same(a.1, b.1) <==> a.1 == b.1);
        assert(value_same(b.1, a.1) <==> b.1 == a.1);
        assert(precedes_or_same(a.0, b.0) || precedes_or_same(b.0, a.0));
    }
    assert forall|a: (Seq<char>, T), b: (Seq<char>, T), c: (Seq<char>, T)| #[trigger] r(a, b)
        && #[trigger] r(b, c) implies r(a, c) by {
        assert(value_same(a.1, b.1) <==> a.1 == b.1);
        assert(value_same(b.1, c.1) <==> b.1 == c.1);
        if value_above(a.1, b.1) && value_above(b.1, c.1) {
            assert(value_above(a.1, c.1));
        }
        if value_same(a.1, b.1) && value_same(b.1, c.1) {
            assert(precedes_or_same(a.0, b.0) && precedes_or_same(b.0, c.0));
        }
    }
}

/// What `ranking` returns: the same entries, each as often as before, with no
/// entry ranked behind one that it outranks.
pub proof fn lemma_ranking<T: PartialOrd>(entries: Seq<(Seq<char>, T)>)
    requires
        is_total_order::<T>(),
    ensures
        ranking(entries).to_multiset() == entries.to_multiset(),
        ranking(entries).len() == entries.len(),
        sorted_by(ranking(entries), rank_order::<T>()),
{
    lemma_rank_order_total::<T>();
    entries.lemma_sort_by_ensures(rank_order::<T>());
    vstd::seq_lib::to_multiset_len(entries);
    vstd::seq_lib::to_multiset_len(ranking(entries));
}

/// A table has one ranking only: a sequence of the same entries in the order
/// of their ranks is that ranking.
pub proof fn lemma_ranking_is<T: PartialOrd>(
    entries: Seq<(Seq<char>, T)>,
    ranked: Seq<(Seq<char>, T)>,
)
    requires
        is_total_order::<T>(),
        ranked.to_multiset() == entries.to_multiset(),
        sorted_by(ranked, rank_order::<T>()),
    ensures
        ranked == ranking(entries),
{
    lemma_rank_order_total::<T>();
    lemma_ranking(entries);
    lemma_sorted_unique(ranked, ranking(entries), rank_order::<T>());
}

/// The ranking of a table does not depend on the order in which its entries
/// are presented.
pub proof fn lemma_ranking_ignores_order<T: PartialOrd>(
    a: Seq<(Seq<char>, T)>,
    b: Seq<(Seq<char>, T)>,
)
    requires
        is_total_order::<T>(),
        a.to_multiset() == b.to_multiset(),
    ensures
        ranking(a) == ranking(b),
{
    lemma_ranking(a);
    lemma_ranking_is(b, ranking(a));
}

/// Along a ranking the values never ascend, and among equal values the keys
/// never descend.
pub proof fn lemma_ranking_descends<T: PartialOrd>(entries: Seq<(Seq<char>, T)>, i: int, j: int)
    requires
        is_total_order::<T>(),
        0 <= i < j < entries.len(),
    ensures
        !value_above(ranking(entries)[j].1, ranking(entries)[i].1),
        ranking(entries)[i].1 == ranking(entries)[j].1 ==> !precedes(
            ranking(entries)[j].0,
            ranking(entries)[i].0,
        ),
{
    lemma_ranking(entries);
    let r = ranking(entries);
    assert(rank_order::<T>()(r[i], r[j]));
    assert(outranks(r[i], r[j]));
    assert(!(value_above(r[i].1, r[j].1) && value_above(r[j].1, r[i].1)));
    assert(value_same(r[i].1, r[j].1) <==> r[i].1 == r[j].1);
    assert(value_same(r[j].1, r[i].1) <==> r[j].1 == r[i].1);
    lemma_precedes_asymmetric(r[i].0, r[j].0);
}

/// The values of the first entries of a ranking never ascend.
pub proof fn lemma_leading_descends<T: PartialOrd>(entries: Seq<(Seq<char>, T)>, n: nat)
    requires
        is_total_order::<T>(),
    ensures
        descending_values(ranking(entries).take(at_most(n, entries.len()) as int)),
{
    lemma_ranking(entries);
    let top = ranking(entries).take(at_most(n, entries.len()) as int);
    assert forall|i: int, j: int| 0 <= i < j < top.len() implies !value_above(
        (#[trigger] top[j]).1,
        (#[trigger] top[i]).1,
    ) by {
        lemma_ranking_descends(entries, i, j);
    }
}

/// Two tables with the same entries, in whatever order, have the same first
/// `n` entries of their rankings: ranking again gives the same sequence.
pub proof fn lemma_leading_is_determined<T: PartialOrd>(
    a: Seq<(Seq<char>, T)>,
    b: Seq<(Seq<char>, T)>,
    n: nat,
)
    requires
        is_total_order::<T>(),
        a.to_multiset() == b.to_multiset(),
    ensures
        ranking(a).take(at_most(n, a.len()) as int) == ranking(b).take(at_most(n, b.len()) as int),
{
    lemma_ranking_ignores_order(a, b);
    lemma_ranking(a);
    lemma_ranking(b);
}

/// Ranking the first `n` entries of a ranking again changes nothing.
pub proof fn lemma_leading_is_ranked<T: PartialOrd>(entries: Seq<(Seq<char>, T)>, n: nat)
    requires
        is_total_order::<T>(),
    ensures
        ranking(ranking(entries).take(at_most(n, entries.len()) as int)) == ranking(entries).take(
            at_most(n, entries.len()) as int,
        ),
{
    lemma_ranking(entries);
    let top = ranking(entries).take(at_most(n, entries.len()) as int);
    assert forall|i: int, j: int| 0 <= i < j < top.len() implies #[trigger] rank_order::<T>()(
        top[i],
        top[j],
    ) by {
        assert(rank_order::<T>()(ranking(entries)[i], ranking(entries)[j]));
    }
    lemma_ranking_is(top, top);
}

/// The first entries of a ranking, followed by the ranking of the others, are
/// the ranking of all of them, if each of the first outranks each of the
/// others.
pub proof fn lemma_leading_part<T: PartialOrd>(
    entries: Seq<(Seq<char>, T)>,
    top: Seq<(Seq<char>, T)>,
    pool: Seq<(Seq<char>, T)>,
)
    requires
        is_total_order::<T>(),
        top.len() + pool.len() == entries.len(),
        top.to_multiset().add(pool.to_multiset()) == entries.to_multiset(),
        sorted_by(top, rank_order::<T>()),
        forall|i: int, j: int|
            0 <= i < top.len() && 0 <= j < pool.len() ==> outranks(
                #[trigger] top[i],
                #[trigger] pool[j],
            ),
    ensures
        top == ranking(entries).take(top.len() as int),
{
    broadcast use vstd::seq_lib::group_to_multiset_ensures;

    let rest = ranking(pool);
    let whole = top + rest;
    lemma_ranking(pool);
    lemma_multiset_commutative(top, rest);
    assert forall|i: int, j: int| 0 <= i < j < whole.len() implies #[trigger] rank_order::<T>()(
        whole[i],
        whole[j],
    ) by {
        if j < top.len() {
            assert(rank_order::<T>()(top[i], top[j]));
        } else if i >= top.len() {
            assert(rank_order::<T>()(rest[i - top.len()], rest[j - top.len()]));
        } else {
            let x = rest[j - top.len()];
            assert(rest.contains(x));
            assert(rest.to_multiset().count(x) > 0);
            assert(pool.to_multiset().count(x) > 0);
            assert(pool.contains(x));
            let q = choose|q: int| 0 <= q < pool.len() && pool[q] == x;
            assert(outranks(top[i], pool[q]));
        }
    }
    lemma_ranking_is(entries, whole);
    assert(whole.take(top.len() as int) == top);
}

/// Moving an element from one sequence to the end of another leaves the two
/// together with the same elements.
pub proof fn lemma_move_keeps_entries<A>(top: Seq<A>, pool: Seq<A>, at: int)
    requires
        0 <= at < pool.len(),
    ensures
        top.push(pool[at]).to_multiset().add(pool.remove(at).to_multiset()) == top.to_multiset().add(
            pool.to_multiset(),
        ),
{
    broadcast use vstd::multiset::group_multiset_axioms;

    let x = pool[at];
    vstd::seq_lib::to_multiset_build(top, x);
    vstd::seq_lib::to_multiset_remove(pool, at);
    vstd::seq_lib::to_multiset_contains(pool, x);
    assert(pool.contains(x));
    assert(top.to_multiset().insert(x).add(pool.to_multiset().remove(x)) =~= top.to_multiset().add(
        pool.to_multiset(),
    ));
}

/// Whether `a` ranks no later than `b`.
pub fn entry_outranks<T: PartialOrd>(a: &(String, T), b: &(String, T)) -> (r: bool)
    ensures
        is_total_order::<T>() ==> r == outranks((a.0@, a.1), (b.0@, b.1)),
{
    proof {
        lemma_precedes_connected(a.0@, b.0@);
        lemma_precedes_asymmetric(a.0@, b.0@);
    }
    match a.1.partial_cmp(&b.1) {
        Some(Ordering::Greater) => true,
        Some(Ordering::Equal) => !text_precedes(b.0.as_str(), a.0.as_str()),
        _ => false,
    }
}

/// The index of an entry of `pool` that outranks every entry of `pool`.
fn leader<T: PartialOrd>(pool: &Vec<(String, T)>) -> (best: usize)
    requires
        pool.len() > 0,
    ensures
        best < pool.len(),
        is_total_order::<T>() ==> forall|q: int|
            0 <= q < pool.len() ==> outranks(keyed(pool@)[best as int], #[trigger] keyed(pool@)[q]),
{
    let mut best: usize = 0;
    let mut j: usize = 1;
    proof {
        if is_total_order::<T>() {
            lemma_rank_order_total::<T>();
            assert(rank_order::<T>()(keyed(pool@)[0], keyed(pool@)[0]));
        }
    }
    while j < pool.len()
        invariant
            best < j <= pool.len(),
            is_total_order::<T>() ==> total_ordering(rank_order::<T>()),
            is_total_order::<T>() ==> forall|q: int|
                0 <= q < j ==> outranks(keyed(pool@)[best as int], #[trigger] keyed(pool@)[q]),
        decreases pool.len() - j,
    {
        let ghost old_best = keyed(pool@)[best as int];
        let ghost next = keyed(pool@)[j as int];
        if entry_outranks(&pool[j], &pool[best]) {
            proof {
                if is_total_order::<T>() {
                    assert forall|q: int| 0 <= q < j + 1 implies outranks(
                        next,
                        #[trigger] keyed(pool@)[q],
                    ) by {
                        let x = keyed(pool@)[q];
                        if q < j {
                            assert(rank_order::<T>()(next, old_best) && rank_order::<T>()(
                                old_best,
                                x,
                            ));
                            assert(rank_order::<T>()(next, x));
                        } else {
                            assert(rank_order::<T>()(next, next));
                        }
                    }
                }
            }
            best = j;
        } else {
            proof {
                if is_total_order::<T>() {
                    assert(rank_order::<T>()(next, old_best) || rank_order::<T>()(old_best, next));
                }
            }
        }
        j = j + 1;
    }
    best
}

/// The `n` entries of `data` that rank first, in the order of their ranks; all
/// of them where `data` has no more than `n`.
///
/// The order of the result is stated for values that are totally ordered.
/// Whatever the values, the result holds as many entries as said and takes
/// each of them from `data`, none more often than `data` holds it.
pub fn top_n<T: PartialOrd>(data: Vec<(String, T)>, n: usize) -> (top: Vec<(String, T)>)
    ensures
        top.len() == at_most(n as nat, data.len() as nat),
        keyed(top@).to_multiset().subset_of(keyed(data@).to_multiset()),
        is_total_order::<T>() ==> keyed(top@) == ranking(keyed(data@)).take(top.len() as int),
        is_total_order::<T>() ==> descending_values(keyed(top@)),
{
    let ghost entries = keyed(data@);
    let mut pool = data;
    let mut top: Vec<(String, T)> = Vec::new();
    proof {
        broadcast use vstd::multiset::group_multiset_axioms;

        assert(keyed(top@) == Seq::<(Seq<char>, T)>::empty());
        assert(keyed(top@).to_multiset() =~= vstd::multiset::Multiset::empty()) by {
            vstd::seq_lib::to_multiset_len(keyed(top@));
        }
        assert(keyed(top@).to_multiset().add(entries.to_multiset()) =~= entries.to_multiset());
    }
    while top.len() < n && pool.len() > 0
        invariant
            top.len() <= n,
            top.len() + pool.len() == entries.len(),
            keyed(top@).to_multiset().add(keyed(pool@).to_multiset()) == entries.to_multiset(),
            is_total_order::<T>() ==> sorted_by(keyed(top@), rank_order::<T>()),
            is_total_order::<T>() ==> forall|i: int, j: int|
                0 <= i < top.len() && 0 <= j < pool.len() ==> outranks(
                    #[trigger] keyed(top@)[i],
                    #[trigger] keyed(pool@)[j],
                ),
        decreases pool.len(),
    {
        let ghost top0 = keyed(top@);
        let ghost pool0 = keyed(pool@);
        let best = leader(&pool);
        let entry = pool.remove(best);
        let ghost chosen = (entry.0@, entry.1);
        top.push(entry);
        proof {
            let top1 = keyed(top@);
            let pool1 = keyed(pool@);
            assert(chosen == pool0[best as int]);
            assert(top1 == top0.push(chosen));
            assert(pool1 == pool0.remove(best as int));
            pool0.remove_ensures(best as int);
            lemma_move_keeps_entries(top0, pool0, best as int);
            if is_total_order::<T>() {
                assert forall|i: int, j: int| 0 <= i < j < top1.len() implies #[trigger] rank_order::<
                    T,
                >()(top1[i], top1[j]) by {
                    if j < top0.len() {
                        assert(rank_order::<T>()(top0[i], top0[j]));
                    } else {
                        assert(outranks(top0[i], pool0[best as int]));
                    }
                }
                assert forall|i: int, j: int|
                    0 <= i < top1.len() && 0 <= j < pool1.len() implies outranks(
                    #[trigger] top1[i],
                    #[trigger] pool1[j],
                ) by {
                    let j0 = if j < best { j } else { j + 1 };
                    assert(pool1[j] == pool0[j0]);
                    if i < top0.len() {
                        assert(outranks(top0[i], pool0[j0]));
                    }
                }
            }
        }
    }
    proof {
        broadcast use vstd::multiset::group_multiset_axioms;

        assert(keyed(top@).to_multiset().subset_of(entries.to_multiset()));
        if is_total_order::<T>() {
            lemma_leading_part(entries, keyed(top@), keyed(pool@));
            lemma_leading_descends(entries, n as nat);
        }
    }
    top
}

} // verus!
