//! The records that the analysis works on, and the rules that say which of the
//! events of a feed are analysed at all.

use vstd::prelude::*;
use crate::text::same_text;

verus! {

/// An entry of the portfolio. Only `location` is read; the other fields are
/// carried along unchanged.
#[derive(Debug, Clone, PartialEq, Eq)]
pub struct Asset {
    pub building_name: String,
    pub location: String,
    pub full_address: String,
}

/// A seismic event as the feed reports it. `M` is the representation of a
/// magnitude: the library carries magnitudes and never computes with them.
#[derive(Debug, Clone, PartialEq)]
pub struct Earthquake<M> {
    /// The moment of the event, in milliseconds since the Unix epoch.
    pub time: i64,
    pub mag: Option<M>,
    pub place: String,
    pub eq_type: String,
    pub location_source: String,
}

/// An event is relevant if it is an earthquake and was not located by one of
/// the networks `hi`, `hv` or `us`.
pub open spec fn is_relevant<M>(e: Earthquake<M>) -> bool {
    &&& e.eq_type@ == "earthquake"@
    &&& e.location_source@ != "hi"@
    &&& e.location_source@ != "hv"@
    &&& e.location_source@ != "us"@
}

/// An event is recent if it happened at `cutoff` or later.
pub open spec fn is_since<M>(e: Earthquake<M>, cutoff: i64) -> bool {
    e.time >= cutoff
}

/// Whether `e` is relevant.
pub fn event_is_relevant<M>(e: &Earthquake<M>) -> (r: bool)
    ensures
        r == is_relevant(*e),
{
    same_text(e.eq_type.as_str(), "earthquake") && !same_text(e.location_source.as_str(), "hi")
        && !same_text(e.location_source.as_str(), "hv") && !same_text(
        e.location_source.as_str(),
        "us",
    )
}

/// Keeps the relevant events of `data`, in their order.
pub fn keep_relevant<M>(data: Vec<Earthquake<M>>) -> (kept: Vec<Earthquake<M>>)
    ensures
        kept@ == data@.filter(|e: Earthquake<M>| is_relevant(e)),
{
    let ghost wanted = |e: Earthquake<M>| is_relevant(e);
    let mut kept: Vec<Earthquake<M>> = Vec::new();
    proof {
        assert(data@.take(0).filter(wanted) == Seq::<Earthquake<M>>::empty()) by {
            reveal(Seq::filter);
        }
    }
    for e in it: data
        invariant
            it.seq() == data@,
            forall|x: Earthquake<M>| #[trigger] wanted(x) == is_relevant(x),
            kept@ == data@.take(it.index() as int).filter(wanted),
    {
        proof {
            let i = it.index() as int;
            data@.lemma_take_succ_push(i);
            data@.take(i).lemma_filter_push(e, wanted);
        }
        if event_is_relevant(&e) {
            kept.push(e);
        }
    }
    proof {
        data@.lemma_take_len();
    }
    kept
}

/// Keeps the events of `data` that happened at `cutoff` or later, in their
/// order.
pub fn keep_since<M>(data: Vec<Earthquake<M>>, cutoff: i64) -> (kept: Vec<Earthquake<M>>)
    ensures
        kept@ == data@.filter(|e: Earthquake<M>| is_since(e, cutoff)),
{
    let ghost wanted = |e: Earthquake<M>| is_since(e, cutoff);
    let mut kept: Vec<Earthquake<M>> = Vec::new();
    proof {
        assert(data@.take(0).filter(wanted) == Seq::<Earthquake<M>>::empty()) by {
            reveal(Seq::filter);
        }
    }
    for e in it: data
        invariant
            it.seq() == data@,
            forall|x: Earthquake<M>| #[trigger] wanted(x) == is_since(x, cutoff),
            kept@ == data@.take(it.index() as int).filter(wanted),
    {
        proof {
            let i = it.index() as int;
            data@.lemma_take_succ_push(i);
            data@.take(i).lemma_filter_push(e, wanted);
        }
        if e.time >= cutoff {
            kept.push(e);
        }
    }
    proof {
        data@.lemma_take_len();
    }
    kept
}

} // verus!
