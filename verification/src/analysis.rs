//! The analysis: events counted and grouped by location, tables ranked by
//! their values, and assets classified by the locations that rank highest.

use vstd::prelude::*;
use crate::data::{Asset, Earthquake};
use crate::grouping::{count_keys, group_keys, in_key_order};
use crate::grouping::{counts_by_key, groups_by_key, has_key, keyed, nonblank, texts, total};
use crate::grouping::{indices, occurrences, positions};
use crate::grouping::lemma_counts_total;
use crate::location::{derived_key, location_key};
use crate::ranking::{at_most, descending_values, is_total_order, ranking, top_n};
use crate::text::same_text;

verus! {

/// How many locations a ranking of the highest keeps.
pub const TOP_COUNT: usize = 10;

/// How exposed an asset is.
#[derive(Debug, Clone, Copy, PartialEq, Eq, Structural)]
pub enum Risk {
    Low,
    Medium,
    High,
}

impl Default for Risk {
    fn default() -> (r: Risk)
        ensures
            r == Risk::Low,
    {
        Risk::Low
    }
}

/// The location key of each event, in the order of the events. The key of an
/// event that names no location is empty.
pub open spec fn event_keys<M>(data: Seq<Earthquake<M>>) -> Seq<Seq<char>> {
    data.map_values(|e: Earthquake<M>| derived_key(e.place@))
}

/// The characters of each name of `v`.
pub open spec fn names(v: Seq<&str>) -> Seq<Seq<char>> {
    v.map_values(|s: &str| s@)
}

/// The risk of an asset at the location `key`: high where the location is
/// among those with many events and among those with strong events, medium
/// where it is among the ones or the others, low where it is among neither or
/// the asset has no location.
pub open spec fn risk_of(key: Seq<char>, high_occ: Seq<Seq<char>>, high_mag: Seq<Seq<char>>) -> Risk {
    if key.len() == 0 {
        Risk::Low
    } else if high_occ.contains(key) && high_mag.contains(key) {
        Risk::High
    } else if high_occ.contains(key) || high_mag.contains(key) {
        Risk::Medium
    } else {
        Risk::Low
    }
}

/// `rated` holds the assets of `assets` in their order, each unchanged beside
/// its risk.
pub open spec fn is_rating(
    high_occ: Seq<Seq<char>>,
    high_mag: Seq<Seq<char>>,
    assets: Seq<Asset>,
    rated: Seq<(Asset, Risk)>,
) -> bool {
    &&& rated.len() == assets.len()
    &&& forall|i: int|
        0 <= i < rated.len() ==> (#[trigger] rated[i]).0 == assets[i] && rated[i].1 == risk_of(
            derived_key(assets[i].location@),
            high_occ,
            high_mag,
        )
}

/// Given lists and assets have one rating only: rating again gives the same
/// sequence.
pub proof fn lemma_rating_unique(
    high_occ: Seq<Seq<char>>,
    high_mag: Seq<Seq<char>>,
    assets: Seq<Asset>,
    a: Seq<(Asset, Risk)>,
    b: Seq<(Asset, Risk)>,
)
    requires
        is_rating(high_occ, high_mag, assets, a),
        is_rating(high_occ, high_mag, assets, b),
    ensures
        a == b,
{
    assert(a =~= b);
}

/// The risk of an asset depends on which locations the two lists name, not on
/// their order nor on how often they name one.
pub proof fn lemma_risk_depends_on_sets(
    key: Seq<char>,
    high_occ: Seq<Seq<char>>,
    high_mag: Seq<Seq<char>>,
    other_occ: Seq<Seq<char>>,
    other_mag: Seq<Seq<char>>,
)
    requires
        high_occ.to_set() == other_occ.to_set(),
        high_mag.to_set() == other_mag.to_set(),
    ensures
        risk_of(key, high_occ, high_mag) == risk_of(key, other_occ, other_mag),
{
    assert(high_occ.contains(key) <==> high_occ.to_set().contains(key));
    assert(other_occ.contains(key) <==> other_occ.to_set().contains(key));
    assert(high_mag.contains(key) <==> high_mag.to_set().contains(key));
    assert(other_mag.contains(key) <==> other_mag.to_set().contains(key));
}

/// Derives the location key of each event of `data`.
fn keys_of_events<M>(data: &[Earthquake<M>]) -> (keys: Vec<String>)
    ensures
        texts(keys@) == event_keys(data@),
{
    let mut keys: Vec<String> = Vec::new();
    let mut i: usize = 0;
    while i < data.len()
        invariant
            i <= data.len(),
            texts(keys@) == event_keys(data@.take(i as int)),
        decreases data.len() - i,
    {
        let key = location_key(data[i].place.as_str());
        proof {
            assert(data@.take(i + 1) == data@.take(i as int).push(data@[i as int]));
            assert(texts(keys@.push(key)) == texts(keys@).push(key@));
            assert(event_keys(data@.take(i as int).push(data@[i as int])) == event_keys(
                data@.take(i as int),
            ).push(derived_key(data@[i as int].place@)));
        }
        keys.push(key);
        i = i + 1;
    }
    proof {
        assert(data@.take(data.len() as int) == data@);
    }
    keys
}

/// Counts the events of `data` by location. The result has one entry for each
/// location that an event names, with the number of events that name it, in
/// ascending order of the location keys. Events that name no location are not
/// counted.
pub fn earthquake_number_by_location<M>(data: &[Earthquake<M>]) -> (counts: Vec<(String, usize)>)
    ensures
        counts_by_key(event_keys(data@), keyed(counts@)),
        total(keyed(counts@)) == nonblank(event_keys(data@)),
{
    let keys = keys_of_events(data);
    let table = count_keys(keys);
    let counts = in_key_order(table);
    proof {
        let all = event_keys(data@);
        let found = keyed(table@);
        let kept = keyed(counts@);
        assert forall|i: int| 0 <= i < kept.len() implies (#[trigger] kept[i]).0.len() > 0
            && all.contains(kept[i].0) && kept[i].1 == occurrences(
            all,
            kept[i].0,
        ) by {
            assert(found.contains(kept[i]));
            let j = choose|j: int| 0 <= j < found.len() && found[j] == kept[i];
            assert(all.contains(found[j].0));
        }
        assert forall|k: Seq<char>| k.len() > 0 && all.contains(k) implies #[trigger] has_key(
            kept,
            k,
        ) by {
            assert(has_key(found, k));
            let j = choose|j: int| 0 <= j < found.len() && (#[trigger] found[j]).0 == k;
            assert(kept.contains(found[j]));
            let i = choose|i: int| 0 <= i < kept.len() && kept[i] == found[j];
            assert(kept[i].0 == k);
        }
        lemma_counts_total(all, kept);
    }
    counts
}

/// Groups the events of `data` by location. The result has one entry for each
/// location that an event names, with the positions in `data` of the events
/// that name it, ascending, in ascending order of the location keys. No group
/// is empty, and events that name no location are in none.
pub fn earthquakes_by_location<M>(data: &[Earthquake<M>]) -> (groups: Vec<(String, Vec<usize>)>)
    ensures
        groups_by_key(event_keys(data@), keyed(groups@)),
{
    let keys = keys_of_events(data);
    let table = group_keys(&keys);
    let groups = in_key_order(table);
    proof {
        let all = event_keys(data@);
        let found = keyed(table@);
        let kept = keyed(groups@);
        assert forall|i: int| 0 <= i < kept.len() implies (#[trigger] kept[i]).0.len() > 0
            && all.contains(kept[i].0) && indices(kept[i].1@)
            == positions(all, kept[i].0) by {
            assert(found.contains(kept[i]));
            let j = choose|j: int| 0 <= j < found.len() && found[j] == kept[i];
            assert(all.contains(found[j].0));
        }
        assert forall|k: Seq<char>| k.len() > 0 && all.contains(k) implies #[trigger] has_key(
            kept,
            k,
        ) by {
            assert(has_key(found, k));
            let j = choose|j: int| 0 <= j < found.len() && (#[trigger] found[j]).0 == k;
            assert(kept.contains(found[j]));
            let i = choose|i: int| 0 <= i < kept.len() && kept[i] == found[j];
            assert(kept[i].0 == k);
        }
    }
    groups
}

/// The ten entries of `data` with the greatest values, the greatest first; of
/// two entries with the same value, the one whose key comes first. All of
/// `data`, in that order, where it has no more than ten entries.
///
/// The order of the result is stated for values that are totally ordered, as
/// for `top_n`.
pub fn get_top_ten<T: PartialOrd>(data: Vec<(String, T)>) -> (top: Vec<(String, T)>)
    ensures
        top.len() == at_most(TOP_COUNT as nat, data.len() as nat),
        keyed(top@).to_multiset().subset_of(keyed(data@).to_multiset()),
        is_total_order::<T>() ==> keyed(top@) == ranking(keyed(data@)).take(top.len() as int),
        is_total_order::<T>() ==> descending_values(keyed(top@)),
{
    top_n(data, TOP_COUNT)
}

/// Whether `list` names `key`.
fn names_key(list: &[&str], key: &str) -> (r: bool)
    ensures
        r == names(list@).contains(key@),
{
    let mut i: usize = 0;
    while i < list.len()
        invariant
            i <= list.len(),
            forall|j: int| 0 <= j < i ==> names(list@)[j] != key@,
        decreases list.len() - i,
    {
        if same_text(list[i], key) {
            assert(names(list@)[i as int] == key@);
            return true;
        }
        i = i + 1;
    }
    false
}

/// Classifies one asset by the location that its `location` names:
/// `high_occ_locations` are the locations with many events,
/// `high_mag_locations` those with strong events. The asset comes back
/// unchanged beside its risk.
pub fn assign_risk(high_occ_locations: &[&str], high_mag_locations: &[&str], asset: Asset) -> (r: (
    Asset,
    Risk,
))
    ensures
        r.0 == asset,
        r.1 == risk_of(
            derived_key(asset.location@),
            names(high_occ_locations@),
            names(high_mag_locations@),
        ),
{
    let location = location_key(asset.location.as_str());
    if location.as_str().is_empty() {
        return (asset, Risk::Low);
    }
    let is_high_occ = names_key(high_occ_locations, location.as_str());
    let is_high_mag = names_key(high_mag_locations, location.as_str());
    if is_high_occ && is_high_mag {
        (asset, Risk::High)
    } else if is_high_occ || is_high_mag {
        (asset, Risk::Medium)
    } else {
        (asset, Risk::Low)
    }
}

/// Classifies each asset of `client_data`. The result holds the assets in
/// their order, each unchanged beside its risk, which depends on nothing but
/// the asset's own location and the two lists.
pub fn measure_risk(
    high_eq_occ_locations: Vec<&str>,
    high_mag_locations: Vec<&str>,
    client_data: Vec<Asset>,
) -> (rated: Vec<(Asset, Risk)>)
    ensures
        is_rating(names(high_eq_occ_locations@), names(high_mag_locations@), client_data@, rated@),
{
    let mut rated: Vec<(Asset, Risk)> = Vec::new();
    for asset in it: client_data
        invariant
            it.seq() == client_data@,
            rated.len() == it.index(),
            forall|i: int|
                0 <= i < rated.len() ==> (#[trigger] rated[i]).0 == client_data[i] && rated[i].1
                    == risk_of(
                    derived_key(client_data[i].location@),
                    names(high_eq_occ_locations@),
                    names(high_mag_locations@),
                ),
    {
        let entry = assign_risk(
            high_eq_occ_locations.as_slice(),
            high_mag_locations.as_slice(),
            asset,
        );
        rated.push(entry);
    }
    rated
}

} // verus!
