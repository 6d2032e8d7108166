use seismic_risk::analysis::{
    assign_risk, earthquake_number_by_location, earthquakes_by_location, get_top_ten,
    measure_risk, Risk, TOP_COUNT,
};
use seismic_risk::data::{Asset, Earthquake};

fn quake(place: &str, mag: Option<f32>) -> Earthquake<f32> {
    Earthquake {
        time: 0,
        mag,
        place: place.to_string(),
        eq_type: "earthquake".to_string(),
        location_source: "ak".to_string(),
    }
}

fn asset(name: &str, location: &str) -> Asset {
    Asset {
        building_name: name.to_string(),
        location: location.to_string(),
        full_address: format!("{} (full)", location),
    }
}

fn entry<T>(key: &str, value: T) -> (String, T) {
    (key.to_string(), value)
}

fn mean_of(data: &[Earthquake<f32>], positions: &[usize]) -> f32 {
    let total: f32 = positions.iter().map(|&at| data[at].mag.unwrap_or(0.0)).sum();
    total / positions.len() as f32
}

#[test]
fn counts_of_three_events_in_two_states() {
    let data = vec![
        quake("10km NE of X, Alaska", Some(2.0)),
        quake("5km S of Y, Alaska", Some(4.0)),
        quake("Z, California", None),
    ];
    let counts = earthquake_number_by_location(&data);
    assert_eq!(counts, vec![entry("Alaska", 2), entry("California", 1)]);
}

#[test]
fn groups_of_three_events_in_two_states() {
    let data = vec![
        quake("10km NE of X, Alaska", Some(2.0)),
        quake("5km S of Y, Alaska", Some(4.0)),
        quake("Z, California", None),
    ];
    let groups = earthquakes_by_location(&data);
    assert_eq!(groups, vec![entry("Alaska", vec![0, 1]), entry("California", vec![2])]);
    assert_eq!(mean_of(&data, &groups[0].1), 3.0);
    assert_eq!(mean_of(&data, &groups[1].1), 0.0);
}

#[test]
fn no_events_give_empty_tables() {
    let data: Vec<Earthquake<f32>> = Vec::new();
    assert!(earthquake_number_by_location(&data).is_empty());
    assert!(earthquakes_by_location(&data).is_empty());
}

#[test]
fn events_without_location_are_left_out() {
    let data = vec![
        quake("", Some(1.0)),
        quake("somewhere,", Some(2.0)),
        quake("x, Nevada", Some(3.0)),
        quake("y,   ", Some(4.0)),
        quake("z,Nevada ", Some(5.0)),
    ];
    assert_eq!(earthquake_number_by_location(&data), vec![entry("Nevada", 2)]);
    assert_eq!(earthquakes_by_location(&data), vec![entry("Nevada", vec![2, 4])]);
}

#[test]
fn only_events_without_location_give_empty_tables() {
    let data = vec![quake("", None), quake(" , ", Some(2.0))];
    assert!(earthquake_number_by_location(&data).is_empty());
    assert!(earthquakes_by_location(&data).is_empty());
}

#[test]
fn tables_are_in_ascending_order_of_the_keys() {
    let data = vec![
        quake("a, Texas", None),
        quake("b, alaska", None),
        quake("c, Alaska", None),
        quake("d, Oklahoma", None),
        quake("e, Texas", None),
        quake("f, Hawaii", None),
        quake("g, Alaska", None),
        quake("h, Texas", None),
    ];
    let counts = earthquake_number_by_location(&data);
    assert_eq!(
        counts,
        vec![
            entry("Alaska", 2),
            entry("Hawaii", 1),
            entry("Oklahoma", 1),
            entry("Texas", 3),
            entry("alaska", 1),
        ]
    );
    let groups = earthquakes_by_location(&data);
    assert_eq!(
        groups,
        vec![
            entry("Alaska", vec![2, 6]),
            entry("Hawaii", vec![5]),
            entry("Oklahoma", vec![3]),
            entry("Texas", vec![0, 4, 7]),
            entry("alaska", vec![1]),
        ]
    );
}

#[test]
fn keys_are_case_sensitive() {
    let data = vec![quake("a, alaska", None), quake("b, Alaska", None), quake("c, ALASKA", None)];
    let counts = earthquake_number_by_location(&data);
    assert_eq!(counts, vec![entry("ALASKA", 1), entry("Alaska", 1), entry("alaska", 1)]);
}

#[test]
fn counts_add_up_to_the_events_with_a_location() {
    let places = [
        "a, Texas", "", "b, Alaska", "c,", "d, Alaska", "e, Texas", "f, Utah", " ", "g, Texas",
        "Utah", "h, Idaho ",
    ];
    let data: Vec<Earthquake<f32>> = places.iter().map(|p| quake(p, None)).collect();
    let counts = earthquake_number_by_location(&data);
    let total: usize = counts.iter().map(|e| e.1).sum();
    assert_eq!(total, 8);
    let groups = earthquakes_by_location(&data);
    let grouped: usize = groups.iter().map(|e| e.1.len()).sum();
    assert_eq!(grouped, 8);
}

#[test]
fn counts_and_groups_have_the_same_keys() {
    let places = ["a, Texas", "", "b, Alaska", "d, Alaska", "e, Texas", "f, Utah", "g, Texas"];
    let data: Vec<Earthquake<f32>> = places.iter().map(|p| quake(p, None)).collect();
    let counts = earthquake_number_by_location(&data);
    let groups = earthquakes_by_location(&data);
    assert_eq!(counts.len(), groups.len());
    for (count, group) in counts.iter().zip(groups.iter()) {
        assert_eq!(count.0, group.0);
        assert_eq!(count.1, group.1.len());
        assert!(!group.1.is_empty());
        for &at in group.1.iter() {
            assert!(places[at].ends_with(count.0.as_str()));
        }
    }
}

#[test]
fn counting_twice_gives_the_same_table() {
    let places = ["a, Texas", "b, Alaska", "d, Alaska", "e, Texas", "f, Utah", "g, Maine"];
    let data: Vec<Earthquake<f32>> = places.iter().map(|p| quake(p, Some(1.0))).collect();
    assert_eq!(earthquake_number_by_location(&data), earthquake_number_by_location(&data));
    assert_eq!(earthquakes_by_location(&data), earthquakes_by_location(&data));
}

#[test]
fn mean_of_a_group_counts_a_missing_magnitude_as_zero() {
    let data = vec![
        quake("a, Utah", Some(3.0)),
        quake("b, Utah", None),
        quake("c, Utah", Some(1.5)),
        quake("d, Utah", None),
    ];
    let groups = earthquakes_by_location(&data);
    assert_eq!(groups.len(), 1);
    assert_eq!(mean_of(&data, &groups[0].1), 1.125);
}

#[test]
fn top_two_of_three_states() {
    let data = vec![entry("Alaska", 2usize), entry("California", 1), entry("Texas", 5)];
    let top = seismic_risk::ranking::top_n(data, 2);
    assert_eq!(top, vec![entry("Texas", 5), entry("Alaska", 2)]);
}

#[test]
fn top_of_an_empty_table_is_empty() {
    let data: Vec<(String, usize)> = Vec::new();
    assert!(seismic_risk::ranking::top_n(data, 3).is_empty());
    let data: Vec<(String, usize)> = Vec::new();
    assert!(get_top_ten(data).is_empty());
}

#[test]
fn top_zero_is_empty() {
    let data = vec![entry("Alaska", 2usize), entry("Texas", 5)];
    assert!(seismic_risk::ranking::top_n(data, 0).is_empty());
}

#[test]
fn top_of_more_than_there_are_is_all_of_them() {
    let data = vec![entry("Alaska", 2usize), entry("California", 1), entry("Texas", 5)];
    let top = seismic_risk::ranking::top_n(data, 7);
    assert_eq!(top, vec![entry("Texas", 5), entry("Alaska", 2), entry("California", 1)]);
}

#[test]
fn equal_values_rank_by_key() {
    let data = vec![
        entry("Utah", 3usize),
        entry("Texas", 7),
        entry("Alaska", 3),
        entry("Maine", 7),
        entry("Idaho", 3),
    ];
    let top = seismic_risk::ranking::top_n(data, 4);
    assert_eq!(
        top,
        vec![entry("Maine", 7), entry("Texas", 7), entry("Alaska", 3), entry("Idaho", 3)]
    );
}

#[test]
fn ranking_does_not_depend_on_the_order_of_the_entries() {
    let entries = [
        entry("Utah", 3i64),
        entry("Texas", 7),
        entry("Alaska", 3),
        entry("Maine", -1),
        entry("Idaho", 7),
    ];
    let expected = vec![
        entry("Idaho", 7i64),
        entry("Texas", 7),
        entry("Alaska", 3),
        entry("Utah", 3),
        entry("Maine", -1),
    ];
    let orders: [[usize; 5]; 6] = [
        [0, 1, 2, 3, 4],
        [4, 3, 2, 1, 0],
        [2, 0, 4, 1, 3],
        [1, 4, 0, 3, 2],
        [3, 2, 1, 4, 0],
        [4, 0, 3, 2, 1],
    ];
    for order in orders.iter() {
        let data: Vec<(String, i64)> = order.iter().map(|&at| entries[at].clone()).collect();
        assert_eq!(seismic_risk::ranking::top_n(data, 5), expected);
    }
}

#[test]
fn top_ten_keeps_ten() {
    let names = [
        "Alaska", "Arizona", "California", "Hawaii", "Idaho", "Montana", "Nevada", "Oklahoma",
        "Oregon", "Texas", "Utah", "Washington",
    ];
    let data: Vec<(String, usize)> =
        names.iter().enumerate().map(|(at, name)| entry(name, (at * 7) % 12)).collect();
    let top = get_top_ten(data);
    assert_eq!(top.len(), TOP_COUNT);
    assert_eq!(TOP_COUNT, 10);
    let values: Vec<usize> = top.iter().map(|e| e.1).collect();
    assert_eq!(values, vec![11, 10, 9, 8, 7, 6, 5, 4, 3, 2]);
    assert_eq!(top[0].0, "Montana");
    assert_eq!(top[9].0, "California");
}

#[test]
fn top_ten_of_a_small_table_is_the_whole_ranking() {
    let data = vec![entry("Alaska", 2usize), entry("California", 1), entry("Texas", 5)];
    let top = get_top_ten(data);
    assert_eq!(top, vec![entry("Texas", 5), entry("Alaska", 2), entry("California", 1)]);
}

#[test]
fn top_ten_ranks_means() {
    let data = vec![
        entry("Alaska", 3.0f32),
        entry("California", 0.0),
        entry("Nevada", 4.25),
        entry("Texas", 3.0),
        entry("Idaho", 1.5),
    ];
    let top = get_top_ten(data);
    assert_eq!(
        top,
        vec![
            entry("Nevada", 4.25f32),
            entry("Alaska", 3.0),
            entry("Texas", 3.0),
            entry("Idaho", 1.5),
            entry("California", 0.0),
        ]
    );
}

#[test]
fn ranking_twice_gives_the_same_sequence() {
    let data = vec![entry("b", 1usize), entry("a", 1), entry("c", 2), entry("d", 0)];
    let once = get_top_ten(data.clone());
    let twice = get_top_ten(data);
    assert_eq!(once, twice);
    let again = get_top_ten(once.clone());
    assert_eq!(again, once);
}

#[test]
fn asset_in_one_high_list_is_medium() {
    let rated = assign_risk(&["Alaska"], &[], asset("School", "123 Main St, Alaska"));
    assert_eq!(rated.1, Risk::Medium);
    assert_eq!(rated.0, asset("School", "123 Main St, Alaska"));
    let rated = assign_risk(&[], &["Alaska"], asset("School", "123 Main St, Alaska"));
    assert_eq!(rated.1, Risk::Medium);
}

#[test]
fn asset_without_location_is_low() {
    let rated = assign_risk(&["Alaska"], &["Alaska"], asset("School", ""));
    assert_eq!(rated.1, Risk::Low);
    let rated = assign_risk(&["", "Alaska"], &[""], asset("School", ""));
    assert_eq!(rated.1, Risk::Low);
    let rated = assign_risk(&[""], &[""], asset("School", "Main St,  "));
    assert_eq!(rated.1, Risk::Low);
}

#[test]
fn asset_in_both_high_lists_is_high() {
    let rated = assign_risk(&["Alaska"], &["Alaska"], asset("School", "Main St, Alaska"));
    assert_eq!(rated.1, Risk::High);
}

#[test]
fn asset_in_no_high_list_is_low() {
    let rated = assign_risk(&["Alaska"], &["Texas"], asset("School", "Main St, Utah"));
    assert_eq!(rated.1, Risk::Low);
    let rated = assign_risk(&[], &[], asset("School", "Main St, Alaska"));
    assert_eq!(rated.1, Risk::Low);
    let rated = assign_risk(&["Alaska"], &["Alaska"], asset("School", "Main St, alaska"));
    assert_eq!(rated.1, Risk::Low);
}

#[test]
fn measure_risk_keeps_order_and_length() {
    let assets = vec![
        asset("A", "1 First St, Texas"),
        asset("B", "2 Second St, Alaska"),
        asset("C", ""),
        asset("D", "4 Fourth St, Utah"),
        asset("E", "5 Fifth St, California"),
        asset("F", "6 Sixth St, Alaska"),
    ];
    let rated = measure_risk(
        vec!["Alaska", "California"],
        vec!["Alaska", "Texas"],
        assets.clone(),
    );
    assert_eq!(rated.len(), assets.len());
    let risks: Vec<Risk> = rated.iter().map(|r| r.1).collect();
    assert_eq!(
        risks,
        vec![Risk::Medium, Risk::High, Risk::Low, Risk::Low, Risk::Medium, Risk::High]
    );
    for (r, a) in rated.iter().zip(assets.iter()) {
        assert_eq!(&r.0, a);
    }
}

#[test]
fn measure_risk_of_no_assets_is_empty() {
    let rated = measure_risk(vec!["Alaska"], vec!["Texas"], Vec::new());
    assert!(rated.is_empty());
}

#[test]
fn measure_risk_without_high_locations_is_all_low() {
    let assets = vec![asset("A", "1 First St, Texas"), asset("B", "2 Second St, Alaska")];
    let rated = measure_risk(Vec::new(), Vec::new(), assets);
    assert_eq!(rated[0].1, Risk::Low);
    assert_eq!(rated[1].1, Risk::Low);
}

#[test]
fn risk_does_not_depend_on_the_other_assets() {
    let first = asset("A", "1 First St, Texas");
    let second = asset("B", "2 Second St, Alaska");
    let forward = measure_risk(vec!["Texas"], vec![], vec![first.clone(), second.clone()]);
    let backward = measure_risk(vec!["Texas"], vec![], vec![second, first]);
    assert_eq!(forward[0], backward[1]);
    assert_eq!(forward[1], backward[0]);
}

#[test]
fn measuring_twice_gives_the_same_result() {
    let assets = vec![asset("A", "1 First St, Texas"), asset("B", "2 Second St, Alaska")];
    let once = measure_risk(vec!["Texas"], vec!["Alaska", "Texas"], assets.clone());
    let twice = measure_risk(vec!["Texas"], vec!["Alaska", "Texas"], assets);
    assert_eq!(once, twice);
}

#[test]
fn default_risk_is_low() {
    assert_eq!(Risk::default(), Risk::Low);
}

#[test]
fn events_to_risk() {
    let data = vec![
        quake("10km NE of X, Alaska", Some(2.0)),
        quake("5km S of Y, Alaska", Some(4.0)),
        quake("Z, California", None),
        quake("W, Nevada", Some(5.0)),
    ];
    let counts = get_top_ten(earthquake_number_by_location(&data));
    assert_eq!(counts, vec![entry("Alaska", 2), entry("California", 1), entry("Nevada", 1)]);
    let means: Vec<(String, f32)> = earthquakes_by_location(&data)
        .into_iter()
        .map(|(key, positions)| {
            let mean = mean_of(&data, &positions);
            (key, mean)
        })
        .collect();
    let strongest = seismic_risk::ranking::top_n(means, 2);
    assert_eq!(strongest, vec![entry("Nevada", 5.0f32), entry("Alaska", 3.0)]);
    let busiest = seismic_risk::ranking::top_n(counts, 1);
    let high_occ: Vec<&str> = busiest.iter().map(|e| e.0.as_str()).collect();
    let high_mag: Vec<&str> = strongest.iter().map(|e| e.0.as_str()).collect();
    let rated = measure_risk(
        high_occ,
        high_mag,
        vec![
            asset("A", "1 First St, Anchorage, Alaska"),
            asset("B", "2 Second St, Reno, Nevada"),
            asset("C", "3 Third St, Fresno, California"),
        ],
    );
    let risks: Vec<Risk> = rated.iter().map(|r| r.1).collect();
    assert_eq!(risks, vec![Risk::High, Risk::Medium, Risk::Low]);
}
