use seismic_risk::data::{event_is_relevant, keep_relevant, keep_since, Asset, Earthquake};

fn event(time: i64, eq_type: &str, source: &str) -> Earthquake<f32> {
    Earthquake {
        time,
        mag: Some(1.5),
        place: "1km N of A, Alaska".to_string(),
        eq_type: eq_type.to_string(),
        location_source: source.to_string(),
    }
}

#[test]
fn earthquake_from_another_network_is_relevant() {
    assert!(event_is_relevant(&event(0, "earthquake", "ak")));
    assert!(event_is_relevant(&event(0, "earthquake", "ci")));
    assert!(event_is_relevant(&event(0, "earthquake", "")));
}

#[test]
fn other_kinds_of_event_are_not_relevant() {
    assert!(!event_is_relevant(&event(0, "quarry blast", "ak")));
    assert!(!event_is_relevant(&event(0, "explosion", "ak")));
    assert!(!event_is_relevant(&event(0, "Earthquake", "ak")));
    assert!(!event_is_relevant(&event(0, "", "ak")));
}

#[test]
fn events_of_the_left_out_networks_are_not_relevant() {
    assert!(!event_is_relevant(&event(0, "earthquake", "hi")));
    assert!(!event_is_relevant(&event(0, "earthquake", "hv")));
    assert!(!event_is_relevant(&event(0, "earthquake", "us")));
    assert!(event_is_relevant(&event(0, "earthquake", "HI")));
    assert!(event_is_relevant(&event(0, "earthquake", "usa")));
}

#[test]
fn keep_relevant_keeps_the_order() {
    let data = vec![
        event(1, "earthquake", "ak"),
        event(2, "quarry blast", "ak"),
        event(3, "earthquake", "us"),
        event(4, "earthquake", "nc"),
        event(5, "earthquake", "hv"),
        event(6, "earthquake", "ak"),
    ];
    let kept = keep_relevant(data);
    let times: Vec<i64> = kept.iter().map(|e| e.time).collect();
    assert_eq!(times, vec![1, 4, 6]);
    assert_eq!(kept[1], event(4, "earthquake", "nc"));
}

#[test]
fn keep_relevant_of_nothing_is_nothing() {
    let kept = keep_relevant(Vec::<Earthquake<f32>>::new());
    assert!(kept.is_empty());
}

#[test]
fn keep_since_keeps_the_cutoff_itself() {
    let data = vec![
        event(999, "earthquake", "ak"),
        event(1000, "earthquake", "ak"),
        event(1001, "earthquake", "ak"),
        event(-5, "earthquake", "ak"),
        event(1000, "explosion", "us"),
    ];
    let kept = keep_since(data, 1000);
    let times: Vec<i64> = kept.iter().map(|e| e.time).collect();
    assert_eq!(times, vec![1000, 1001, 1000]);
    assert_eq!(kept[2].eq_type, "explosion");
}

#[test]
fn keep_since_carries_the_magnitude() {
    let mut first = event(10, "earthquake", "ak");
    first.mag = None;
    let mut second = event(20, "earthquake", "ak");
    second.mag = Some(6.25);
    let kept = keep_since(vec![first, second], 0);
    assert_eq!(kept[0].mag, None);
    assert_eq!(kept[1].mag, Some(6.25));
}

#[test]
fn assets_compare_by_their_fields() {
    let asset = Asset {
        building_name: "West Anchorage High School".to_string(),
        location: "Anchorage, Alaska".to_string(),
        full_address: "1700 Hillcrest Dr, Anchorage, AK 99517".to_string(),
    };
    let mut other = asset.clone();
    assert_eq!(asset, other);
    other.location = "Anchorage, Alask".to_string();
    assert_ne!(asset, other);
}
