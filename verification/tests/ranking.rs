use seismic_risk::ranking::{entry_outranks, top_n};

fn entry<T>(key: &str, value: T) -> (String, T) {
    (key.to_string(), value)
}

#[test]
fn greater_value_outranks() {
    assert!(entry_outranks(&entry("Texas", 5u32), &entry("Alaska", 2)));
    assert!(!entry_outranks(&entry("Alaska", 2u32), &entry("Texas", 5)));
}

#[test]
fn equal_values_are_decided_by_the_keys() {
    assert!(entry_outranks(&entry("Alaska", 3i32), &entry("Texas", 3)));
    assert!(!entry_outranks(&entry("Texas", 3i32), &entry("Alaska", 3)));
    assert!(entry_outranks(&entry("New", 3i32), &entry("New Mexico", 3)));
}

#[test]
fn an_entry_outranks_itself() {
    assert!(entry_outranks(&entry("Alaska", 3usize), &entry("Alaska", 3)));
}

#[test]
fn top_of_negative_values() {
    let data = vec![entry("a", -3i64), entry("b", 0), entry("c", -1), entry("d", i64::MIN)];
    let top = top_n(data, 3);
    assert_eq!(top, vec![entry("b", 0i64), entry("c", -1), entry("a", -3)]);
}

#[test]
fn top_of_a_single_entry() {
    assert_eq!(top_n(vec![entry("only", 9u64)], 1), vec![entry("only", 9u64)]);
    assert_eq!(top_n(vec![entry("only", 9u64)], 5), vec![entry("only", 9u64)]);
}

#[test]
fn top_keeps_repeated_entries() {
    let data = vec![entry("a", 1usize), entry("b", 2), entry("a", 1), entry("a", 4)];
    let top = top_n(data, 4);
    assert_eq!(top, vec![entry("a", 4usize), entry("b", 2), entry("a", 1), entry("a", 1)]);
}

#[test]
fn top_takes_its_entries_from_the_table() {
    let data = vec![entry("x", 1.5f64), entry("y", f64::NAN), entry("z", 0.5)];
    let top = top_n(data, 2);
    assert_eq!(top.len(), 2);
    for e in top.iter() {
        assert!(e.0 == "x" || e.0 == "y" || e.0 == "z");
    }
    assert_ne!(top[0].0, top[1].0);
}

#[test]
fn all_equal_values_come_out_in_key_order() {
    let data = vec![entry("d", 1u8), entry("b", 1), entry("a", 1), entry("c", 1)];
    let top = top_n(data, 3);
    assert_eq!(top, vec![entry("a", 1u8), entry("b", 1), entry("c", 1)]);
}
