use cursed_telemetry::store::{DataStore, Entry};
use cursed_telemetry::value::CursedValue;

fn num(x: f64) -> CursedValue {
    CursedValue::Number(x.to_bits())
}

fn key(s: &str) -> String {
    s.to_string()
}

fn times(entries: &[Entry]) -> Vec<u64> {
    entries.iter().map(|e| e.time).collect()
}

#[test]
fn last_known_value_as_of_time() {
    let mut store = DataStore::new();
    store.add_data(key("temp"), 100, num(20.5));
    store.add_data(key("temp"), 200, num(21.0));
    assert_eq!(store.get_data_at_time(&key("temp"), 150), Some(&num(20.5)));
    assert_eq!(store.get_data_at_time(&key("temp"), 50), None);
    assert_eq!(store.get_data_at_time(&key("temp"), 200), Some(&num(21.0)));
    assert_eq!(store.get_data_at_time(&key("temp"), u64::MAX), Some(&num(21.0)));
    assert_eq!(store.get_data_at_time(&key("other"), 150), None);
}

#[test]
fn greatest_earlier_call_wins_out_of_order() {
    let mut store = DataStore::new();
    store.add_data(key("k"), 30, num(3.0));
    store.add_data(key("k"), 10, num(1.0));
    store.add_data(key("j"), 20, num(9.0));
    store.add_data(key("k"), 20, num(2.0));
    assert_eq!(store.get_data_at_time(&key("k"), 25), Some(&num(2.0)));
    assert_eq!(store.get_data_at_time(&key("k"), 10), Some(&num(1.0)));
    assert_eq!(store.get_data_at_time(&key("k"), 9), None);
    assert_eq!(store.get_data_at_time(&key("k"), 31), Some(&num(3.0)));
    assert_eq!(times(store.get_data(&key("k")).unwrap()), vec![10, 20, 30]);
}

#[test]
fn overwrite_keeps_one_entry_with_second_value() {
    let mut store = DataStore::new();
    store.add_data(key("k"), 5, num(1.0));
    store.add_data(key("k"), 5, CursedValue::String(key("two")));
    let series = store.get_data(&key("k")).unwrap();
    assert_eq!(series.len(), 1);
    assert_eq!(series[0].time, 5);
    assert_eq!(series[0].value, CursedValue::String(key("two")));
}

#[test]
fn unknown_topic_has_no_series() {
    let mut store = DataStore::new();
    assert!(store.get_data(&key("x")).is_none());
    store.add_data(key("y"), 1, num(0.0));
    assert!(store.get_data(&key("x")).is_none());
    assert!(store.get_data(&key("y")).is_some());
}

#[test]
fn range_query_is_inclusive_on_both_ends() {
    let mut store = DataStore::new();
    for t in [10u64, 20, 30, 40, 50] {
        store.add_data(key("k"), t, num(t as f64));
    }
    assert_eq!(times(&store.range_query(&key("k"), 20, 40)), vec![20, 30, 40]);
    assert_eq!(times(&store.range_query(&key("k"), 21, 39)), vec![30]);
    assert_eq!(times(&store.range_query(&key("k"), 0, u64::MAX)), vec![10, 20, 30, 40, 50]);
    let r = store.range_query(&key("k"), 30, 30);
    assert_eq!(r.len(), 1);
    assert_eq!(r[0].value, num(30.0));
}

#[test]
fn range_query_empty_cases() {
    let mut store = DataStore::new();
    store.add_data(key("k"), 10, num(1.0));
    store.add_data(key("k"), 20, num(2.0));
    assert!(store.range_query(&key("k"), 30, 10).is_empty());
    assert!(store.range_query(&key("k"), 11, 19).is_empty());
    assert!(store.range_query(&key("missing"), 0, 100).is_empty());
}

#[test]
fn values_of_different_kinds_share_a_series() {
    let mut store = DataStore::new();
    store.add_data(key("k"), 1, num(1.5));
    store.add_data(key("k"), 2, CursedValue::String(key("hello")));
    store.add_data(key("k"), 3, CursedValue::Record(vec![]));
    assert_eq!(store.get_data_at_time(&key("k"), 2), Some(&CursedValue::String(key("hello"))));
    assert_eq!(store.get_data_at_time(&key("k"), 3), Some(&CursedValue::Record(vec![])));
}
