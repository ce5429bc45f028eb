use soc_pipeline::groups::{EventGroups, STALE_AFTER_NANOS};

fn strings(v: &[&str]) -> Vec<String> {
    v.iter().map(|s| s.to_string()).collect()
}

#[test]
fn test_insert_in_hashmap_new_entry() {
    let mut map = EventGroups::new();
    map.insert("42", strings(&["token1", "token2"]), 1);
    let (lines, _) = map.get("42").unwrap();
    assert_eq!(lines, vec!["token1", "token2"]);
}

#[test]
fn test_insert_in_hashmap_accumulates_lines() {
    let mut map = EventGroups::new();
    map.insert("42", strings(&["token1"]), 1);
    map.insert("42", strings(&["token2"]), 2);
    assert_eq!(map.get("42").unwrap().0, vec!["token1", "token2"]);
    assert_eq!(map.len(), 1);
}

#[test]
fn test_insert_in_hashmap_updates_timestamp() {
    let mut map = EventGroups::new();
    map.insert("42", strings(&["token1"]), 1_000);
    let t1 = map.get("42").unwrap().1;
    map.insert("42", strings(&["token2"]), 11_000_000);
    let t2 = map.get("42").unwrap().1;
    assert!(t2 > t1);
    assert_eq!(t2, 11_000_000);
}

#[test]
fn test_insert_in_hashmap_different_ids_are_separate() {
    let mut map = EventGroups::new();
    map.insert("1", strings(&["a"]), 0);
    map.insert("2", strings(&["b"]), 0);
    assert_eq!(map.get("1").unwrap().0, vec!["a"]);
    assert_eq!(map.get("2").unwrap().0, vec!["b"]);
    assert!(map.get("3").is_none());
}

#[test]
fn test_watcher_remove_log_after_2s() {
    let mut map = EventGroups::new();
    map.insert("50", strings(&["token1"]), 0);
    let taken = map.take_stale(2_500_000_000);
    assert!(map.is_empty());
    assert_eq!(taken.len(), 1);
    assert_eq!(taken[0].id, "50");
    assert_eq!(taken[0].lines, vec!["token1"]);
}

#[test]
fn sweep_keeps_events_younger_than_two_seconds() {
    let mut map = EventGroups::new();
    map.insert("old", strings(&["x"]), 0);
    map.insert("young", strings(&["y"]), 1);
    let taken = map.take_stale(STALE_AFTER_NANOS);
    assert_eq!(taken.len(), 1);
    assert_eq!(taken[0].id, "old");
    assert_eq!(map.len(), 1);
    assert_eq!(map.get("young").unwrap(), (vec!["y".to_string()], 1));
    assert!(map.take_stale(STALE_AFTER_NANOS).is_empty());
    assert_eq!(map.take_stale(STALE_AFTER_NANOS + 1).len(), 1);
    assert!(map.is_empty());
}

#[test]
fn sweep_with_clock_before_arrival_keeps_everything() {
    let mut map = EventGroups::new();
    map.insert("a", strings(&["x"]), 5_000_000_000);
    assert!(map.take_stale(0).is_empty());
    assert_eq!(map.len(), 1);
}

#[test]
fn groups_keep_first_arrival_order() {
    let mut map = EventGroups::new();
    map.insert("b", strings(&["1"]), 0);
    map.insert("a", strings(&["2"]), 0);
    map.insert("b", strings(&["3"]), 0);
    assert_eq!(map.group_at(0).id, "b");
    assert_eq!(map.group_at(0).lines, vec!["1", "3"]);
    assert_eq!(map.group_at(1).id, "a");
}
