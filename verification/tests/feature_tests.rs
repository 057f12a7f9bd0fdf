use daedalus::feature::COUNT_LIMIT;
use daedalus::{parse_message, FeatureState, Observation, Register, SelectEvent, UFSSOD};

#[test]
fn feature_counts_values_and_toggles() {
    let mut f = FeatureState::new(String::from("!"));
    assert_eq!(f.n, 0);
    f.update(None);
    assert_eq!(f.n, 0);
    assert!(f.value_counts.is_empty());
    f.update(Some(0b1010));
    assert_eq!(f.n, 1);
    assert_eq!(f.toggle_count, 0);
    f.update(Some(0b1010));
    assert_eq!(f.toggle_count, 0);
    f.update(Some(0b0101));
    assert_eq!(f.toggle_count, 1);
    assert_eq!(f.ham_toggles, 4);
    f.update(None);
    f.update(Some(0b0100));
    assert_eq!(f.n, 4);
    assert_eq!(f.toggle_count, 2);
    assert_eq!(f.ham_toggles, 5);
    assert_eq!(f.last_value, Some(0b0100));
    assert_eq!(f.value_counts[&0b1010], 2);
    assert_eq!(f.value_counts[&0b0101], 1);
    assert_eq!(f.value_counts[&0b0100], 1);
    assert_eq!(f.value_counts.len(), 3);
}

#[test]
fn register_getters() {
    let r = Register::new(5, "abc", Some(7));
    assert_eq!(r.time(), 5);
    assert_eq!(r.key(), "abc");
    assert_eq!(r.value(), Some(7));
    let o = Observation::new(9);
    assert_eq!(o.time, 9);
    assert!(o.values.is_empty());
}

#[test]
fn selector_keeps_features_sorted() {
    let mut s = UFSSOD::new();
    assert_eq!(s.obv_seen, 0);
    let o1 = parse_message("#0\n1c\n0a\nxb\n").unwrap();
    assert!(s.room_for(&o1));
    s.update(&o1);
    let keys: Vec<&str> = s.features.iter().map(|f| f.key.as_str()).collect();
    assert_eq!(keys, vec!["a", "b", "c"]);
    assert_eq!(s.features[1].n, 0);
    let o2 = parse_message("#1\n1a\n1d\n0c\n").unwrap();
    s.update(&o2);
    let keys: Vec<&str> = s.features.iter().map(|f| f.key.as_str()).collect();
    assert_eq!(keys, vec!["a", "b", "c", "d"]);
    assert_eq!(s.obv_seen, 2);
    assert_eq!(s.features[0].n, 2);
    assert_eq!(s.features[0].toggle_count, 1);
    assert_eq!(s.features[2].toggle_count, 1);
    assert_eq!(s.features[3].n, 1);
}

#[test]
fn repeated_key_in_one_observation() {
    let mut s = UFSSOD::new();
    let o = parse_message("#0\n0a\n1a\n0a\n").unwrap();
    s.update(&o);
    assert_eq!(s.features.len(), 1);
    assert_eq!(s.features[0].n, 3);
    assert_eq!(s.features[0].toggle_count, 2);
    assert_eq!(s.features[0].last_value, Some(0));
}

#[test]
fn select_steps() {
    let mut s = UFSSOD::new();
    assert!(s.feature_select_step(SelectEvent::Idle));
    assert_eq!(s.obv_seen, 0);
    let o = parse_message("#0\n1a\n").unwrap();
    assert!(s.feature_select_step(SelectEvent::Received(o)));
    assert_eq!(s.obv_seen, 1);
    assert_eq!(s.features.len(), 1);
    assert!(!s.feature_select_step(SelectEvent::Shutdown));
    assert_eq!(s.obv_seen, 1);
}

#[test]
fn room_for_counts() {
    let mut s = UFSSOD::new();
    let o = parse_message("#0\n1a\n").unwrap();
    assert!(s.room_for(&o));
    let mut f = FeatureState::new(String::from("a"));
    f.n = COUNT_LIMIT - 1;
    s.features.push(f);
    assert!(!s.room_for(&o));
    assert!(s.room_for(&Observation::new(1)));
}

#[test]
fn run_of_updates_counts_observations_and_known_values() {
    let mut s = UFSSOD::new();
    let messages = ["#0\n1a\nxb\n", "#1\n0a\n1b\n", "#2\nb10 c\nzb\n", "#3\n1a\n"];
    for m in messages {
        let o = parse_message(m).unwrap();
        assert!(s.room_for(&o));
        s.update(&o);
    }
    assert_eq!(s.obv_seen, 4);
    let a = s.features.iter().find(|f| f.key == "a").unwrap();
    assert_eq!(a.n, 3);
    assert_eq!(a.toggle_count, 2);
    assert_eq!(a.ham_toggles, 2);
    let b = s.features.iter().find(|f| f.key == "b").unwrap();
    assert_eq!(b.n, 1);
    assert_eq!(b.toggle_count, 0);
    let c = s.features.iter().find(|f| f.key == "c").unwrap();
    assert_eq!(c.n, 1);
    assert_eq!(c.last_value, Some(2));
}
