use fulliautomatisk::build_state;
use fulliautomatisk::change_counts;
use fulliautomatisk::classify_fs_event;
use fulliautomatisk::compare_state;
use fulliautomatisk::apply_changes;
use fulliautomatisk::full_reload_request;
use fulliautomatisk::str_lt;
use fulliautomatisk::Change;
use fulliautomatisk::Detector;
use fulliautomatisk::Entry;
use fulliautomatisk::InstanceId;
use fulliautomatisk::KeyFilter;
use fulliautomatisk::State;
use fulliautomatisk::StoreError;
use fulliautomatisk::RELOAD_TIMEOUT_SECS;

fn entry(key: &str, value: &str) -> Entry {
    Entry { key: key.to_string(), value: value.to_string() }
}

fn state_of(pairs: &[(&str, &str)]) -> State {
    let mut st = State::new();
    for (k, v) in pairs {
        st.insert(k.to_string(), v.to_string());
    }
    st
}

fn assert_same_state(a: &State, b: &State) {
    assert_eq!(a.len(), b.len());
    for i in 0..a.len() {
        let ea = a.entry_at(i);
        let eb = b.entry_at(i);
        assert_eq!(ea.key, eb.key);
        assert_eq!(ea.value, eb.value);
    }
}

#[test]
fn diff_of_state_with_itself_is_empty() {
    let st = state_of(&[("a", "1"), ("b", "2"), ("c", "3")]);
    let d = compare_state(&st, &st);
    assert!(d.is_empty());

    let empty = State::new();
    assert!(compare_state(&empty, &empty).is_empty());
}

#[test]
fn diff_round_trip_reproduces_current() {
    let a = state_of(&[("a", "1"), ("b", "2"), ("x", "9")]);
    let b = state_of(&[("b", "3"), ("c", "4")]);
    let d = compare_state(&a, &b);
    let rebuilt = apply_changes(&a, &d);
    assert_same_state(&rebuilt, &b);
}

#[test]
fn diff_is_deterministic() {
    let a = state_of(&[("k1", "v1"), ("k2", "v2"), ("k3", "v3")]);
    let b = state_of(&[("k0", "w0"), ("k2", "other"), ("k3", "v3")]);
    let d1 = compare_state(&a, &b);
    let d2 = compare_state(&a, &b);
    assert_eq!(d1, d2);
}

#[test]
fn diff_orders_removed_before_added() {
    let prev = state_of(&[("a", "1"), ("b", "2")]);
    let cur = state_of(&[("b", "2"), ("c", "3")]);
    let d = compare_state(&prev, &cur);
    assert_eq!(
        d,
        vec![
            Change::Removed("a".to_string()),
            Change::Added("c".to_string(), "3".to_string()),
        ]
    );
}

#[test]
fn diff_reports_modified_value() {
    let prev = state_of(&[("a", "1")]);
    let cur = state_of(&[("a", "2")]);
    let d = compare_state(&prev, &cur);
    assert_eq!(d, vec![Change::Modified("a".to_string(), "2".to_string())]);
}

#[test]
fn filter_matching_nothing_yields_all_removed() {
    let filter = Some(KeyFilter::new("^zzz").unwrap());
    let rows = vec![entry("a", "1"), entry("b", "2")];
    let empty = build_state(&rows, &filter);
    assert_eq!(empty.len(), 0);

    let prev = state_of(&[("a", "1"), ("b", "2")]);
    let d = compare_state(&prev, &empty);
    assert_eq!(
        d,
        vec![Change::Removed("a".to_string()), Change::Removed("b".to_string())]
    );
}

#[test]
fn filter_keeps_only_matching_keys() {
    let filter = Some(KeyFilter::new("^a").unwrap());
    let rows = vec![entry("alpha", "1"), entry("beta", "2"), entry("ant", "3")];
    let st = build_state(&rows, &filter);
    assert_eq!(st.len(), 2);
    assert_eq!(st.get(&"alpha".to_string()), Some(&"1".to_string()));
    assert_eq!(st.get(&"ant".to_string()), Some(&"3".to_string()));
    assert_eq!(st.get(&"beta".to_string()), None);
}

#[test]
fn invalid_filter_pattern_is_rejected() {
    assert!(KeyFilter::new("(").is_err());
    assert!(KeyFilter::new("^a[0-9]+$").is_ok());
}

#[test]
fn build_state_last_duplicate_wins_and_sorts() {
    let rows = vec![entry("b", "1"), entry("a", "2"), entry("b", "3")];
    let st = build_state(&rows, &None);
    assert_eq!(st.len(), 2);
    assert_eq!(st.entry_at(0).key, "a");
    assert_eq!(st.entry_at(1).key, "b");
    assert_eq!(st.get(&"b".to_string()), Some(&"3".to_string()));
}

#[test]
fn full_reload_on_unchanged_store_yields_no_event() {
    let mut det = Detector::new(None, InstanceId::generate());
    let rows = vec![entry("a", "1")];
    let first = det.process(false, Ok(rows.clone()));
    assert!(first.is_some());
    let again = det.process(true, Ok(rows));
    assert!(again.is_none());
}

#[test]
fn failed_reads_preserve_owned_state() {
    let mut det = Detector::new(None, InstanceId::generate());
    let rows = vec![entry("a", "1"), entry("b", "2")];
    assert!(det.process(false, Ok(rows)).is_some());

    for _ in 0..3 {
        let failed: Result<Vec<Entry>, StoreError> =
            Err(StoreError { message: "store unavailable".to_string() });
        assert!(det.process(false, failed).is_none());
    }

    // The next successful read is diffed against the last good snapshot.
    let ev = det
        .process(false, Ok(vec![entry("a", "1"), entry("b", "changed")]))
        .expect("a change event");
    assert_eq!(
        ev.changes,
        vec![Change::Modified("b".to_string(), "changed".to_string())]
    );
}

#[test]
fn event_carries_full_state_only_when_requested() {
    let mut det = Detector::new(None, InstanceId::generate());
    let ev = det.process(false, Ok(vec![entry("a", "1")])).unwrap();
    assert!(ev.full_state.is_none());

    let ev2 = det.process(true, Ok(vec![entry("a", "2")])).unwrap();
    let full = ev2.full_state.expect("full state attached");
    assert_eq!(full.len(), 1);
    assert_eq!(full.get(&"a".to_string()), Some(&"2".to_string()));
}

#[test]
fn change_counts_by_kind() {
    let changes = vec![
        Change::Added("a".to_string(), "1".to_string()),
        Change::Removed("b".to_string()),
        Change::Modified("c".to_string(), "2".to_string()),
        Change::Added("d".to_string(), "3".to_string()),
    ];
    assert_eq!(change_counts(&changes), (2, 1, 1));
}

#[test]
fn instance_id_is_hyphenated_lower_hex() {
    let id = InstanceId::generate();
    let text = id.as_str();
    assert_eq!(text.len(), 36);
    let bytes = text.as_bytes();
    for (pos, &b) in bytes.iter().enumerate() {
        if pos == 8 || pos == 13 || pos == 18 || pos == 23 {
            assert_eq!(b, b'-');
        } else {
            assert!(b.is_ascii_digit() || (b'a'..=b'f').contains(&b));
        }
    }
}

#[test]
fn trigger_decisions() {
    assert!(classify_fs_event(true, true).is_some());
    assert!(!classify_fs_event(true, true).unwrap().full);
    assert!(classify_fs_event(true, false).is_none());
    assert!(classify_fs_event(false, true).is_none());
    assert!(full_reload_request().full);
    assert_eq!(RELOAD_TIMEOUT_SECS, 600);
}

#[test]
fn key_order_is_lexicographic() {
    assert!(str_lt("a", "b"));
    assert!(!str_lt("b", "a"));
    assert!(!str_lt("a", "a"));
    assert!(str_lt("a", "ab"));
    assert!(!str_lt("ab", "a"));
    assert!(str_lt("", "a"));
}

#[test]
fn state_insert_overwrites_same_key() {
    let mut st = State::new();
    st.insert("k".to_string(), "1".to_string());
    st.insert("k".to_string(), "2".to_string());
    assert_eq!(st.len(), 1);
    assert_eq!(st.get(&"k".to_string()), Some(&"2".to_string()));
    st.remove(&"k".to_string());
    assert!(st.is_empty());
}
