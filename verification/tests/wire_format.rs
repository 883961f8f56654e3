use fulliautomatisk::compare_state;
use fulliautomatisk::encode_event;
use fulliautomatisk::Change;
use fulliautomatisk::ChangeEvent;
use fulliautomatisk::Detector;
use fulliautomatisk::Entry;
use fulliautomatisk::InstanceId;
use fulliautomatisk::State;

fn entry(key: &str, value: &str) -> Entry {
    Entry { key: key.to_string(), value: value.to_string() }
}

fn state_of(pairs: &[(&str, &str)]) -> State {
    let mut st = State::new();
    for (k, v) in pairs {
        st.insert(k.to_string(), v.to_string());
    }
    st
}

fn payload_text(event: &ChangeEvent) -> String {
    String::from_utf8(encode_event(event)).expect("payload is UTF-8")
}

#[test]
fn incremental_payload_shape() {
    let event = ChangeEvent {
        instance: "abc".to_string(),
        changes: vec![
            Change::Added("k".to_string(), "v".to_string()),
            Change::Removed("old".to_string()),
            Change::Modified("m".to_string(), "new".to_string()),
        ],
        full_state: None,
    };
    let expected = "{\"instance\":\"abc\",\"changes\":[{\"Added\":[\"k\",\"v\"]},{\"Removed\":\"old\"},{\"Modified\":[\"m\",\"new\"]}]}";
    assert_eq!(payload_text(&event), expected);
}

#[test]
fn full_payload_carries_state_in_key_order() {
    let event = ChangeEvent {
        instance: "id-1".to_string(),
        changes: vec![Change::Modified("a".to_string(), "2".to_string())],
        full_state: Some(state_of(&[("b", "9"), ("a", "2")])),
    };
    let expected = "{\"instance\":\"id-1\",\"full_state\":{\"a\":\"2\",\"b\":\"9\"},\"changes\":[{\"Modified\":[\"a\",\"2\"]}]}";
    assert_eq!(payload_text(&event), expected);
}

#[test]
fn empty_changes_array() {
    let event = ChangeEvent {
        instance: "x".to_string(),
        changes: Vec::new(),
        full_state: None,
    };
    assert_eq!(payload_text(&event), "{\"instance\":\"x\",\"changes\":[]}");
}

#[test]
fn text_is_escaped_byte_for_byte() {
    let event = ChangeEvent {
        instance: "i".to_string(),
        changes: vec![Change::Added(
            "he\"llo".to_string(),
            "back\\slash\nand\ttab".to_string(),
        )],
        full_state: None,
    };
    let expected = "{\"instance\":\"i\",\"changes\":[{\"Added\":[\"he\\\"llo\",\"back\\\\slash\\u000aand\\u0009tab\"]}]}";
    assert_eq!(payload_text(&event), expected);
}

#[test]
fn multibyte_text_passes_through() {
    let event = ChangeEvent {
        instance: "i".to_string(),
        changes: vec![Change::Added("clé".to_string(), "värde".to_string())],
        full_state: None,
    };
    assert_eq!(
        payload_text(&event),
        "{\"instance\":\"i\",\"changes\":[{\"Added\":[\"clé\",\"värde\"]}]}"
    );
}

#[test]
fn delivery_failure_does_not_affect_next_event() {
    // Two cycles produce two independent events; the first delivery failing
    // changes nothing about the second payload.
    let mut det = Detector::new(None, InstanceId::generate());
    let first = det.process(false, Ok(vec![entry("a", "1")])).expect("first event");
    let second = det
        .process(false, Ok(vec![entry("a", "1"), entry("b", "2")]))
        .expect("second event");

    let first_payload = encode_event(&first);
    // Simulated outcome of posting `first_payload`: failure. The worker
    // drops the event and simply moves on to the next one.
    drop(first_payload);
    let second_payload = payload_text(&second);
    assert!(second_payload.contains("{\"Added\":[\"b\",\"2\"]}"));
    assert_eq!(second.changes, vec![Change::Added("b".to_string(), "2".to_string())]);
}

#[test]
fn diff_payload_matches_diff() {
    let prev = state_of(&[("a", "1"), ("b", "2")]);
    let cur = state_of(&[("b", "3")]);
    let changes = compare_state(&prev, &cur);
    let event = ChangeEvent {
        instance: "z".to_string(),
        changes,
        full_state: None,
    };
    let expected = "{\"instance\":\"z\",\"changes\":[{\"Removed\":\"a\"},{\"Modified\":[\"b\",\"3\"]}]}";
    assert_eq!(payload_text(&event), expected);
}
