use oxidized_tasks::codec::{decode_state, encode_normalized, encode_state};
use oxidized_tasks::state::State;

fn text(v: &Vec<char>) -> String {
    v.iter().collect()
}

#[test]
fn fresh_state_encodes_to_the_expected_json() {
    let s = State::new();
    let expected = "{\"root\":{\"Folder\":{\"name\":\"Root folder\",\"entries\":[],\"parent\":null,\"id\":1}},\"view\":1,\"id\":{\"latest_id\":3},\"input\":\"\",\"add_task\":2,\"add_folder\":3,\"editing\":null}";
    assert_eq!(text(&encode_state(&s)), expected);
}

#[test]
fn populated_state_encodes_tasks_and_folders() {
    let mut s = State::new();
    s.insert_task(1, String::from("Buy milk"));
    s.insert_folder(1, String::from("Work"));
    s.toggle(4);
    let expected = "{\"root\":{\"Folder\":{\"name\":\"Root folder\",\"entries\":[{\"Task\":{\"name\":\"Buy milk\",\"done\":true,\"id\":4}},{\"Folder\":{\"name\":\"Work\",\"entries\":[],\"parent\":1,\"id\":5}}],\"parent\":null,\"id\":1}},\"view\":1,\"id\":{\"latest_id\":5},\"input\":\"\",\"add_task\":2,\"add_folder\":3,\"editing\":null}";
    assert_eq!(text(&encode_state(&s)), expected);
}

#[test]
fn round_trip_reproduces_the_state() {
    let mut s = State::new();
    s.insert_task(1, String::from("Buy milk"));
    s.insert_folder(1, String::from("Work"));
    s.insert_task(5, String::from("report"));
    s.toggle(4);
    let bytes = encode_state(&s);
    let back = decode_state(&bytes).expect("the encoder's output must decode");
    assert_eq!(back, s);
}

#[test]
fn round_trip_keeps_names_that_need_escaping() {
    let mut s = State::new();
    s.insert_task(1, String::from("say \"hi\" \\ and\nnewline\ttab"));
    let bytes = encode_state(&s);
    let back = decode_state(&bytes).expect("escaped names must decode");
    assert_eq!(back, s);
    match back.root.find(4) {
        Some(oxidized_tasks::tree::Entry::Task(t)) => {
            assert_eq!(t.name, "say \"hi\" \\ and\nnewline\ttab");
        },
        _ => panic!("task lost"),
    }
}

#[test]
fn push_then_pull_yields_the_normalized_state() {
    let mut s = State::new();
    s.insert_folder(1, String::from("Work"));
    s.go(4);
    s.begin_input(4);
    s.update_input(String::from("pending"));
    let remote = encode_normalized(&s);
    let pulled = decode_state(&remote).expect("the pushed snapshot must decode");
    assert_eq!(pulled.root, s.root);
    assert_eq!(pulled.view, 1);
    assert_eq!(pulled.editing, None);
    assert_eq!(pulled.input, s.input);
    assert_eq!(pulled.id, s.id);
    assert_eq!(pulled.add_task, s.add_task);
    assert_eq!(pulled.add_folder, s.add_folder);
}

#[test]
fn corrupt_payloads_are_rejected() {
    assert!(decode_state(&Vec::new()).is_none());
    assert!(decode_state(&"not json".chars().collect()).is_none());
    let mut s = State::new();
    s.insert_task(1, String::from("a"));
    let mut bytes = encode_state(&s);
    bytes.pop();
    assert!(decode_state(&bytes).is_none());
}

#[test]
fn snapshots_with_duplicate_ids_are_rejected() {
    let forged = "{\"root\":{\"Folder\":{\"name\":\"r\",\"entries\":[{\"Task\":{\"name\":\"a\",\"done\":false,\"id\":1}}],\"parent\":null,\"id\":1}},\"view\":1,\"id\":{\"latest_id\":3},\"input\":\"\",\"add_task\":2,\"add_folder\":3,\"editing\":null}";
    assert!(decode_state(&forged.chars().collect()).is_none());
}

#[test]
fn snapshots_with_wrong_parents_are_rejected() {
    let forged = "{\"root\":{\"Folder\":{\"name\":\"r\",\"entries\":[{\"Folder\":{\"name\":\"w\",\"entries\":[],\"parent\":9,\"id\":4}}],\"parent\":null,\"id\":1}},\"view\":1,\"id\":{\"latest_id\":4},\"input\":\"\",\"add_task\":2,\"add_folder\":3,\"editing\":null}";
    assert!(decode_state(&forged.chars().collect()).is_none());
}

#[test]
fn handwritten_canonical_snapshots_are_accepted() {
    let text = "{\"root\":{\"Folder\":{\"name\":\"r\",\"entries\":[{\"Task\":{\"name\":\"a\",\"done\":false,\"id\":4}}],\"parent\":null,\"id\":1}},\"view\":1,\"id\":{\"latest_id\":4},\"input\":\"\",\"add_task\":2,\"add_folder\":3,\"editing\":null}";
    let st = decode_state(&text.chars().collect()).expect("a canonical snapshot must decode");
    assert_eq!(st.view, 1);
    assert_eq!(st.id.latest_id, 4);
    match st.root.find(4) {
        Some(oxidized_tasks::tree::Entry::Task(t)) => {
            assert_eq!(t.name, "a");
            assert!(!t.done);
        },
        _ => panic!("task lost"),
    }
}

#[test]
fn control_characters_escape_as_hex() {
    let mut s = State::new();
    s.insert_task(1, String::from("a\u{1}b"));
    let t = text(&encode_state(&s));
    assert!(t.contains("a\\u0001b"));
    let back = decode_state(&encode_state(&s)).expect("must decode");
    assert_eq!(back, s);
}
