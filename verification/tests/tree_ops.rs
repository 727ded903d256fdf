use oxidized_tasks::state::{Msg, State};
use oxidized_tasks::tree::Entry;

fn child_ids(s: &State) -> Vec<usize> {
    match &s.root {
        Entry::Folder(f) => f.entries.iter().map(|e| e.id()).collect(),
        Entry::Task(_) => panic!("root must be a folder"),
    }
}

#[test]
fn fresh_state_layout() {
    let s = State::new();
    assert_eq!(s.root.id(), 1);
    assert_eq!(s.view, 1);
    assert_eq!(s.add_task, 2);
    assert_eq!(s.add_folder, 3);
    assert_eq!(s.id.latest_id, 3);
    assert!(s.editing.is_none());
    assert!(s.check_wf());
}

#[test]
fn insert_task_appends_with_fresh_id() {
    let mut s = State::new();
    assert!(s.insert_task(1, String::from("Buy milk")));
    assert_eq!(s.id.latest_id, 4);
    match &s.root {
        Entry::Folder(f) => {
            assert_eq!(f.entries.len(), 1);
            match &f.entries[0] {
                Entry::Task(t) => {
                    assert_eq!(t.id, 4);
                    assert_eq!(t.name, "Buy milk");
                    assert!(!t.done);
                },
                _ => panic!("expected a task"),
            }
        },
        _ => panic!("expected the root folder"),
    }
    assert!(s.check_wf());
}

#[test]
fn insert_empty_name_consumes_no_id() {
    let mut s = State::new();
    assert!(!s.insert_task(1, String::new()));
    assert!(!s.insert_folder(1, String::new()));
    assert_eq!(s.id.latest_id, 3);
    assert_eq!(child_ids(&s).len(), 0);
}

#[test]
fn insert_into_missing_folder_is_rejected() {
    let mut s = State::new();
    assert!(!s.insert_task(99, String::from("nowhere")));
    assert_eq!(s.id.latest_id, 3);
}

#[test]
fn toggle_flips_and_flips_back() {
    let mut s = State::new();
    s.insert_task(1, String::from("Buy milk"));
    assert!(s.toggle(4));
    match s.root.find(4) {
        Some(Entry::Task(t)) => assert!(t.done),
        _ => panic!("task lost"),
    }
    assert!(s.toggle(4));
    match s.root.find(4) {
        Some(Entry::Task(t)) => assert!(!t.done),
        _ => panic!("task lost"),
    }
}

#[test]
fn toggle_rejects_folders_and_missing_ids() {
    let mut s = State::new();
    s.insert_folder(1, String::from("Work"));
    assert!(!s.toggle(4));
    assert!(!s.toggle(99));
}

#[test]
fn move_down_swaps_neighbours() {
    let mut s = State::new();
    s.insert_task(1, String::from("a"));
    s.insert_task(1, String::from("b"));
    s.insert_task(1, String::from("c"));
    assert_eq!(child_ids(&s), vec![4, 5, 6]);
    assert!(s.update(Msg::MoveDown(4)));
    assert_eq!(child_ids(&s), vec![5, 4, 6]);
}

#[test]
fn move_wraps_around() {
    let mut s = State::new();
    s.insert_task(1, String::from("a"));
    s.insert_task(1, String::from("b"));
    s.insert_task(1, String::from("c"));
    assert!(s.move_up(1, 4));
    assert_eq!(child_ids(&s), vec![5, 6, 4]);
    assert!(s.move_down(1, 4));
    assert_eq!(child_ids(&s), vec![4, 5, 6]);
}

#[test]
fn move_to_current_position_changes_nothing() {
    let mut s = State::new();
    s.insert_task(1, String::from("a"));
    s.insert_task(1, String::from("b"));
    assert!(s.move_entry(1, 5, 1));
    assert_eq!(child_ids(&s), vec![4, 5]);
    assert!(s.check_wf());
}

#[test]
fn move_into_own_subtree_is_rejected() {
    let mut s = State::new();
    s.insert_folder(1, String::from("outer"));
    s.insert_folder(4, String::from("inner"));
    assert!(!s.move_entry(5, 4, 0));
    assert!(!s.move_entry(4, 4, 0));
    assert_eq!(child_ids(&s), vec![4]);
    assert!(s.check_wf());
}

#[test]
fn move_across_folders_reparents() {
    let mut s = State::new();
    s.insert_folder(1, String::from("Work"));
    s.insert_task(1, String::from("loose"));
    assert!(s.move_entry(4, 5, 0));
    match s.root.find(4) {
        Some(Entry::Folder(f)) => {
            assert_eq!(f.entries.len(), 1);
            assert_eq!(f.entries[0].id(), 5);
        },
        _ => panic!("folder lost"),
    }
    assert!(s.check_wf());
}

#[test]
fn move_past_end_is_rejected() {
    let mut s = State::new();
    s.insert_task(1, String::from("a"));
    s.insert_task(1, String::from("b"));
    assert!(!s.move_entry(1, 4, 2));
    assert_eq!(child_ids(&s), vec![4, 5]);
}

#[test]
fn delete_removes_whole_subtree() {
    let mut s = State::new();
    s.insert_folder(1, String::from("Work"));
    s.insert_task(4, String::from("report"));
    assert!(s.root.find(4).is_some());
    assert!(s.root.find(5).is_some());
    assert!(s.delete(4));
    assert!(s.root.find(4).is_none());
    assert!(s.root.find(5).is_none());
    assert_eq!(child_ids(&s).len(), 0);
    assert!(s.check_wf());
}

#[test]
fn delete_missing_id_is_a_quiet_no_op() {
    let mut s = State::new();
    s.insert_task(1, String::from("a"));
    assert!(!s.delete(99));
    assert_eq!(child_ids(&s), vec![4]);
}

#[test]
fn navigation_go_and_back() {
    let mut s = State::new();
    s.insert_folder(1, String::from("Work"));
    s.go(4);
    assert_eq!(s.view, 4);
    assert!(s.go_back());
    assert_eq!(s.view, 1);
    assert!(!s.go_back());
    assert_eq!(s.view, 1);
}

#[test]
fn go_accepts_missing_ids_and_back_then_fails() {
    let mut s = State::new();
    s.go(42);
    assert_eq!(s.view, 42);
    assert!(!s.go_back());
    assert_eq!(s.view, 42);
}

#[test]
fn edit_session_renames_on_finish() {
    let mut s = State::new();
    s.insert_task(1, String::from("a"));
    assert!(s.update(Msg::BeginInput(4)));
    assert!(s.update(Msg::UpdateInput(String::from("shopping"))));
    assert!(s.update(Msg::FinishInput(4)));
    match s.root.find(4) {
        Some(Entry::Task(t)) => assert_eq!(t.name, "shopping"),
        _ => panic!("task lost"),
    }
    assert!(s.input.is_empty());
    assert!(s.editing.is_none());
}

#[test]
fn finish_outside_session_or_empty_does_nothing() {
    let mut s = State::new();
    s.insert_task(1, String::from("a"));
    assert!(!s.update(Msg::FinishInput(4)));
    s.update(Msg::BeginInput(4));
    assert!(!s.update(Msg::FinishInput(4)));
    match s.root.find(4) {
        Some(Entry::Task(t)) => assert_eq!(t.name, "a"),
        _ => panic!("task lost"),
    }
}

#[test]
fn add_task_through_the_edit_session() {
    let mut s = State::new();
    s.update(Msg::BeginInput(2));
    s.update(Msg::UpdateInput(String::from("Buy milk")));
    assert!(s.update(Msg::AddTask));
    assert_eq!(child_ids(&s), vec![4]);
    assert!(s.input.is_empty());
    assert!(s.editing.is_none());
    s.update(Msg::BeginInput(3));
    s.update(Msg::UpdateInput(String::from("Work")));
    assert!(s.update(Msg::AddFolder));
    assert_eq!(child_ids(&s), vec![4, 5]);
    match s.root.find(5) {
        Some(Entry::Folder(f)) => {
            assert_eq!(f.name, "Work");
            assert_eq!(f.parent, Some(1));
        },
        _ => panic!("expected a folder"),
    }
}

#[test]
fn navigation_through_the_dispatcher() {
    let mut s = State::new();
    s.insert_folder(1, String::from("Work"));
    assert!(s.update(Msg::Go(4)));
    assert_eq!(s.view, 4);
    assert!(s.update(Msg::GoBack));
    assert_eq!(s.view, 1);
}

#[test]
fn transport_commands_change_nothing_locally() {
    let mut s = State::new();
    s.insert_task(1, String::from("a"));
    let before_ids = child_ids(&s);
    assert!(!s.update(Msg::GetState));
    assert!(!s.update(Msg::PostState));
    assert!(!s.update(Msg::Nope));
    assert_eq!(child_ids(&s), before_ids);
}

#[test]
fn got_state_replaces_the_whole_state() {
    let mut s = State::new();
    s.insert_task(1, String::from("old"));
    let mut incoming = State::new();
    incoming.insert_folder(1, String::from("incoming"));
    assert!(s.update(Msg::GotState(incoming)));
    match s.root.find(4) {
        Some(Entry::Folder(f)) => assert_eq!(f.name, "incoming"),
        _ => panic!("replacement lost"),
    }
}

#[test]
fn ids_stay_distinct_under_many_inserts_and_moves() {
    let mut s = State::new();
    for i in 0..8 {
        if i % 2 == 0 {
            s.insert_task(1, format!("t{}", i));
        } else {
            s.insert_folder(1, format!("f{}", i));
        }
    }
    s.insert_task(5, String::from("inside"));
    assert!(s.move_entry(5, 4, 0));
    assert!(s.move_entry(1, 12, 0));
    assert!(s.check_wf());
}
