use workspace_nav::command::Command;
use workspace_nav::snapshot::{Snapshot, SnapshotError};
use workspace_nav::workspace::Workspace;

fn listed(id: i32, output: &str, visible: bool, focused: bool) -> Workspace {
    Workspace { id, name: id.to_string(), output: output.to_string(), visible, focused }
}

fn two_monitors() -> Vec<Workspace> {
    vec![
        listed(4, "left", false, false),
        listed(1, "left", true, true),
        listed(2, "right", true, false),
        listed(9, "right", false, false),
    ]
}

#[test]
fn a_consistent_listing_is_taken_in_ascending_order_of_id() {
    let snapshot = Snapshot::new(two_monitors()).unwrap();
    assert_eq!(snapshot.len(), 4);
    assert_eq!(snapshot.id_list(), vec![1, 2, 4, 9]);
    assert_eq!(*snapshot.get(0), listed(1, "left", true, true));
    assert_eq!(*snapshot.get(1), listed(2, "right", true, false));
    assert_eq!(*snapshot.get(2), listed(4, "left", false, false));
    assert_eq!(*snapshot.get(3), listed(9, "right", false, false));
}

#[test]
fn a_listing_in_descending_order_is_turned_round() {
    let listing = vec![
        listed(5, "A", false, false),
        listed(3, "A", true, true),
        listed(0, "A", false, false),
        listed(-1, "A", false, false),
    ];
    let snapshot = Snapshot::new(listing).unwrap();
    assert_eq!(snapshot.id_list(), vec![-1, 0, 3, 5]);
    assert_eq!(snapshot.focused_index(), 2);
}

#[test]
fn duplicate_ids_are_refused() {
    let listing = vec![listed(1, "left", true, true), listed(1, "right", true, false)];
    assert_eq!(Snapshot::new(listing).err(), Some(SnapshotError::DuplicateId));
}

#[test]
fn a_listing_without_focus_is_refused() {
    let listing = vec![listed(1, "left", true, false), listed(2, "right", true, false)];
    assert_eq!(Snapshot::new(listing).err(), Some(SnapshotError::NoFocus));
    assert_eq!(Snapshot::new(Vec::new()).err(), Some(SnapshotError::NoFocus));
}

#[test]
fn two_focused_workspaces_are_refused() {
    let listing = vec![listed(1, "left", true, true), listed(2, "right", true, true)];
    assert_eq!(Snapshot::new(listing).err(), Some(SnapshotError::SeveralFocused));
}

#[test]
fn two_visible_workspaces_on_one_monitor_are_refused() {
    let listing = vec![listed(1, "left", true, true), listed(2, "left", true, false)];
    assert_eq!(Snapshot::new(listing).err(), Some(SnapshotError::SeveralVisible));
}

#[test]
fn a_shared_id_is_reported_before_the_focus() {
    let listing = vec![listed(1, "left", true, false), listed(1, "left", true, false)];
    assert_eq!(Snapshot::new(listing).err(), Some(SnapshotError::DuplicateId));
}

#[test]
fn smallest_and_greatest_id() {
    let snapshot = Snapshot::new(two_monitors()).unwrap();
    assert_eq!(snapshot.min_id(), 1);
    assert_eq!(snapshot.max_id(), 9);
    let single = Snapshot::new(vec![listed(-3, "left", true, true)]).unwrap();
    assert_eq!(single.min_id(), -3);
    assert_eq!(single.max_id(), -3);
}

#[test]
fn the_focused_workspace_is_found() {
    let snapshot = Snapshot::new(two_monitors()).unwrap();
    assert_eq!(snapshot.focused_index(), 0);
    assert_eq!(snapshot.focused().id, 1);
}

#[test]
fn position_finds_an_id() {
    let snapshot = Snapshot::new(two_monitors()).unwrap();
    assert_eq!(snapshot.position(2), Some(1));
    assert_eq!(snapshot.position(9), Some(3));
    assert_eq!(snapshot.position(3), None);
}

#[test]
fn rename_changes_id_and_name_and_nothing_else() {
    let mut snapshot = Snapshot::new(two_monitors()).unwrap();
    assert!(snapshot.rename(4, 12));
    assert_eq!(snapshot.id_list(), vec![1, 2, 12, 9]);
    assert_eq!(
        *snapshot.get(2),
        Workspace { id: 12, name: "12".to_string(), output: "left".to_string(), visible: false, focused: false }
    );
    assert_eq!(*snapshot.get(0), listed(1, "left", true, true));
}

#[test]
fn rename_onto_a_taken_id_is_refused() {
    let mut snapshot = Snapshot::new(two_monitors()).unwrap();
    assert!(!snapshot.rename(4, 9));
    assert_eq!(snapshot.id_list(), vec![1, 2, 4, 9]);
    assert_eq!(*snapshot.get(2), listed(4, "left", false, false));
}

#[test]
fn rename_of_a_missing_id_changes_nothing() {
    let mut snapshot = Snapshot::new(two_monitors()).unwrap();
    assert!(snapshot.rename(5, 6));
    assert!(snapshot.rename(5, 9));
    assert_eq!(snapshot.id_list(), vec![1, 2, 4, 9]);
}

#[test]
fn rename_onto_itself_changes_nothing() {
    let mut snapshot = Snapshot::new(vec![Workspace {
        id: 4,
        name: "mail".to_string(),
        output: "left".to_string(),
        visible: true,
        focused: true,
    }]).unwrap();
    assert!(snapshot.rename(4, 4));
    assert_eq!(snapshot.get(0).name, "mail");
    assert_eq!(snapshot.get(0).id, 4);
}

#[test]
fn apply_runs_renames_in_order() {
    let mut snapshot = Snapshot::new(two_monitors()).unwrap();
    let cmds = vec![
        Command::Rename { from: 9, to: 10 },
        Command::Focus { id: 2 },
        Command::Rename { from: 4, to: 9 },
        Command::MoveContainer { id: 9 },
    ];
    assert!(snapshot.apply(&cmds));
    assert_eq!(snapshot.id_list(), vec![1, 2, 9, 10]);
    assert_eq!(snapshot.focused().id, 1);
}

#[test]
fn apply_reports_a_refused_rename_and_goes_on() {
    let mut snapshot = Snapshot::new(two_monitors()).unwrap();
    let cmds = vec![Command::Rename { from: 4, to: 9 }, Command::Rename { from: 1, to: 0 }];
    assert!(!snapshot.apply(&cmds));
    assert_eq!(snapshot.id_list(), vec![0, 2, 4, 9]);
}

#[test]
fn copy_is_equal_and_independent() {
    let mut snapshot = Snapshot::new(two_monitors()).unwrap();
    let twin = snapshot.copy();
    assert!(snapshot.rename(1, 0));
    assert_eq!(twin.id_list(), vec![1, 2, 4, 9]);
    assert_eq!(snapshot.id_list(), vec![0, 2, 4, 9]);
    assert_eq!(*twin.get(0), listed(1, "left", true, true));
}
