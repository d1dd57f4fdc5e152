use workspace_nav::grouping::group;
use workspace_nav::intent::Intent;
use workspace_nav::resolver::resolve;
use workspace_nav::snapshot::Snapshot;
use workspace_nav::workspace::Workspace;

fn entry(id: i32, output: &str, visible: bool, focused: bool) -> Workspace {
    Workspace { id, name: id.to_string(), output: output.to_string(), visible, focused }
}

fn one_monitor(ids: &[i32], focus: i32) -> Snapshot {
    let listing = ids.iter().map(|&id| entry(id, "A", id == focus, id == focus)).collect();
    Snapshot::new(listing).unwrap()
}

fn resolved(intent: Intent, snapshot: &Snapshot) -> Option<i32> {
    resolve(intent, snapshot, &group(snapshot))
}

#[test]
fn next_goes_to_the_following_workspace() {
    assert_eq!(resolved(Intent::Next, &one_monitor(&[1, 3, 7], 3)), Some(7));
}

#[test]
fn next_wraps_to_the_first() {
    assert_eq!(resolved(Intent::Next, &one_monitor(&[1, 3, 7], 7)), Some(1));
}

#[test]
fn previous_wraps_to_the_last() {
    assert_eq!(resolved(Intent::Previous, &one_monitor(&[1, 3, 7], 1)), Some(7));
}

#[test]
fn previous_goes_to_the_preceding_workspace() {
    assert_eq!(resolved(Intent::Previous, &one_monitor(&[1, 3, 7], 7)), Some(3));
    assert_eq!(resolved(Intent::Previous, &one_monitor(&[1, 3, 7], 3)), Some(1));
}

#[test]
fn next_and_previous_follow_ids_not_the_listing() {
    assert_eq!(resolved(Intent::Next, &one_monitor(&[7, 1, 3], 3)), Some(7));
    assert_eq!(resolved(Intent::Previous, &one_monitor(&[7, 1, 3], 3)), Some(1));
}

#[test]
fn a_lone_workspace_is_its_own_neighbour() {
    assert_eq!(resolved(Intent::Next, &one_monitor(&[4], 4)), Some(4));
    assert_eq!(resolved(Intent::Previous, &one_monitor(&[4], 4)), Some(4));
}

#[test]
fn next_stays_on_the_monitor_of_the_focus() {
    let snapshot = Snapshot::new(vec![
        entry(1, "left", false, false),
        entry(2, "right", true, false),
        entry(3, "left", true, true),
        entry(4, "right", false, false),
        entry(5, "left", false, false),
    ]).unwrap();
    assert_eq!(resolved(Intent::Next, &snapshot), Some(5));
    assert_eq!(resolved(Intent::Previous, &snapshot), Some(1));
}

#[test]
fn end_is_one_past_the_greatest_id() {
    assert_eq!(resolved(Intent::JumpToEnd, &one_monitor(&[1, 3, 7], 3)), Some(8));
    assert_eq!(resolved(Intent::JumpToEnd, &one_monitor(&[1, 3, 7], 7)), Some(8));
    let snapshot = Snapshot::new(vec![entry(1, "left", true, true), entry(12, "right", true, false)]).unwrap();
    assert_eq!(resolved(Intent::JumpToEnd, &snapshot), Some(13));
}

#[test]
fn start_is_one_before_the_smallest_id() {
    assert_eq!(resolved(Intent::JumpToStart, &one_monitor(&[2, 3, 7], 3)), Some(1));
}

#[test]
fn start_may_be_negative() {
    assert_eq!(resolved(Intent::JumpToStart, &one_monitor(&[0, 2, 5], 2)), Some(-1));
    assert_eq!(resolved(Intent::JumpToStart, &one_monitor(&[-1, 2, 5], 5)), Some(-2));
}

#[test]
fn start_from_the_first_workspace_is_nothing_to_do() {
    assert_eq!(resolved(Intent::JumpToStart, &one_monitor(&[1, 3, 7], 1)), None);
    assert_eq!(resolved(Intent::JumpToStart, &one_monitor(&[0, 2, 5], 0)), None);
    let snapshot = Snapshot::new(vec![entry(4, "left", true, false), entry(2, "right", true, true)]).unwrap();
    assert_eq!(resolved(Intent::JumpToStart, &snapshot), None);
}

#[test]
fn other_monitor_is_its_visible_workspace() {
    let snapshot = Snapshot::new(vec![
        entry(1, "left", false, false),
        entry(2, "right", false, false),
        entry(3, "left", true, true),
        entry(4, "right", true, false),
    ]).unwrap();
    assert_eq!(resolved(Intent::NearestOtherMonitor, &snapshot), Some(4));
}

#[test]
fn other_monitor_skips_the_monitor_of_the_focus() {
    let snapshot = Snapshot::new(vec![
        entry(3, "left", true, true),
        entry(1, "left", false, false),
        entry(9, "right", true, false),
    ]).unwrap();
    assert_eq!(resolved(Intent::NearestOtherMonitor, &snapshot), Some(9));
}

#[test]
fn with_three_monitors_the_first_group_with_a_visible_workspace_wins() {
    let snapshot = Snapshot::new(vec![
        entry(5, "middle", true, true),
        entry(8, "right", true, false),
        entry(2, "left", true, false),
    ]).unwrap();
    assert_eq!(resolved(Intent::NearestOtherMonitor, &snapshot), Some(2));
    let snapshot = Snapshot::new(vec![
        entry(5, "middle", true, true),
        entry(8, "right", true, false),
        entry(2, "left", false, false),
        entry(9, "left", true, false),
    ]).unwrap();
    assert_eq!(resolved(Intent::NearestOtherMonitor, &snapshot), Some(9));
    let snapshot = Snapshot::new(vec![
        entry(5, "middle", true, true),
        entry(8, "right", true, false),
        entry(2, "left", false, false),
    ]).unwrap();
    assert_eq!(resolved(Intent::NearestOtherMonitor, &snapshot), Some(8));
}

#[test]
fn other_monitor_without_a_visible_workspace_is_nothing_to_do() {
    let snapshot = Snapshot::new(vec![entry(3, "left", true, true), entry(9, "right", false, false)]).unwrap();
    assert_eq!(resolved(Intent::NearestOtherMonitor, &snapshot), None);
    assert_eq!(resolved(Intent::NearestOtherMonitor, &one_monitor(&[1, 3, 7], 3)), None);
}

#[test]
fn collapse_has_no_destination() {
    assert_eq!(resolved(Intent::Collapse, &one_monitor(&[1, 3, 7], 3)), None);
}
