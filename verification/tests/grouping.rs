use workspace_nav::grouping::group;
use workspace_nav::snapshot::Snapshot;
use workspace_nav::workspace::Workspace;

fn member(id: i32, output: &str, visible: bool, focused: bool) -> Workspace {
    Workspace { id, name: id.to_string(), output: output.to_string(), visible, focused }
}

#[test]
fn groups_are_in_the_order_of_their_smallest_ids() {
    let snapshot = Snapshot::new(vec![
        member(7, "right", false, false),
        member(4, "left", false, false),
        member(2, "right", true, false),
        member(1, "left", true, true),
        member(5, "middle", true, false),
    ]).unwrap();
    let grouping = group(&snapshot);
    assert_eq!(grouping.len(), 3);
    assert_eq!(grouping.get(0).output(), "left");
    assert_eq!(grouping.get(1).output(), "right");
    assert_eq!(grouping.get(2).output(), "middle");
}

#[test]
fn members_are_in_ascending_order_of_id() {
    let snapshot = Snapshot::new(vec![
        member(7, "A", false, false),
        member(1, "A", false, false),
        member(3, "A", true, true),
        member(-1, "A", false, false),
    ]).unwrap();
    let grouping = group(&snapshot);
    assert_eq!(grouping.len(), 1);
    let only = grouping.get(0);
    assert_eq!(only.len(), 4);
    assert_eq!(only.id_list(), vec![-1, 1, 3, 7]);
    assert_eq!(*only.get(2), member(3, "A", true, true));
}

#[test]
fn visiting_order_goes_group_by_group() {
    let snapshot = Snapshot::new(vec![
        member(7, "right", false, false),
        member(4, "left", false, false),
        member(2, "right", true, false),
        member(1, "left", true, true),
    ]).unwrap();
    let grouping = group(&snapshot);
    assert_eq!(grouping.id_list(), vec![1, 4, 2, 7]);
}

#[test]
fn groups_are_found_by_monitor_and_members_by_id() {
    let snapshot = Snapshot::new(vec![member(7, "right", true, false), member(4, "left", true, true)]).unwrap();
    let grouping = group(&snapshot);
    assert_eq!(grouping.position(&"left".to_string()), Some(0));
    assert_eq!(grouping.position(&"right".to_string()), Some(1));
    assert_eq!(grouping.position(&"up".to_string()), None);
    assert_eq!(grouping.get(0).position(4), Some(0));
    assert_eq!(grouping.get(0).position(7), None);
}

#[test]
fn first_visible_member() {
    let snapshot = Snapshot::new(vec![
        member(1, "left", false, true),
        member(2, "left", true, false),
        member(3, "left", false, false),
        member(4, "right", false, false),
    ]).unwrap();
    let grouping = group(&snapshot);
    assert_eq!(grouping.get(0).first_visible(), Some(2));
    assert_eq!(grouping.get(1).first_visible(), None);
}

#[test]
fn grouping_follows_a_rename() {
    let mut snapshot = Snapshot::new(vec![
        member(1, "A", false, false),
        member(3, "A", true, true),
        member(7, "A", false, false),
    ]).unwrap();
    assert!(snapshot.rename(1, 5));
    let grouping = group(&snapshot);
    assert_eq!(grouping.get(0).id_list(), vec![3, 5, 7]);
}
