use workspace_nav::command::Command;
use workspace_nav::helper::{Helper, HelperError, RunError};
use workspace_nav::intent::{InvalidIntentError, Options};
use workspace_nav::snapshot::SnapshotError;
use workspace_nav::workspace::Workspace;

fn space(id: i32, output: &str, visible: bool, focused: bool) -> Workspace {
    Workspace { id, name: id.to_string(), output: output.to_string(), visible, focused }
}

fn on_one_monitor(ids: &[i32], focus: i32) -> Vec<Workspace> {
    ids.iter().map(|&id| space(id, "A", id == focus, id == focus)).collect()
}

fn to(from: i32, to: i32) -> Command {
    Command::Rename { from, to }
}

#[test]
fn conflicting_switches_make_no_helper() {
    let options = Options { next: true, end: true, ..Default::default() };
    let r = Helper::new(options, on_one_monitor(&[1, 3, 7], 3));
    assert_eq!(r.err(), Some(HelperError::Intent(InvalidIntentError::ConflictingDirections)));
}

#[test]
fn no_switch_makes_no_helper() {
    let r = Helper::new(Options::default(), on_one_monitor(&[1, 3, 7], 3));
    assert_eq!(r.err(), Some(HelperError::Intent(InvalidIntentError::NothingSelected)));
}

#[test]
fn the_switches_are_checked_before_the_listing() {
    let r = Helper::new(Options::default(), on_one_monitor(&[1, 1], 1));
    assert_eq!(r.err(), Some(HelperError::Intent(InvalidIntentError::NothingSelected)));
}

#[test]
fn an_inconsistent_listing_makes_no_helper() {
    let options = Options { next: true, ..Default::default() };
    let r = Helper::new(options, vec![space(1, "A", true, true), space(1, "B", true, false)]);
    assert_eq!(r.err(), Some(HelperError::Listing(SnapshotError::DuplicateId)));
    let r = Helper::new(options, vec![space(1, "A", true, false)]);
    assert_eq!(r.err(), Some(HelperError::Listing(SnapshotError::NoFocus)));
}

#[test]
fn a_helper_keeps_switches_and_listing() {
    let options = Options { next: true, window: true, ..Default::default() };
    let helper = Helper::new(options, on_one_monitor(&[7, 1, 3], 3)).unwrap();
    assert_eq!(helper.options(), options);
    assert_eq!(helper.snapshot().id_list(), vec![1, 3, 7]);
    assert_eq!(helper.grouping().id_list(), vec![1, 3, 7]);
    assert_eq!(helper.get_current_workspace().id, 3);
}

#[test]
fn the_target_is_resolved_from_the_switches() {
    let helper = Helper::new(Options { next: true, ..Default::default() }, on_one_monitor(&[1, 3, 7], 3)).unwrap();
    assert_eq!(helper.get_target_workspace_id(), Ok(Some(7)));
    let helper = Helper::new(Options { start: true, ..Default::default() }, on_one_monitor(&[1, 3, 7], 1)).unwrap();
    assert_eq!(helper.get_target_workspace_id(), Ok(None));
    let helper =
        Helper::new(Options { end: true, ..Default::default() }, on_one_monitor(&[1, i32::MAX], 1)).unwrap();
    assert_eq!(helper.get_target_workspace_id(), Err(RunError::IdOutOfRange));
    let helper =
        Helper::new(Options { start: true, ..Default::default() }, on_one_monitor(&[1, i32::MIN], 1)).unwrap();
    assert_eq!(helper.get_target_workspace_id(), Err(RunError::IdOutOfRange));
    let helper =
        Helper::new(Options { start: true, ..Default::default() }, on_one_monitor(&[1, i32::MIN], i32::MIN))
            .unwrap();
    assert_eq!(helper.get_target_workspace_id(), Ok(None));
}

#[test]
fn plain_next_only_switches_the_focus() {
    let mut helper =
        Helper::new(Options { next: true, ..Default::default() }, on_one_monitor(&[1, 3, 7], 3)).unwrap();
    let run = helper.run().unwrap();
    assert_eq!(run.commands, vec![Command::Focus { id: 7 }]);
    assert!(!run.shifted);
    assert_eq!(helper.snapshot().id_list(), vec![1, 3, 7]);
}

#[test]
fn with_window_the_window_moves_and_the_focus_follows() {
    let options = Options { previous: true, window: true, ..Default::default() };
    let mut helper = Helper::new(options, on_one_monitor(&[1, 3, 7], 3)).unwrap();
    let run = helper.run().unwrap();
    assert_eq!(run.commands, vec![Command::MoveContainer { id: 1 }, Command::Focus { id: 1 }]);
    assert!(!run.shifted);
}

#[test]
fn window_to_the_end_goes_to_a_new_id() {
    let options = Options { end: true, window: true, ..Default::default() };
    let mut helper = Helper::new(options, on_one_monitor(&[1, 3, 7], 3)).unwrap();
    let run = helper.run().unwrap();
    assert_eq!(run.commands, vec![Command::MoveContainer { id: 8 }, Command::Focus { id: 8 }]);
}

#[test]
fn with_workspace_the_two_workspaces_swap_ids() {
    let options = Options { next: true, workspace: true, ..Default::default() };
    let mut helper = Helper::new(options, on_one_monitor(&[1, 3, 7], 3)).unwrap();
    let run = helper.run().unwrap();
    assert_eq!(run.commands, vec![to(7, 17), to(3, 7), to(17, 3)]);
    assert!(!run.shifted);
    assert_eq!(helper.snapshot().id_list(), vec![1, 7, 3]);
    assert_eq!(helper.get_current_workspace().id, 7);
    assert_eq!(helper.grouping().id_list(), vec![1, 3, 7]);
}

#[test]
fn workspace_to_the_end_takes_the_id_past_the_last() {
    let options = Options { end: true, workspace: true, ..Default::default() };
    let mut helper = Helper::new(options, on_one_monitor(&[1, 3, 7], 3)).unwrap();
    let run = helper.run().unwrap();
    assert_eq!(run.commands, vec![to(8, 17), to(3, 8), to(17, 3)]);
    assert_eq!(helper.snapshot().id_list(), vec![1, 8, 7]);
    assert_eq!(helper.snapshot().get(1).name, "8");
}

#[test]
fn workspace_to_the_start_takes_the_id_before_the_first() {
    let options = Options { start: true, workspace: true, ..Default::default() };
    let mut helper = Helper::new(options, on_one_monitor(&[2, 3, 7], 7)).unwrap();
    let run = helper.run().unwrap();
    assert_eq!(run.commands, vec![to(1, 17), to(7, 1), to(17, 7)]);
    assert!(!run.shifted);
    assert_eq!(helper.snapshot().id_list(), vec![2, 3, 1]);
}

#[test]
fn a_workspace_is_not_moved_across_monitors() {
    let options = Options { monitor: true, workspace: true, ..Default::default() };
    let listing = vec![space(1, "left", true, true), space(2, "right", true, false)];
    let mut helper = Helper::new(options, listing).unwrap();
    assert_eq!(helper.run().err(), Some(RunError::UnsupportedOperation));
    assert_eq!(helper.snapshot().id_list(), vec![1, 2]);
}

#[test]
fn without_a_destination_the_action_is_not_looked_at() {
    let options = Options { monitor: true, workspace: true, ..Default::default() };
    let mut helper = Helper::new(options, on_one_monitor(&[1, 3, 7], 3)).unwrap();
    let run = helper.run().unwrap();
    assert_eq!(run.commands, Vec::new());
    assert!(!run.shifted);
}

#[test]
fn monitor_switches_to_the_visible_workspace_there() {
    let options = Options { monitor: true, ..Default::default() };
    let listing = vec![
        space(1, "left", true, true),
        space(2, "right", false, false),
        space(3, "right", true, false),
    ];
    let mut helper = Helper::new(options, listing).unwrap();
    assert_eq!(helper.run().unwrap().commands, vec![Command::Focus { id: 3 }]);
}

#[test]
fn start_from_the_first_workspace_sends_nothing() {
    let options = Options { start: true, workspace: true, ..Default::default() };
    let mut helper = Helper::new(options, on_one_monitor(&[1, 3, 7], 1)).unwrap();
    let run = helper.run().unwrap();
    assert_eq!(run.commands, Vec::new());
    assert!(!run.shifted);
    assert_eq!(helper.snapshot().id_list(), vec![1, 3, 7]);
}

#[test]
fn a_negative_destination_makes_room_for_zero_first() {
    let options = Options { start: true, ..Default::default() };
    let mut helper = Helper::new(options, on_one_monitor(&[0, 2, 5], 2)).unwrap();
    assert_eq!(helper.get_target_workspace_id(), Ok(Some(-1)));
    let run = helper.run().unwrap();
    assert!(run.shifted);
    assert_eq!(run.commands, vec![to(5, 6), to(2, 5), to(0, 2)]);
    assert_eq!(helper.snapshot().id_list(), vec![2, 5, 6]);
    assert_eq!(helper.snapshot().position(0), None);
    assert_eq!(helper.get_current_workspace().id, 5);
    assert_eq!(helper.resume().unwrap(), vec![Command::Focus { id: 0 }]);
}

#[test]
fn after_making_room_the_workspace_moves_to_zero() {
    let options = Options { start: true, workspace: true, ..Default::default() };
    let mut helper = Helper::new(options, on_one_monitor(&[0, 2, 5], 5)).unwrap();
    let run = helper.run().unwrap();
    assert!(run.shifted);
    assert_eq!(run.commands, vec![to(5, 6), to(2, 5), to(0, 2)]);
    assert_eq!(helper.resume().unwrap(), vec![to(0, 16), to(6, 0), to(16, 6)]);
    assert_eq!(helper.snapshot().id_list(), vec![2, 5, 0]);
}

#[test]
fn resume_works_on_a_fresh_listing() {
    let options = Options { start: true, window: true, ..Default::default() };
    let mut helper = Helper::new(options, on_one_monitor(&[0, 2, 5], 2)).unwrap();
    assert!(helper.run().unwrap().shifted);
    let mut fresh = Helper::new(options, on_one_monitor(&[2, 5, 6], 5)).unwrap();
    assert_eq!(fresh.resume().unwrap(), vec![Command::MoveContainer { id: 0 }, Command::Focus { id: 0 }]);
}

#[test]
fn room_is_made_only_on_the_monitor_that_holds_zero() {
    let options = Options { start: true, ..Default::default() };
    let listing = vec![
        space(0, "left", true, false),
        space(1, "right", false, false),
        space(3, "left", false, false),
        space(8, "right", true, true),
    ];
    let mut helper = Helper::new(options, listing).unwrap();
    let run = helper.run().unwrap();
    assert!(run.shifted);
    assert_eq!(run.commands, vec![to(3, 4), to(0, 3)]);
    assert_eq!(helper.snapshot().id_list(), vec![3, 1, 4, 8]);
}

#[test]
fn collapse_alone_renumbers_monitor_by_monitor() {
    let options = Options { collapse: true, ..Default::default() };
    let listing = vec![
        space(7, "right", false, false),
        space(4, "left", false, false),
        space(2, "right", true, false),
        space(1, "left", true, true),
    ];
    let mut helper = Helper::new(options, listing).unwrap();
    let run = helper.run().unwrap();
    assert!(!run.shifted);
    assert_eq!(
        run.commands,
        vec![
            to(0, 17),
            to(1, 0),
            to(17, 1),
            to(1, 17),
            to(4, 1),
            to(17, 4),
            to(2, 17),
            to(2, 2),
            to(17, 2),
            to(3, 17),
            to(7, 3),
            to(17, 7),
        ]
    );
    assert_eq!(helper.snapshot().id_list(), vec![0, 2, 1, 3]);
    assert_eq!(helper.grouping().get(0).output(), "left");
    assert_eq!(helper.grouping().get(0).id_list(), vec![0, 1]);
    assert_eq!(helper.grouping().get(1).output(), "right");
    assert_eq!(helper.grouping().get(1).id_list(), vec![2, 3]);
}

#[test]
fn collapsing_twice_changes_nothing_more() {
    let options = Options { collapse: true, ..Default::default() };
    let listing = vec![
        space(7, "right", false, false),
        space(4, "left", false, false),
        space(2, "right", true, false),
        space(1, "left", true, true),
    ];
    let mut helper = Helper::new(options, listing).unwrap();
    helper.run().unwrap();
    let once = helper.snapshot().id_list();
    let order_once = helper.grouping().id_list();
    let again = helper.run().unwrap();
    assert_eq!(again.commands.len(), 12);
    assert_eq!(helper.snapshot().id_list(), once);
    assert_eq!(helper.grouping().id_list(), order_once);
    assert_eq!(order_once, vec![0, 1, 2, 3]);
}

#[test]
fn collapse_follows_the_action_of_the_same_run() {
    let options = Options { end: true, workspace: true, collapse: true, ..Default::default() };
    let mut helper = Helper::new(options, on_one_monitor(&[1, 3, 7], 3)).unwrap();
    let run = helper.run().unwrap();
    assert_eq!(
        run.commands,
        vec![
            to(8, 17),
            to(3, 8),
            to(17, 3),
            to(0, 18),
            to(1, 0),
            to(18, 1),
            to(1, 18),
            to(7, 1),
            to(18, 7),
            to(2, 18),
            to(8, 2),
            to(18, 8),
        ]
    );
    assert_eq!(helper.snapshot().id_list(), vec![0, 2, 1]);
    assert_eq!(helper.get_current_workspace().id, 2);
}

#[test]
fn ids_at_the_limit_are_out_of_range() {
    let options = Options { end: true, ..Default::default() };
    let mut helper = Helper::new(options, on_one_monitor(&[1, i32::MAX], 1)).unwrap();
    assert_eq!(helper.run().err(), Some(RunError::IdOutOfRange));
    let options = Options { next: true, workspace: true, ..Default::default() };
    let mut helper = Helper::new(options, on_one_monitor(&[1, i32::MAX - 9], 1)).unwrap();
    assert_eq!(helper.run().err(), Some(RunError::IdOutOfRange));
    assert_eq!(helper.snapshot().id_list(), vec![1, i32::MAX - 9]);
    let options = Options { collapse: true, ..Default::default() };
    let mut helper = Helper::new(options, on_one_monitor(&[1, i32::MAX - 9], 1)).unwrap();
    assert_eq!(helper.run().err(), Some(RunError::IdOutOfRange));
    let options = Options { start: true, ..Default::default() };
    let mut helper = Helper::new(options, on_one_monitor(&[0, i32::MAX], i32::MAX)).unwrap();
    assert_eq!(helper.run().err(), Some(RunError::IdOutOfRange));
}

#[test]
fn ids_next_to_the_limit_are_in_range_where_no_scratch_id_is_needed() {
    let options = Options { next: true, ..Default::default() };
    let mut helper = Helper::new(options, on_one_monitor(&[1, i32::MAX], 1)).unwrap();
    assert_eq!(helper.run().unwrap().commands, vec![Command::Focus { id: i32::MAX }]);
}

#[test]
fn every_planned_rename_is_accepted_by_a_strict_window_manager() {
    let listings: Vec<Vec<Workspace>> = vec![
        on_one_monitor(&[1, 3, 7], 3),
        on_one_monitor(&[0, 2, 5], 5),
        vec![
            space(7, "right", false, false),
            space(4, "left", false, false),
            space(2, "right", true, false),
            space(1, "left", true, true),
        ],
        vec![space(0, "left", true, true), space(5, "right", true, false), space(9, "left", false, false)],
    ];
    let switches = [
        Options { next: true, workspace: true, collapse: true, ..Default::default() },
        Options { previous: true, workspace: true, ..Default::default() },
        Options { end: true, workspace: true, collapse: true, ..Default::default() },
        Options { start: true, workspace: true, collapse: true, ..Default::default() },
        Options { collapse: true, ..Default::default() },
    ];
    for listing in &listings {
        for options in switches {
            let copy: Vec<Workspace> = listing
                .iter()
                .map(|w| space(w.id, &w.output, w.visible, w.focused))
                .collect();
            let mut helper = Helper::new(options, copy).unwrap();
            let mut remote = workspace_nav::snapshot::Snapshot::new(
                listing.iter().map(|w| space(w.id, &w.output, w.visible, w.focused)).collect(),
            ).unwrap();
            let run = helper.run().unwrap();
            assert!(remote.apply(&run.commands));
            if run.shifted {
                let rest = helper.resume().unwrap();
                assert!(remote.apply(&rest));
            }
            assert_eq!(remote.id_list(), helper.snapshot().id_list());
            if options.collapse {
                let mut ids = remote.id_list();
                ids.sort();
                let dense: Vec<i32> = (0..ids.len() as i32).collect();
                assert_eq!(ids, dense);
            }
        }
    }
}
