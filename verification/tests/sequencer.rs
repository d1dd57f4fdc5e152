use workspace_nav::command::Command;
use workspace_nav::grouping::group;
use workspace_nav::sequencer::{
    can_collapse, can_make_room, can_swap, collapse_steps_of, room_steps, shift_steps, swap_steps,
};
use workspace_nav::snapshot::Snapshot;
use workspace_nav::tracking::rename_in;
use workspace_nav::workspace::Workspace;

fn rename(from: i32, to: i32) -> Command {
    Command::Rename { from, to }
}

fn placed(id: i32, output: &str, focused: bool) -> Workspace {
    Workspace { id, name: id.to_string(), output: output.to_string(), visible: focused, focused }
}

/// Runs the commands on the ids as a window manager that refuses duplicate
/// ids would; panics if it refuses one or if two ids are ever equal.
fn run_strictly(ids: &[i32], cmds: &[Command]) -> Vec<i32> {
    let mut state = ids.to_vec();
    for cmd in cmds {
        if let Command::Rename { from, to } = *cmd {
            assert!(rename_in(&mut state, from, to), "refused: {} to {} in {:?}", from, to, state);
        }
        let mut sorted = state.clone();
        sorted.sort();
        sorted.dedup();
        assert_eq!(sorted.len(), state.len(), "duplicate in {:?}", state);
    }
    state
}

#[test]
fn rename_in_a_list_follows_the_window_manager() {
    let mut ids = vec![4, 1, 2];
    assert!(rename_in(&mut ids, 1, 7));
    assert_eq!(ids, vec![4, 7, 2]);
    assert!(!rename_in(&mut ids, 4, 2));
    assert_eq!(ids, vec![4, 7, 2]);
    assert!(rename_in(&mut ids, 9, 10));
    assert_eq!(ids, vec![4, 7, 2]);
    assert!(rename_in(&mut ids, 9, 4));
    assert!(rename_in(&mut ids, 4, 4));
    assert_eq!(ids, vec![4, 7, 2]);
}

#[test]
fn swap_parks_the_target_ten_past_the_greatest_id() {
    assert_eq!(swap_steps(&vec![1, 3, 7], 1, 3), vec![rename(3, 17), rename(1, 3), rename(17, 1)]);
    assert_eq!(swap_steps(&vec![7, 3, 1], 3, 7), vec![rename(7, 17), rename(3, 7), rename(17, 3)]);
    assert_eq!(swap_steps(&vec![-30], -30, 0), vec![rename(0, -20), rename(-30, 0), rename(-20, -30)]);
}

#[test]
fn swap_exchanges_two_ids_and_nothing_else() {
    let ids = [1, 3, 7, 12];
    let cmds = swap_steps(&ids.to_vec(), 3, 12);
    assert_eq!(run_strictly(&ids, &cmds), vec![1, 12, 7, 3]);
}

#[test]
fn swap_with_a_free_id_moves_the_workspace_there() {
    let ids = [1, 3, 7];
    let cmds = swap_steps(&ids.to_vec(), 3, 8);
    assert_eq!(run_strictly(&ids, &cmds), vec![1, 8, 7]);
}

#[test]
fn swap_of_an_id_with_itself_changes_nothing() {
    let ids = [1, 3, 7];
    let cmds = swap_steps(&ids.to_vec(), 3, 3);
    assert_eq!(cmds, vec![rename(3, 17), rename(3, 3), rename(17, 3)]);
    assert_eq!(run_strictly(&ids, &cmds), vec![1, 3, 7]);
}

#[test]
fn swap_is_never_refused_for_any_pair_of_a_small_listing() {
    let ids = [0, 2, 5, 9];
    for source in -1..11 {
        for target in -1..11 {
            let cmds = swap_steps(&ids.to_vec(), source, target);
            let after = run_strictly(&ids, &cmds);
            for (was, is) in ids.iter().zip(after.iter()) {
                let expected = if *was == source {
                    target
                } else if *was == target {
                    source
                } else {
                    *was
                };
                assert_eq!(*is, expected);
            }
        }
    }
}

#[test]
fn swap_among_no_workspaces_parks_on_ten() {
    assert_eq!(swap_steps(&Vec::new(), 1, 2), vec![rename(2, 10), rename(1, 2), rename(10, 1)]);
}

#[test]
fn a_swap_fits_up_to_ten_below_the_limit() {
    assert!(can_swap(&vec![1, i32::MAX - 10]));
    assert!(!can_swap(&vec![i32::MAX - 9, 1]));
}

#[test]
fn shift_moves_each_id_onto_the_next_from_the_top() {
    assert_eq!(shift_steps(&vec![0, 2, 5]), vec![rename(5, 6), rename(2, 5), rename(0, 2)]);
    assert_eq!(shift_steps(&vec![0]), vec![rename(0, 1)]);
    assert_eq!(shift_steps(&Vec::new()), Vec::new());
}

#[test]
fn shift_frees_zero_without_a_refusal() {
    let cmds = shift_steps(&vec![0, 2, 5]);
    assert_eq!(run_strictly(&[0, 2, 5], &cmds), vec![2, 5, 6]);
    let cmds = shift_steps(&vec![0, 1, 2, 3]);
    assert_eq!(run_strictly(&[3, 0, 2, 1], &cmds), vec![4, 1, 3, 2]);
}

#[test]
fn shift_leaves_other_monitors_alone() {
    let cmds = shift_steps(&vec![0, 2, 5]);
    assert_eq!(run_strictly(&[0, 1, 2, 3, 5, 9], &cmds), vec![2, 1, 5, 3, 6, 9]);
}

#[test]
fn room_is_made_in_the_group_that_holds_zero() {
    let snapshot = Snapshot::new(vec![
        placed(3, "left", false),
        placed(0, "right", false),
        placed(1, "left", true),
        placed(4, "right", false),
    ]).unwrap();
    let grouping = group(&snapshot);
    assert!(can_make_room(&grouping));
    assert_eq!(room_steps(&grouping), vec![rename(4, 5), rename(0, 4)]);
}

#[test]
fn no_room_is_made_where_no_workspace_holds_zero() {
    let snapshot = Snapshot::new(vec![placed(-1, "left", true), placed(4, "right", false)]).unwrap();
    let grouping = group(&snapshot);
    assert!(can_make_room(&grouping));
    assert_eq!(room_steps(&grouping), Vec::new());
}

#[test]
fn room_does_not_fit_at_the_limit() {
    let snapshot = Snapshot::new(vec![placed(0, "left", true), placed(i32::MAX, "left", false)]).unwrap();
    assert!(!can_make_room(&group(&snapshot)));
    let snapshot = Snapshot::new(vec![placed(0, "left", true), placed(i32::MAX, "right", false)]).unwrap();
    assert!(can_make_room(&group(&snapshot)));
}

#[test]
fn collapse_swaps_each_workspace_onto_its_rank() {
    let cmds = collapse_steps_of(&vec![2, 7, 1, 4]);
    assert_eq!(
        cmds,
        vec![
            rename(0, 17),
            rename(2, 0),
            rename(17, 2),
            rename(1, 17),
            rename(7, 1),
            rename(17, 7),
            rename(2, 17),
            rename(7, 2),
            rename(17, 7),
            rename(3, 14),
            rename(4, 3),
            rename(14, 4),
        ]
    );
    assert_eq!(run_strictly(&[2, 7, 1, 4], &cmds), vec![0, 1, 2, 3]);
}

#[test]
fn collapse_of_nothing_is_nothing() {
    assert_eq!(collapse_steps_of(&Vec::new()), Vec::new());
}

#[test]
fn collapse_gives_dense_ids_without_a_refusal() {
    let orders: [&[i32]; 7] = [
        &[5],
        &[0, 1, 2],
        &[2, 1, 0],
        &[1, 0, 3, 2],
        &[10, 20, 30, 0, 1],
        &[-1, 4, 2],
        &[-9, -8, -7],
    ];
    for order in orders {
        let cmds = collapse_steps_of(&order.to_vec());
        assert_eq!(cmds.len(), 3 * order.len());
        let dense: Vec<i32> = (0..order.len() as i32).collect();
        assert_eq!(run_strictly(order, &cmds), dense);
    }
}

#[test]
fn collapse_twice_is_collapse_once() {
    let order = vec![3, 9, 1, 4, 0];
    let once = run_strictly(&order, &collapse_steps_of(&order));
    let twice = run_strictly(&once, &collapse_steps_of(&once));
    assert_eq!(once, vec![0, 1, 2, 3, 4]);
    assert_eq!(twice, once);
}

#[test]
fn a_collapse_fits_below_the_limits() {
    assert!(can_collapse(&Vec::new()));
    assert!(can_collapse(&vec![0, i32::MAX - 10]));
    assert!(!can_collapse(&vec![0, i32::MAX - 9]));
}

#[test]
fn a_collapse_from_a_greatest_id_of_minus_ten_parks_on_zero_itself() {
    let cmds = collapse_steps_of(&vec![-10]);
    assert_eq!(cmds, vec![rename(0, 0), rename(-10, 0), rename(0, -10)]);
    assert_eq!(run_strictly(&[-10], &cmds), vec![-10]);
}

#[test]
fn room_is_refused_where_another_monitor_holds_the_id_after_the_last() {
    let snapshot = Snapshot::new(vec![
        placed(0, "left", true),
        placed(2, "left", false),
        placed(3, "right", false),
    ]).unwrap();
    let cmds = room_steps(&group(&snapshot));
    assert_eq!(cmds, vec![rename(2, 3), rename(0, 2)]);
    let mut remote = snapshot.copy();
    assert!(!remote.apply(&cmds));
    assert_eq!(remote.id_list(), vec![0, 2, 3]);
}
