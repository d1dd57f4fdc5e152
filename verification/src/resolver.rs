//! From an intent to the id of the workspace to go to.

use vstd::prelude::*;
use crate::grouping::{
    first_visible, group_wf, is_grouping_of, is_member, lemma_first_outputs, lemma_grouping_distinct, outputs_of,
    GroupView, Grouping,
};
use crate::intent::Intent;
use crate::snapshot::{focus_index, focused_of, has_focus, Snapshot};
use crate::workspace::{ascending, ids, WorkspaceView};

verus! {

/// The position of the group of the monitor `output`.
pub open spec fn group_index(g: Seq<GroupView>, output: Seq<char>) -> int {
    choose|k: int| 0 <= k < g.len() && (#[trigger] g[k]).output == output
}

/// The position of the member that holds `id`.
pub open spec fn member_index(members: Seq<WorkspaceView>, id: int) -> int {
    choose|m: int| 0 <= m < members.len() && (#[trigger] members[m]).id == id
}

/// The group of a monitor is where the grouping has it.
pub proof fn lemma_group_index(g: Seq<GroupView>, s: Seq<WorkspaceView>, k: int)
    requires
        is_grouping_of(g, s),
        0 <= k < g.len(),
    ensures
        group_index(g, g[k].output) == k,
{
    lemma_first_outputs(s);
    let found = group_index(g, g[k].output);
    assert(0 <= found < g.len() && g[found].output == g[k].output);
    assert(outputs_of(g)[found] == outputs_of(g)[k]);
}

/// The member that holds an id is where the group has it.
pub proof fn lemma_member_index(members: Seq<WorkspaceView>, m: int)
    requires
        ascending(members),
        0 <= m < members.len(),
    ensures
        member_index(members, members[m].id) == m,
{
    let found = member_index(members, members[m].id);
    assert(0 <= found < members.len() && members[found].id == members[m].id);
    if found < m {
        assert(members[found].id < members[m].id);
    } else if m < found {
        assert(members[m].id < members[found].id);
    }
}

/// The focused workspace is a member of the group of its monitor.
pub proof fn lemma_focused_member(g: Seq<GroupView>, s: Seq<WorkspaceView>) -> (at: (int, int))
    requires
        is_grouping_of(g, s),
        has_focus(s),
    ensures
        0 <= at.0 < g.len(),
        0 <= at.1 < g[at.0].members.len(),
        g[at.0].members[at.1] == focused_of(s),
        group_index(g, focused_of(s).output) == at.0,
        member_index(g[at.0].members, focused_of(s).id) == at.1,
{
    let focused = focused_of(s);
    assert(is_member(g, s[focus_index(s)]));
    let (k, m) = choose|k: int, m: int|
        0 <= k < g.len() && 0 <= m < g[k].members.len() && #[trigger] g[k].members[m] == focused;
    assert(group_wf(g[k]));
    lemma_group_index(g, s, k);
    lemma_member_index(g[k].members, m);
    (k, m)
}

/// The id that follows `id` in the group, the first id after the last.
pub open spec fn next_id(members: Seq<WorkspaceView>, id: int) -> int {
    let m = member_index(members, id);
    if m + 1 < members.len() {
        members[m + 1].id
    } else {
        members[0].id
    }
}

/// The id that precedes `id` in the group, the last id before the first.
pub open spec fn previous_id(members: Seq<WorkspaceView>, id: int) -> int {
    let m = member_index(members, id);
    if m > 0 {
        members[m - 1].id
    } else {
        members[members.len() - 1].id
    }
}

/// The id of the first visible workspace of the first group that has one and
/// is not of the monitor `output`.
pub open spec fn first_visible_elsewhere(g: Seq<GroupView>, output: Seq<char>) -> Option<int>
    decreases g.len(),
{
    if g.len() == 0 {
        None
    } else if g[0].output != output && first_visible(g[0].members) is Some {
        first_visible(g[0].members)
    } else {
        first_visible_elsewhere(g.drop_first(), output)
    }
}

/// The id to go to, or `None` where there is nothing to do.
///
/// - `JumpToEnd`: one more than the greatest id.
/// - `JumpToStart`: one less than the smallest id, which may be negative;
///   nothing where the focused workspace holds the smallest id.
/// - `Next`, `Previous`: the neighbour of the focused workspace in the group
///   of its monitor, around the ends.
/// - `NearestOtherMonitor`: the first visible workspace found on another
///   monitor, in the order of the groups; nothing where none is visible.
/// - `Collapse`: nothing.
pub open spec fn target(intent: Intent, s: Seq<WorkspaceView>, g: Seq<GroupView>) -> Option<int> {
    let focused = focused_of(s);
    match intent {
        Intent::JumpToEnd => Some(ids(s).max() + 1),
        Intent::JumpToStart => if focused.id == ids(s).min() {
            None
        } else {
            Some(ids(s).min() - 1)
        },
        Intent::Next => Some(next_id(g[group_index(g, focused.output)].members, focused.id)),
        Intent::Previous => Some(previous_id(g[group_index(g, focused.output)].members, focused.id)),
        Intent::NearestOtherMonitor => first_visible_elsewhere(g, focused.output),
        Intent::Collapse => None,
    }
}

/// Whether the id to go to is one that a workspace value can hold.
pub open spec fn target_fits(intent: Intent, s: Seq<WorkspaceView>) -> bool {
    match intent {
        Intent::JumpToEnd => ids(s).max() < i32::MAX,
        Intent::JumpToStart => focused_of(s).id == ids(s).min() || ids(s).min() > i32::MIN,
        _ => true,
    }
}

fn neighbour(snapshot: &Snapshot, grouping: &Grouping, forward: bool) -> (r: i32)
    requires
        snapshot.wf(),
        is_grouping_of(grouping@, snapshot@),
    ensures
        r == if forward {
            next_id(
                grouping@[group_index(grouping@, focused_of(snapshot@).output)].members,
                focused_of(snapshot@).id,
            )
        } else {
            previous_id(
                grouping@[group_index(grouping@, focused_of(snapshot@).output)].members,
                focused_of(snapshot@).id,
            )
        },
{
    let ghost s = snapshot@;
    let ghost g = grouping@;
    let focused = snapshot.focused();
    proof {
        let at = lemma_focused_member(g, s);
        lemma_grouping_distinct(g, s);
        assert(outputs_of(g)[at.0] == focused@.output);
    }
    let k = grouping.position(&focused.output).unwrap();
    let group = grouping.get(k);
    let m = group.position(focused.id).unwrap();
    let n = group.len();
    if forward {
        if m + 1 < n {
            group.get(m + 1).id
        } else {
            group.get(0).id
        }
    } else {
        if m > 0 {
            group.get(m - 1).id
        } else {
            group.get(n - 1).id
        }
    }
}

fn visible_elsewhere(grouping: &Grouping, output: &String) -> (r: Option<i32>)
    ensures
        match r {
            Some(id) => first_visible_elsewhere(grouping@, output@) == Some(id as int),
            None => first_visible_elsewhere(grouping@, output@) is None,
        },
{
    let ghost g = grouping@;
    let mut k: usize = 0;
    assert(g.skip(0) =~= g);
    while k < grouping.len()
        invariant
            g == grouping@,
            k <= g.len(),
            first_visible_elsewhere(g, output@) == first_visible_elsewhere(g.skip(k as int), output@),
        decreases g.len() - k,
    {
        assert(g.skip(k as int).drop_first() =~= g.skip(k + 1));
        let group = grouping.get(k);
        if !(*group.output() == *output) {
            if let Some(id) = group.first_visible() {
                return Some(id);
            }
        }
        k += 1;
    }
    None
}

/// Resolves an intent against a snapshot and its grouping.
pub fn resolve(intent: Intent, snapshot: &Snapshot, grouping: &Grouping) -> (r: Option<i32>)
    requires
        snapshot.wf(),
        is_grouping_of(grouping@, snapshot@),
        target_fits(intent, snapshot@),
    ensures
        match r {
            Some(id) => target(intent, snapshot@, grouping@) == Some(id as int),
            None => target(intent, snapshot@, grouping@) is None,
        },
{
    match intent {
        Intent::JumpToEnd => Some(snapshot.max_id() + 1),
        Intent::JumpToStart => {
            let least = snapshot.min_id();
            if snapshot.focused().id == least {
                None
            } else {
                Some(least - 1)
            }
        },
        Intent::Next => Some(neighbour(snapshot, grouping, true)),
        Intent::Previous => Some(neighbour(snapshot, grouping, false)),
        Intent::NearestOtherMonitor => visible_elsewhere(grouping, &snapshot.focused().output),
        Intent::Collapse => None,
    }
}

} // verus!
