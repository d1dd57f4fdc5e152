//! What holds of every plan, whatever the listing.

use vstd::prelude::*;
use crate::command::CommandView;
use crate::grouping::{
    first_outputs, group_wf, grouping_of, is_grouping_of, is_member, lemma_grouping_distinct,
    lemma_grouping_exists, lemma_grouping_of, lemma_visit_index, lemma_visit_member,
    lemma_visiting, offset, outputs_of, visit, GroupView,
};
use crate::helper::{
    arrival_first, arrival_plan, collapse_part, destination, run_error, run_plan, shifts, visiting_ids,
};
use crate::intent::{Action, Intent, Options};
use crate::resolver::lemma_focused_member;
use crate::sequencer::{
    collapse_plan, dense, exchanged, lemma_collapse, lemma_scratch_fresh, lemma_shift, lemma_shift_frees_zero,
    lemma_swap, lemma_swap_never_refused, rising, room_plan, scratch_id, shift_plan, shifted,
};
use crate::snapshot::{
    after, consistent, distinct_ids, focus_index, focused_of, lemma_after, lemma_distinct_ids,
};
use crate::tracking::{
    collision_free, lemma_collision_free_concat, lemma_track_blindly, lemma_track_distinct, lemma_track_idle,
    lemma_track_same_ids, same_ids, track, track_blindly,
};
use crate::workspace::{ids, WorkspaceView};

verus! {

/// The place of the workspace at position `i` of the listing in the visiting
/// order: monitor after monitor, each in ascending order of id.
pub open spec fn rank(s: Seq<WorkspaceView>, i: int) -> int {
    visiting_ids(s).index_of(s[i].id)
}

/// States that hold the same ids have the same greatest id.
pub proof fn lemma_same_max(a: Seq<int>, b: Seq<int>)
    requires
        same_ids(a, b),
        a.len() > 0,
    ensures
        b.len() > 0,
        a.max() == b.max(),
{
    assert(a.contains(a[0]));
    let j = choose|j: int| 0 <= j < b.len() && b[j] == a[0];
    a.max_ensures();
    b.max_ensures();
}

/// Each workspace of a listing has one place in the visiting order.
pub proof fn lemma_rank(s: Seq<WorkspaceView>, i: int)
    requires
        distinct_ids(s),
        0 <= i < s.len(),
    ensures
        visiting_ids(s).len() == s.len(),
        0 <= rank(s, i) < s.len(),
        visiting_ids(s)[rank(s, i)] == s[i].id,
        forall|p: int| 0 <= p < s.len() && visiting_ids(s)[p] == s[i].id ==> p == rank(s, i),
{
    lemma_grouping_exists(s);
    lemma_visiting(grouping_of(s), s);
    let order = visiting_ids(s);
    assert(ids(s)[i] == s[i].id);
    assert(ids(s).contains(s[i].id));
    assert(order.contains(s[i].id));
}

/// None of the renames of a collapse is refused.
pub proof fn lemma_collapse_never_refused(s: Seq<WorkspaceView>)
    requires
        distinct_ids(s),
    ensures
        collision_free(ids(s), collapse_plan(visiting_ids(s))),
{
    lemma_grouping_exists(s);
    lemma_visiting(grouping_of(s), s);
    crate::sequencer::lemma_collapse_never_refused(visiting_ids(s));
    lemma_track_same_ids(visiting_ids(s), ids(s), collapse_plan(visiting_ids(s)));
}

/// A collapse gives each workspace its place in the visiting order as its
/// id. (Not so where the greatest id is -10: the first swap then parks on
/// the id 0 itself.)
pub proof fn lemma_collapse_renumbers(s: Seq<WorkspaceView>)
    requires
        distinct_ids(s),
        s.len() > 0 ==> ids(s).max() != -10,
    ensures
        after(s, collapse_plan(visiting_ids(s))).len() == s.len(),
        forall|i: int|
            0 <= i < s.len() ==> (#[trigger] after(s, collapse_plan(visiting_ids(s)))[i]).id == rank(s, i),
{
    lemma_grouping_exists(s);
    lemma_visiting(grouping_of(s), s);
    let order = visiting_ids(s);
    let plan = collapse_plan(order);
    if s.len() > 0 {
        lemma_same_max(order, ids(s));
    }
    lemma_collapse(order);
    lemma_track_same_ids(order, ids(s), plan);
    lemma_after(s, plan);
    assert forall|i: int| 0 <= i < s.len() implies (#[trigger] after(s, plan)[i]).id == rank(s, i) by {
        lemma_rank(s, i);
        let p = rank(s, i);
        assert(order[p] == ids(s)[i]);
        assert(track(order, plan)[p] == track(ids(s), plan)[i]);
        assert(dense(order.len())[p] == p);
        assert(ids(after(s, plan))[i] == after(s, plan)[i].id);
    }
}

proof fn lemma_rank_in_group(s: Seq<WorkspaceView>, i: int) -> (at: (int, int))
    requires
        distinct_ids(s),
        0 <= i < s.len(),
    ensures
        0 <= at.0 < grouping_of(s).len(),
        0 <= at.1 < grouping_of(s)[at.0].members.len(),
        grouping_of(s)[at.0].members[at.1] == s[i],
        grouping_of(s)[at.0].output == s[i].output,
        rank(s, i) == offset(grouping_of(s), at.0) + at.1,
{
    let g = grouping_of(s);
    lemma_grouping_exists(s);
    assert(is_member(g, s[i]));
    let (k, m) = choose|k: int, m: int|
        0 <= k < g.len() && 0 <= m < g[k].members.len() && #[trigger] g[k].members[m] == s[i];
    assert(group_wf(g[k]));
    lemma_visit_index(g, k, m);
    lemma_rank(s, i);
    assert(ids(visit(g))[offset(g, k) + m] == s[i].id);
    (k, m)
}

/// A collapse keeps the order of the workspaces of each monitor: of two
/// workspaces of one monitor, the one with the smaller id has the smaller id
/// after.
pub proof fn lemma_collapse_keeps_order(s: Seq<WorkspaceView>)
    requires
        distinct_ids(s),
        s.len() > 0 ==> ids(s).max() != -10,
    ensures
        forall|i: int, j: int|
            0 <= i < s.len() && 0 <= j < s.len() && s[i].output == s[j].output && s[i].id < s[j].id
                ==> (#[trigger] after(
                s,
                collapse_plan(visiting_ids(s)),
            )[i]).id < (#[trigger] after(s, collapse_plan(visiting_ids(s)))[j]).id,
{
    let s2 = after(s, collapse_plan(visiting_ids(s)));
    let g = grouping_of(s);
    lemma_collapse_renumbers(s);
    lemma_grouping_exists(s);
    lemma_grouping_distinct(g, s);
    assert forall|i: int, j: int|
        0 <= i < s.len() && 0 <= j < s.len() && s[i].output == s[j].output && s[i].id < s[j].id
            implies (#[trigger] s2[i]).id
        < (#[trigger] s2[j]).id by {
        let a = lemma_rank_in_group(s, i);
        let b = lemma_rank_in_group(s, j);
        assert(a.0 == b.0);
        assert(group_wf(g[a.0]));
        if a.1 >= b.1 {
            if a.1 > b.1 {
                assert(g[a.0].members[b.1].id < g[a.0].members[a.1].id);
            }
        }
    }
}

/// The position of a workspace in a listing.
pub open spec fn slot(s: Seq<WorkspaceView>, w: WorkspaceView) -> int {
    choose|i: int| 0 <= i < s.len() && s[i] == w
}

/// The groups with each member replaced by what `f` makes of it.
spec fn map_members(g: Seq<GroupView>, f: spec_fn(WorkspaceView) -> WorkspaceView) -> Seq<GroupView> {
    Seq::new(
        g.len(),
        |k: int|
            GroupView { output: g[k].output, members: Seq::new(g[k].members.len(), |m: int| f(g[k].members[m])) },
    )
}

proof fn lemma_visit_map(g: Seq<GroupView>, f: spec_fn(WorkspaceView) -> WorkspaceView)
    ensures
        visit(map_members(g, f)) == Seq::new(visit(g).len(), |p: int| f(visit(g)[p])),
    decreases g.len(),
{
    let mapped = map_members(g, f);
    if g.len() == 0 {
        assert(visit(mapped) =~= Seq::new(visit(g).len(), |p: int| f(visit(g)[p])));
    } else {
        lemma_visit_map(g.drop_last(), f);
        assert(mapped.drop_last() =~= map_members(g.drop_last(), f));
        assert(mapped.last().members =~= Seq::new(g.last().members.len(), |m: int| f(g.last().members[m])));
        assert(visit(mapped) =~= Seq::new(visit(g).len(), |p: int| f(visit(g)[p])));
    }
}

proof fn lemma_first_outputs_same(s: Seq<WorkspaceView>, t: Seq<WorkspaceView>)
    requires
        s.len() == t.len(),
        forall|i: int| 0 <= i < s.len() ==> (#[trigger] s[i]).output == t[i].output,
    ensures
        first_outputs(s) == first_outputs(t),
    decreases s.len(),
{
    if s.len() > 0 {
        let s0 = s.drop_last();
        let t0 = t.drop_last();
        assert forall|i: int| 0 <= i < s0.len() implies (#[trigger] s0[i]).output == t0[i].output by {
            assert(s[i].output == t[i].output);
        }
        lemma_first_outputs_same(s0, t0);
        assert(s[s.len() - 1].output == t[s.len() - 1].output);
    }
}

/// After a collapse the grouping holds the same workspaces in the same
/// order, each with its new id, and the visit passes the ids `0`, `1`, `2`
/// and so on.
pub proof fn lemma_collapse_keeps_grouping(s: Seq<WorkspaceView>)
    requires
        distinct_ids(s),
        s.len() > 0 ==> ids(s).max() != -10,
    ensures
        grouping_of(after(s, collapse_plan(visiting_ids(s)))).len() == grouping_of(s).len(),
        forall|k: int|
            0 <= k < grouping_of(s).len() ==> {
                &&& (#[trigger] grouping_of(after(s, collapse_plan(visiting_ids(s))))[k]).output == grouping_of(
                    s,
                )[k].output
                &&& grouping_of(after(s, collapse_plan(visiting_ids(s))))[k].members.len() == grouping_of(
                    s,
                )[k].members.len()
            },
        forall|k: int, m: int|
            0 <= k < grouping_of(s).len() && 0 <= m < grouping_of(s)[k].members.len() ==> #[trigger] grouping_of(
                after(s, collapse_plan(visiting_ids(s))),
            )[k].members[m] == after(s, collapse_plan(visiting_ids(s)))[slot(s, grouping_of(s)[k].members[m])],
        visiting_ids(after(s, collapse_plan(visiting_ids(s)))) == dense(s.len()),
{
    let plan = collapse_plan(visiting_ids(s));
    let s2 = after(s, plan);
    let g = grouping_of(s);
    let f = |w: WorkspaceView| s2[slot(s, w)];
    let g2 = map_members(g, f);
    lemma_grouping_exists(s);
    lemma_collapse_renumbers(s);
    lemma_after(s, plan);
    lemma_visiting(g, s);
    assert forall|i: int| 0 <= i < s.len() implies slot(s, #[trigger] s[i]) == i by {
        let j = slot(s, s[i]);
        assert(0 <= j < s.len() && s[j] == s[i]);
    }
    assert forall|k: int| 0 <= k < g2.len() implies group_wf(#[trigger] g2[k]) by {
        assert(group_wf(g[k]));
        assert forall|m: int| 0 <= m < g2[k].members.len() implies (#[trigger] g2[k].members[m]).output
            == g2[k].output by {
            assert(s.contains(g[k].members[m]));
            let i = slot(s, g[k].members[m]);
            assert(s2[i].output == s[i].output);
        }
        assert forall|m: int, n: int| 0 <= m < n < g2[k].members.len() implies (#[trigger] g2[k].members[m]).id
            < (#[trigger] g2[k].members[n]).id by {
            assert(s.contains(g[k].members[m]));
            assert(s.contains(g[k].members[n]));
            let i = slot(s, g[k].members[m]);
            let j = slot(s, g[k].members[n]);
            lemma_visit_index(g, k, m);
            lemma_visit_index(g, k, n);
            lemma_rank(s, i);
            lemma_rank(s, j);
            assert(ids(visit(g))[offset(g, k) + m] == s[i].id);
            assert(ids(visit(g))[offset(g, k) + n] == s[j].id);
            assert(s2[i].id == rank(s, i));
            assert(s2[j].id == rank(s, j));
        }
    }
    assert(outputs_of(g2) =~= outputs_of(g));
    lemma_first_outputs_same(s, s2);
    assert forall|k: int, m: int| 0 <= k < g2.len() && 0 <= m < g2[k].members.len() implies s2.contains(
        #[trigger] g2[k].members[m],
    ) by {
        assert(s.contains(g[k].members[m]));
        let i = slot(s, g[k].members[m]);
        assert(s2[i] == g2[k].members[m]);
    }
    assert forall|i: int| 0 <= i < s2.len() implies is_member(g2, #[trigger] s2[i]) by {
        assert(is_member(g, s[i]));
        let (k, m) = choose|k: int, m: int|
            0 <= k < g.len() && 0 <= m < g[k].members.len() && #[trigger] g[k].members[m] == s[i];
        assert(slot(s, s[i]) == i);
        assert(g2[k].members[m] == s2[i]);
    }
    assert(is_grouping_of(g2, s2));
    lemma_grouping_of(g2, s2);
    lemma_visit_map(g, f);
    assert(visiting_ids(s2) =~= dense(s.len())) by {
        assert forall|p: int| 0 <= p < s.len() implies ids(visit(g2))[p] == p by {
            let at = lemma_visit_member(g, p);
            assert(s.contains(g[at.0].members[at.1]));
            let i = slot(s, visit(g)[p]);
            assert(s[i] == visit(g)[p]);
            lemma_rank(s, i);
            assert(ids(visit(g))[p] == s[i].id);
            assert(s2[i].id == rank(s, i));
        }
    }
}

/// Collapsing twice gives what collapsing once gives: the second collapse
/// leaves every id as the first left it.
pub proof fn lemma_collapse_twice_is_once(s: Seq<WorkspaceView>)
    requires
        distinct_ids(s),
        s.len() > 0 ==> ids(s).max() != -10,
    ensures
        ids(
            after(
                after(s, collapse_plan(visiting_ids(s))),
                collapse_plan(visiting_ids(after(s, collapse_plan(visiting_ids(s))))),
            ),
        ) == ids(after(s, collapse_plan(visiting_ids(s)))),
{
    let plan = collapse_plan(visiting_ids(s));
    let s2 = after(s, plan);
    let plan2 = collapse_plan(visiting_ids(s2));
    let s3 = after(s2, plan2);
    lemma_collapse_renumbers(s);
    lemma_collapse_keeps_grouping(s);
    lemma_after(s, plan);
    lemma_distinct_ids(s);
    lemma_distinct_ids(s2);
    lemma_track_distinct(ids(s), plan);
    if s.len() > 0 {
        ids(s2).max_ensures();
        lemma_rank(s, 0);
        assert(ids(s2)[0] == s2[0].id);
    }
    lemma_collapse_renumbers(s2);
    assert(ids(s3) =~= ids(s2)) by {
        assert forall|i: int| 0 <= i < s2.len() implies ids(s3)[i] == ids(s2)[i] by {
            lemma_rank(s2, i);
            lemma_rank(s, i);
            assert(s3[i].id == rank(s2, i));
            assert(dense(s.len())[s2[i].id] == s2[i].id);
        }
    }
}

/// Whether the group holds the id 0.
pub open spec fn holds_zero(group: GroupView) -> bool {
    ids(group.members).contains(0)
}

/// Whether, for the group that holds the id 0, the id after its last is held
/// by no workspace.
pub open spec fn room_is_free(s: Seq<WorkspaceView>) -> bool {
    forall|k: int|
        0 <= k < grouping_of(s).len() && holds_zero(#[trigger] grouping_of(s)[k]) ==> !ids(s).contains(
            grouping_of(s)[k].members.last().id + 1,
        )
}

proof fn lemma_room_empty(g: Seq<GroupView>)
    requires
        forall|a: int| 0 <= a < g.len() ==> !holds_zero(#[trigger] g[a]),
    ensures
        room_plan(g) == Seq::<CommandView>::empty(),
    decreases g.len(),
{
    if g.len() > 0 {
        assert(!holds_zero(g[g.len() - 1]));
        assert forall|a: int| 0 <= a < g.drop_last().len() implies !holds_zero(#[trigger] g.drop_last()[a]) by {
            assert(g.drop_last()[a] == g[a]);
        }
        lemma_room_empty(g.drop_last());
    }
}

proof fn lemma_room_single(g: Seq<GroupView>, k: int)
    requires
        0 <= k < g.len(),
        holds_zero(g[k]),
        forall|a: int| 0 <= a < g.len() && a != k ==> !holds_zero(#[trigger] g[a]),
    ensures
        room_plan(g) == shift_plan(ids(g[k].members)),
    decreases g.len(),
{
    let front = g.drop_last();
    if k == g.len() - 1 {
        assert forall|a: int| 0 <= a < front.len() implies !holds_zero(#[trigger] front[a]) by {
            assert(front[a] == g[a]);
        }
        lemma_room_empty(front);
        assert(room_plan(g) =~= shift_plan(ids(g[k].members)));
    } else {
        assert(!holds_zero(g[g.len() - 1]));
        assert(front[k] == g[k]);
        assert forall|a: int| 0 <= a < front.len() && a != k implies !holds_zero(#[trigger] front[a]) by {
            assert(front[a] == g[a]);
        }
        lemma_room_single(front, k);
    }
}

/// Room for the id 0 is made on one monitor at most: the renames move up the
/// ids of the group that holds the id 0, and there are none where no
/// workspace holds it.
pub proof fn lemma_room_plan(s: Seq<WorkspaceView>)
    requires
        distinct_ids(s),
    ensures
        !ids(s).contains(0) ==> room_plan(grouping_of(s)) == Seq::<CommandView>::empty(),
        forall|k: int|
            0 <= k < grouping_of(s).len() && holds_zero(#[trigger] grouping_of(s)[k]) ==> room_plan(grouping_of(s))
                == shift_plan(ids(grouping_of(s)[k].members)),
{
    let g = grouping_of(s);
    lemma_grouping_exists(s);
    lemma_grouping_distinct(g, s);
    if !ids(s).contains(0) {
        assert forall|a: int| 0 <= a < g.len() implies !holds_zero(#[trigger] g[a]) by {
            if holds_zero(g[a]) {
                let z = choose|z: int| 0 <= z < ids(g[a].members).len() && ids(g[a].members)[z] == 0;
                assert(s.contains(g[a].members[z]));
                let i = choose|i: int| 0 <= i < s.len() && s[i] == g[a].members[z];
                assert(ids(s)[i] == 0);
            }
        }
        lemma_room_empty(g);
    }
    assert forall|k: int| 0 <= k < g.len() && holds_zero(#[trigger] g[k]) implies room_plan(g) == shift_plan(
        ids(g[k].members),
    ) by {
        let z = choose|z: int| 0 <= z < ids(g[k].members).len() && ids(g[k].members)[z] == 0;
        assert forall|a: int| 0 <= a < g.len() && a != k implies !holds_zero(#[trigger] g[a]) by {
            if holds_zero(g[a]) {
                let y = choose|y: int| 0 <= y < ids(g[a].members).len() && ids(g[a].members)[y] == 0;
                assert(g[a].members[y].id != g[k].members[z].id);
            }
        }
        lemma_room_single(g, k);
    }
}

/// Making room for the id 0 gives each workspace of the group that holds it
/// the id after its own, and none of the renames is refused, where no
/// workspace holds the id after the last of that group. Where 0 is the
/// smallest id of the listing, no workspace holds the id 0 after.
pub proof fn lemma_room_never_refused(s: Seq<WorkspaceView>)
    requires
        distinct_ids(s),
        room_is_free(s),
    ensures
        collision_free(ids(s), room_plan(grouping_of(s))),
        forall|k: int|
            0 <= k < grouping_of(s).len() && holds_zero(#[trigger] grouping_of(s)[k]) ==> track(
                ids(s),
                room_plan(grouping_of(s)),
            ) == shifted(ids(s), ids(grouping_of(s)[k].members)),
        s.len() > 0 && ids(s).min() == 0 ==> !track(ids(s), room_plan(grouping_of(s))).contains(0),
{
    let g = grouping_of(s);
    lemma_grouping_exists(s);
    lemma_room_plan(s);
    if !ids(s).contains(0) {
        if s.len() > 0 {
            ids(s).min_ensures();
        }
    }
    assert forall|k: int| 0 <= k < g.len() && holds_zero(#[trigger] g[k]) implies collision_free(
        ids(s),
        room_plan(g),
    ) && track(ids(s), room_plan(g)) == shifted(ids(s), ids(g[k].members)) && (s.len() > 0 && ids(s).min() == 0
        ==> !track(ids(s), room_plan(g)).contains(0)) by {
        let a = ids(g[k].members);
        assert(group_wf(g[k]));
        assert(rising(a)) by {
            assert forall|i: int, j: int| 0 <= i < j < a.len() implies #[trigger] a[i] < #[trigger] a[j] by {
                assert(g[k].members[i].id < g[k].members[j].id);
            }
        }
        assert(a.last() == g[k].members.last().id);
        lemma_shift(ids(s), a);
        if s.len() > 0 && ids(s).min() == 0 {
            ids(s).min_ensures();
            let z = choose|z: int| 0 <= z < a.len() && a[z] == 0;
            assert(s.contains(g[k].members[0]));
            let i = choose|i: int| 0 <= i < s.len() && s[i] == g[k].members[0];
            assert(ids(s)[i] == a[0]);
            if z > 0 {
                assert(a[0] < a[z]);
            }
            lemma_shift_frees_zero(ids(s), a);
        }
    }
    if ids(s).contains(0) {
        let i = choose|i: int| 0 <= i < ids(s).len() && ids(s)[i] == 0;
        assert(is_member(g, s[i]));
        let (k, m) = choose|k: int, m: int|
            0 <= k < g.len() && 0 <= m < g[k].members.len() && #[trigger] g[k].members[m] == s[i];
        assert(ids(g[k].members)[m] == 0);
        assert(holds_zero(g[k]));
    }
}

/// What the commands of an action do to the ids: a swap exchanges the id of
/// the focused workspace with the destination, where its scratch id is not
/// the destination itself; any other action changes no id.
pub proof fn lemma_action_effect(o: Options, s: Seq<WorkspaceView>, x: int)
    requires
        consistent(s),
        o.action_of() == Action::MoveWorkspace ==> x != scratch_id(ids(s)),
    ensures
        o.action_of() == Action::MoveWorkspace ==> track(ids(s), arrival_first(o, s, x)) == exchanged(
            ids(s),
            focused_of(s).id,
            x,
        ),
        o.action_of() != Action::MoveWorkspace ==> track(ids(s), arrival_first(o, s, x)) == ids(s),
{
    let first = arrival_first(o, s, x);
    match o.action_of() {
        Action::MoveWorkspace => {
            let source = focused_of(s).id;
            lemma_scratch_fresh(ids(s));
            assert(ids(s)[focus_index(s)] == source);
            lemma_swap(ids(s), source, x, scratch_id(ids(s)));
        },
        _ => {
            lemma_track_idle(ids(s), first);
        },
    }
}

/// None of the commands on arriving at a destination is refused.
pub proof fn lemma_arrival_never_refused(o: Options, s: Seq<WorkspaceView>, x: int)
    requires
        consistent(s),
    ensures
        collision_free(ids(s), arrival_plan(o, s, x)),
{
    let first = arrival_first(o, s, x);
    let s1 = after(s, first);
    match o.action_of() {
        Action::MoveWorkspace => {
            lemma_scratch_fresh(ids(s));
            lemma_swap_never_refused(ids(s), focused_of(s).id, x, scratch_id(ids(s)));
        },
        _ => {
            lemma_track_idle(ids(s), first);
        },
    }
    lemma_after(s, first);
    if o.collapse {
        lemma_collapse_never_refused(s1);
    } else {
        lemma_track_idle(ids(s1), collapse_part(o, s1));
    }
    lemma_collision_free_concat(ids(s), first, collapse_part(o, s1));
}

/// The destination of a run that moves the focused workspace is never the
/// scratch id of the swap.
pub proof fn lemma_destination_is_not_scratch(o: Options, s: Seq<WorkspaceView>)
    requires
        consistent(s),
        o.action_of() == Action::MoveWorkspace,
    ensures
        destination(o, s) != Some(scratch_id(ids(s))),
{
    let g = grouping_of(s);
    let focused = focused_of(s);
    let all = ids(s);
    all.max_ensures();
    all.min_ensures();
    lemma_grouping_exists(s);
    lemma_grouping_distinct(g, s);
    match o.intent_of() {
        Intent::Next | Intent::Previous => {
            let at = lemma_focused_member(g, s);
            let k = at.0;
            let members = g[k].members;
            let m = at.1;
            let hit = if o.intent_of() == Intent::Next {
                if m + 1 < members.len() {
                    m + 1
                } else {
                    0
                }
            } else {
                if m > 0 {
                    m - 1
                } else {
                    members.len() - 1
                }
            };
            assert(s.contains(members[hit]));
            let i = choose|i: int| 0 <= i < s.len() && s[i] == members[hit];
            assert(all[i] == members[hit].id);
        },
        _ => {},
    }
}

/// A run that moves the focused workspace exchanges its id with the
/// destination and leaves every other workspace as it is.
pub proof fn lemma_run_exchanges(o: Options, s: Seq<WorkspaceView>)
    requires
        consistent(s),
        o.action_of() == Action::MoveWorkspace,
        destination(o, s) is Some,
        !shifts(o, s),
    ensures
        track(ids(s), arrival_first(o, s, destination(o, s)->0)) == exchanged(
            ids(s),
            focused_of(s).id,
            destination(o, s)->0,
        ),
{
    lemma_destination_is_not_scratch(o, s);
    lemma_action_effect(o, s, destination(o, s)->0);
}

/// None of the commands of a run is refused. (Not so where room is made
/// for the id 0 and another monitor holds the id after the last of the group:
/// the first rename asks for that id.)
pub proof fn lemma_run_never_refused(o: Options, s: Seq<WorkspaceView>)
    requires
        consistent(s),
        shifts(o, s) ==> room_is_free(s),
    ensures
        collision_free(ids(s), run_plan(o, s)),
{
    match destination(o, s) {
        None => {
            if o.collapse {
                lemma_collapse_never_refused(s);
            } else {
                lemma_track_idle(ids(s), collapse_part(o, s));
            }
        },
        Some(x) => {
            if x < 0 {
                lemma_room_never_refused(s);
            } else {
                lemma_arrival_never_refused(o, s, x);
            }
        },
    }
}

/// At no point of a run do two workspaces share an id, were every rename
/// of the plan carried out as it comes. (Not so where room is made for the
/// id 0 and another monitor holds the id after the last of the group.)
pub proof fn lemma_run_keeps_ids_distinct(o: Options, s: Seq<WorkspaceView>)
    requires
        consistent(s),
        shifts(o, s) ==> room_is_free(s),
    ensures
        forall|k: int|
            0 <= k <= run_plan(o, s).len()
                ==> (#[trigger] track_blindly(ids(s), run_plan(o, s).take(k))).no_duplicates(),
{
    lemma_run_never_refused(o, s);
    lemma_distinct_ids(s);
    lemma_track_blindly(ids(s), run_plan(o, s));
}

/// From the first workspace there is no way to the start: the run has no
/// destination, and sends nothing where no collapse is asked for.
pub proof fn lemma_start_from_first(o: Options, s: Seq<WorkspaceView>)
    requires
        o.intent_of() == Intent::JumpToStart,
        focused_of(s).id == ids(s).min(),
    ensures
        destination(o, s) is None,
        !shifts(o, s),
        !o.collapse ==> run_plan(o, s) == Seq::<CommandView>::empty() && run_error(o, s) is None,
{
}

} // verus!
