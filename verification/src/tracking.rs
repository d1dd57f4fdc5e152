//! What a sequence of commands does to the ids of the workspaces.
//!
//! The window manager never lets two workspaces share an id: a rename whose
//! new id is taken is refused and changes nothing. A rename of an id that no
//! workspace holds changes nothing either. The state is a sequence of ids, one
//! per workspace; a workspace keeps its position whatever its id becomes.

use vstd::prelude::*;
use crate::command::CommandView;

verus! {

/// The ids of a list, as integers.
pub open spec fn ints(v: Seq<i32>) -> Seq<int> {
    Seq::new(v.len(), |i: int| v[i] as int)
}

/// The ids after the rename `from` to `to`.
pub open spec fn rename_ids(ids: Seq<int>, from: int, to: int) -> Seq<int> {
    if ids.contains(to) {
        ids
    } else {
        Seq::new(ids.len(), |i: int| if ids[i] == from { to } else { ids[i] })
    }
}

/// Whether the rename `from` to `to` asks for an id that another workspace holds.
pub open spec fn collides(ids: Seq<int>, from: int, to: int) -> bool {
    from != to && ids.contains(from) && ids.contains(to)
}

/// The ids after one command. Only a rename changes ids.
pub open spec fn step_ids(ids: Seq<int>, c: CommandView) -> Seq<int> {
    match c {
        CommandView::Rename { from, to } => rename_ids(ids, from, to),
        _ => ids,
    }
}

/// Whether the window manager refuses the command in the state `ids` for a duplicate id.
pub open spec fn step_collides(ids: Seq<int>, c: CommandView) -> bool {
    match c {
        CommandView::Rename { from, to } => collides(ids, from, to),
        _ => false,
    }
}

/// The ids after the commands `cmds`, run in order from the state `ids`.
pub open spec fn track(ids: Seq<int>, cmds: Seq<CommandView>) -> Seq<int>
    decreases cmds.len(),
{
    if cmds.len() == 0 {
        ids
    } else {
        step_ids(track(ids, cmds.drop_last()), cmds.last())
    }
}

/// Whether no command of `cmds`, run in order from the state `ids`, is refused
/// for a duplicate id.
pub open spec fn collision_free(ids: Seq<int>, cmds: Seq<CommandView>) -> bool {
    forall|k: int| 0 <= k < cmds.len() ==> !step_collides(track(ids, cmds.take(k)), #[trigger] cmds[k])
}

/// One command keeps the number of workspaces, and keeps their ids distinct.
pub proof fn lemma_step_ids(ids: Seq<int>, c: CommandView)
    ensures
        step_ids(ids, c).len() == ids.len(),
        ids.no_duplicates() ==> step_ids(ids, c).no_duplicates(),
{
}

/// Commands keep the number of workspaces.
pub proof fn lemma_track_len(ids: Seq<int>, cmds: Seq<CommandView>)
    ensures
        track(ids, cmds).len() == ids.len(),
    decreases cmds.len(),
{
    if cmds.len() > 0 {
        lemma_track_len(ids, cmds.drop_last());
        lemma_step_ids(track(ids, cmds.drop_last()), cmds.last());
    }
}

/// Ids that are distinct stay distinct after every prefix of any sequence of
/// commands.
pub proof fn lemma_track_distinct(ids: Seq<int>, cmds: Seq<CommandView>)
    requires
        ids.no_duplicates(),
    ensures
        forall|k: int| 0 <= k <= cmds.len() ==> (#[trigger] track(ids, cmds.take(k))).no_duplicates(),
        track(ids, cmds).no_duplicates(),
    decreases cmds.len(),
{
    if cmds.len() > 0 {
        let front = cmds.drop_last();
        lemma_track_distinct(ids, front);
        lemma_step_ids(track(ids, front), cmds.last());
        assert forall|k: int| 0 <= k <= cmds.len() implies (#[trigger] track(
            ids,
            cmds.take(k),
        )).no_duplicates() by {
            if k < cmds.len() {
                assert(cmds.take(k) =~= front.take(k));
            } else {
                assert(cmds.take(k) =~= cmds);
            }
        }
    } else {
        assert forall|k: int| 0 <= k <= cmds.len() implies (#[trigger] track(
            ids,
            cmds.take(k),
        )).no_duplicates() by {
            assert(cmds.take(k) =~= cmds);
        }
    }
}

/// Running `a` and then `b` is running their concatenation.
pub proof fn lemma_track_concat(ids: Seq<int>, a: Seq<CommandView>, b: Seq<CommandView>)
    ensures
        track(ids, a + b) == track(track(ids, a), b),
    decreases b.len(),
{
    if b.len() == 0 {
        assert(a + b =~= a);
    } else {
        lemma_track_concat(ids, a, b.drop_last());
        assert((a + b).drop_last() =~= a + b.drop_last());
        assert((a + b).last() == b.last());
    }
}

/// A concatenation is free of collisions exactly if its first part is, and
/// its second part is from the state that the first part leaves.
pub proof fn lemma_collision_free_concat(ids: Seq<int>, a: Seq<CommandView>, b: Seq<CommandView>)
    ensures
        collision_free(ids, a + b) <==> collision_free(ids, a) && collision_free(track(ids, a), b),
{
    let ab = a + b;
    let mid = track(ids, a);
    if collision_free(ids, ab) {
        assert forall|k: int| 0 <= k < a.len() implies !step_collides(
            track(ids, a.take(k)),
            #[trigger] a[k],
        ) by {
            assert(ab.take(k) =~= a.take(k));
            assert(ab[k] == a[k]);
        }
        assert forall|k: int| 0 <= k < b.len() implies !step_collides(
            track(mid, b.take(k)),
            #[trigger] b[k],
        ) by {
            lemma_track_concat(ids, a, b.take(k));
            assert(ab.take(a.len() + k) =~= a + b.take(k));
            assert(ab[a.len() + k] == b[k]);
        }
    }
    if collision_free(ids, a) && collision_free(mid, b) {
        assert forall|k: int| 0 <= k < ab.len() implies !step_collides(
            track(ids, ab.take(k)),
            #[trigger] ab[k],
        ) by {
            if k < a.len() {
                assert(ab.take(k) =~= a.take(k));
                assert(ab[k] == a[k]);
            } else {
                let j = k - a.len();
                lemma_track_concat(ids, a, b.take(j));
                assert(ab.take(k) =~= a + b.take(j));
                assert(ab[k] == b[j]);
            }
        }
    }
}

/// One more command keeps a sequence free of collisions exactly if it is not
/// refused in the state that the sequence leaves.
pub proof fn lemma_collision_free_push(ids: Seq<int>, cmds: Seq<CommandView>, c: CommandView)
    ensures
        collision_free(ids, cmds.push(c)) <==> collision_free(ids, cmds) && !step_collides(track(ids, cmds), c),
{
    let longer = cmds.push(c);
    assert(longer.take(cmds.len() as int) =~= cmds);
    assert(longer[cmds.len() as int] == c);
    if collision_free(ids, longer) {
        assert forall|k: int| 0 <= k < cmds.len() implies !step_collides(
            track(ids, cmds.take(k)),
            #[trigger] cmds[k],
        ) by {
            assert(longer.take(k) =~= cmds.take(k));
            assert(longer[k] == cmds[k]);
        }
    }
    if collision_free(ids, cmds) && !step_collides(track(ids, cmds), c) {
        assert forall|k: int| 0 <= k < longer.len() implies !step_collides(
            track(ids, longer.take(k)),
            #[trigger] longer[k],
        ) by {
            if k < cmds.len() {
                assert(longer.take(k) =~= cmds.take(k));
                assert(longer[k] == cmds[k]);
            }
        }
    }
}

/// The ids after the rename `from` to `to`, were no rename ever refused.
pub open spec fn rename_blindly(ids: Seq<int>, from: int, to: int) -> Seq<int> {
    Seq::new(ids.len(), |i: int| if ids[i] == from { to } else { ids[i] })
}

/// The ids after the commands `cmds`, were no rename ever refused.
pub open spec fn track_blindly(ids: Seq<int>, cmds: Seq<CommandView>) -> Seq<int>
    decreases cmds.len(),
{
    if cmds.len() == 0 {
        ids
    } else {
        match cmds.last() {
            CommandView::Rename { from, to } => rename_blindly(track_blindly(ids, cmds.drop_last()), from, to),
            _ => track_blindly(ids, cmds.drop_last()),
        }
    }
}

/// Commands of which none asks for an id that another workspace holds would
/// never bring two workspaces onto one id, were every rename carried out as
/// it comes: after every prefix the ids are distinct, and are what they are
/// with a window manager that refuses duplicates.
pub proof fn lemma_track_blindly(ids: Seq<int>, cmds: Seq<CommandView>)
    requires
        ids.no_duplicates(),
        collision_free(ids, cmds),
    ensures
        forall|k: int|
            0 <= k <= cmds.len() ==> (#[trigger] track_blindly(ids, cmds.take(k))).no_duplicates() && track_blindly(
                ids,
                cmds.take(k),
            ) == track(ids, cmds.take(k)),
    decreases cmds.len(),
{
    if cmds.len() > 0 {
        let front = cmds.drop_last();
        assert(cmds =~= front.push(cmds.last()));
        lemma_collision_free_push(ids, front, cmds.last());
        lemma_track_blindly(ids, front);
        lemma_track_distinct(ids, cmds);
        assert(front.take(front.len() as int) =~= front);
        assert forall|k: int| 0 <= k <= cmds.len() implies (#[trigger] track_blindly(
            ids,
            cmds.take(k),
        )).no_duplicates() && track_blindly(ids, cmds.take(k)) == track(ids, cmds.take(k)) by {
            if k < cmds.len() {
                assert(cmds.take(k) =~= front.take(k));
            } else {
                assert(cmds.take(k) =~= cmds);
                let state = track(ids, front);
                assert(track_blindly(ids, front) == state);
                match cmds.last() {
                    CommandView::Rename { from, to } => {
                        if state.contains(to) {
                            assert(rename_blindly(state, from, to) =~= state) by {
                                if from != to {
                                    assert(!state.contains(from));
                                }
                            }
                        }
                    },
                    _ => {},
                }
            }
        }
    } else {
        assert forall|k: int| 0 <= k <= cmds.len() implies (#[trigger] track_blindly(
            ids,
            cmds.take(k),
        )).no_duplicates() && track_blindly(ids, cmds.take(k)) == track(ids, cmds.take(k)) by {
            assert(cmds.take(k) =~= cmds);
        }
    }
}

/// Commands of which none is a rename change no id, and none is refused.
pub proof fn lemma_track_idle(ids: Seq<int>, cmds: Seq<CommandView>)
    requires
        forall|k: int| 0 <= k < cmds.len() ==> !(#[trigger] cmds[k] is Rename),
    ensures
        track(ids, cmds) == ids,
        collision_free(ids, cmds),
    decreases cmds.len(),
{
    if cmds.len() > 0 {
        let front = cmds.drop_last();
        assert forall|k: int| 0 <= k < front.len() implies !(#[trigger] front[k] is Rename) by {
            assert(front[k] == cmds[k]);
        }
        lemma_track_idle(ids, front);
        assert(!(cmds[cmds.len() - 1] is Rename));
        assert(cmds =~= front.push(cmds.last()));
        lemma_collision_free_push(ids, front, cmds.last());
    }
}

/// Whether two states hold the same ids, in whatever order.
pub open spec fn same_ids(a: Seq<int>, b: Seq<int>) -> bool {
    forall|x: int| a.contains(x) <==> b.contains(x)
}

proof fn lemma_step_same_ids(a: Seq<int>, b: Seq<int>, c: CommandView)
    requires
        same_ids(a, b),
    ensures
        same_ids(step_ids(a, c), step_ids(b, c)),
        step_collides(a, c) == step_collides(b, c),
        forall|i: int, j: int|
            0 <= i < a.len() && 0 <= j < b.len() && a[i] == b[j] ==> step_ids(a, c)[i] == step_ids(b, c)[j],
{
    match c {
        CommandView::Rename { from, to } => {
            let a2 = rename_ids(a, from, to);
            let b2 = rename_ids(b, from, to);
            assert(a.contains(to) == b.contains(to));
            assert(a.contains(from) == b.contains(from));
            if !a.contains(to) {
                assert forall|x: int| a2.contains(x) <==> b2.contains(x) by {
                    if a2.contains(x) {
                        let i = choose|i: int| 0 <= i < a2.len() && a2[i] == x;
                        assert(a.contains(a[i]));
                        let j = choose|j: int| 0 <= j < b.len() && b[j] == a[i];
                        assert(b2[j] == x);
                    }
                    if b2.contains(x) {
                        let j = choose|j: int| 0 <= j < b2.len() && b2[j] == x;
                        assert(b.contains(b[j]));
                        let i = choose|i: int| 0 <= i < a.len() && a[i] == b[j];
                        assert(a2[i] == x);
                    }
                }
            }
        },
        _ => {},
    }
}

/// What a sequence of commands does to a workspace depends on the id it
/// holds and on the ids that are held, not on the order in which the state
/// lists them: from two states that hold the same ids, the commands lead to
/// states that hold the same ids, workspaces that held the same id hold the
/// same id after, and the same commands are refused.
pub proof fn lemma_track_same_ids(a: Seq<int>, b: Seq<int>, cmds: Seq<CommandView>)
    requires
        same_ids(a, b),
    ensures
        same_ids(track(a, cmds), track(b, cmds)),
        forall|i: int, j: int|
            0 <= i < a.len() && 0 <= j < b.len() && a[i] == b[j] ==> track(a, cmds)[i] == track(b, cmds)[j],
        collision_free(a, cmds) == collision_free(b, cmds),
    decreases cmds.len(),
{
    if cmds.len() > 0 {
        let front = cmds.drop_last();
        let a1 = track(a, front);
        let b1 = track(b, front);
        lemma_track_same_ids(a, b, front);
        lemma_track_len(a, front);
        lemma_track_len(b, front);
        lemma_step_same_ids(a1, b1, cmds.last());
        assert(cmds =~= front.push(cmds.last()));
        lemma_collision_free_push(a, front, cmds.last());
        lemma_collision_free_push(b, front, cmds.last());
    }
}

/// Renames `from` to `to` in a list of ids, as the window manager would:
/// refused, and without effect, where `to` is taken.
pub fn rename_in(ids: &mut Vec<i32>, from: i32, to: i32) -> (accepted: bool)
    ensures
        final(ids).len() == old(ids).len(),
        ints(final(ids)@) == rename_ids(ints(old(ids)@), from as int, to as int),
        accepted == !collides(ints(old(ids)@), from as int, to as int),
{
    let ghost before = ints(ids@);
    let n = ids.len();
    let mut taken = false;
    let mut held = false;
    let mut i: usize = 0;
    while i < n
        invariant
            n == ids.len(),
            i <= n,
            before == ints(ids@),
            taken == before.take(i as int).contains(to as int),
            held == before.take(i as int).contains(from as int),
        decreases n - i,
    {
        let ghost seen = before.take(i as int);
        let ghost more = before.take(i + 1);
        assert(more =~= seen.push(ids[i as int] as int));
        if ids[i] == to {
            taken = true;
            assert(more[i as int] == to);
        }
        if ids[i] == from {
            held = true;
            assert(more[i as int] == from);
        }
        i += 1;
    }
    assert(before.take(n as int) =~= before);
    if taken {
        return from == to || !held;
    }
    let mut j: usize = 0;
    while j < n
        invariant
            n == ids.len(),
            j <= n,
            before.len() == n,
            forall|b: int| 0 <= b < j ==> ids[b] as int == if before[b] == from { to as int } else { before[b] },
            forall|b: int| j <= b < n ==> ids[b] as int == before[b],
        decreases n - j,
    {
        if ids[j] == from {
            ids.set(j, to);
        }
        j += 1;
    }
    assert(ints(ids@) =~= rename_ids(before, from as int, to as int));
    true
}

} // verus!
