//! Sequences of renames that reorder workspaces without ever asking for an
//! id that is taken.

use vstd::prelude::*;
use crate::command::{plan, Command, CommandView};
use crate::grouping::{GroupView, Grouping};
use crate::workspace::ids;
use crate::tracking::{
    collision_free, ints, lemma_collision_free_concat, lemma_track_concat, lemma_track_distinct, lemma_track_len,
    rename_ids, rename_in, step_collides, step_ids, track,
};

verus! {

/// The id that a swap parks a workspace on: ten more than the greatest id.
pub open spec fn scratch_id(ids: Seq<int>) -> int {
    ids.max() + 10
}

/// The three renames that exchange the ids `source` and `target` by way of `scratch`.
pub open spec fn swap_plan(source: int, target: int, scratch: int) -> Seq<CommandView> {
    seq![
        CommandView::Rename { from: target, to: scratch },
        CommandView::Rename { from: source, to: target },
        CommandView::Rename { from: scratch, to: source },
    ]
}

/// The ids with `a` and `b` exchanged.
pub open spec fn exchanged(ids: Seq<int>, a: int, b: int) -> Seq<int> {
    Seq::new(
        ids.len(),
        |i: int|
            if ids[i] == a {
                b
            } else if ids[i] == b {
                a
            } else {
                ids[i]
            },
    )
}

/// Whether the scratch id is one that a workspace value can hold.
pub open spec fn swap_fits(ids: Seq<int>) -> bool {
    scratch_id(ids) <= i32::MAX
}

/// The scratch id is held by no workspace.
pub proof fn lemma_scratch_fresh(ids: Seq<int>)
    ensures
        !ids.contains(scratch_id(ids)),
{
    ids.max_ensures();
}

proof fn lemma_swap_unfold(ids: Seq<int>, source: int, target: int, scratch: int)
    ensures
        swap_plan(source, target, scratch).take(0) == Seq::<CommandView>::empty(),
        track(ids, swap_plan(source, target, scratch).take(0)) == ids,
        track(ids, swap_plan(source, target, scratch).take(1)) == rename_ids(ids, target, scratch),
        track(ids, swap_plan(source, target, scratch).take(2)) == rename_ids(
            rename_ids(ids, target, scratch),
            source,
            target,
        ),
        track(ids, swap_plan(source, target, scratch)) == rename_ids(
            rename_ids(rename_ids(ids, target, scratch), source, target),
            scratch,
            source,
        ),
{
    let p = swap_plan(source, target, scratch);
    let none = p.take(0);
    let one = p.take(1);
    let two = p.take(2);
    assert(none =~= Seq::empty());
    assert(one.drop_last() =~= none);
    assert(two.drop_last() =~= one);
    assert(p.drop_last() =~= two);
    assert(track(ids, none) == ids);
    assert(track(ids, one) == step_ids(track(ids, none), one.last()));
    assert(track(ids, two) == step_ids(track(ids, one), two.last()));
    assert(track(ids, p) == step_ids(track(ids, two), p.last()));
}

/// None of the renames of a swap is refused, where no workspace holds the
/// scratch id.
pub proof fn lemma_swap_never_refused(ids: Seq<int>, source: int, target: int, scratch: int)
    requires
        !ids.contains(scratch),
    ensures
        collision_free(ids, swap_plan(source, target, scratch)),
{
    let p = swap_plan(source, target, scratch);
    lemma_swap_unfold(ids, source, target, scratch);
    let s1 = rename_ids(ids, target, scratch);
    let s2 = rename_ids(s1, source, target);
    assert(target != scratch ==> !s1.contains(target)) by {
        if target != scratch && s1.contains(target) {
            let i = choose|i: int| 0 <= i < s1.len() && s1[i] == target;
            assert(ids[i] != target);
        }
    }
    assert(target == scratch ==> s1 =~= ids);
    assert(!s1.contains(target));
    assert(source != scratch ==> !s2.contains(source)) by {
        if source != scratch && s2.contains(source) {
            let i = choose|i: int| 0 <= i < s2.len() && s2[i] == source;
            assert(s1[i] != source);
            assert(s1.contains(s1[i]));
            assert(ids[i] == source || ids[i] != source);
        }
    }
    assert forall|k: int| 0 <= k < p.len() implies !step_collides(track(ids, p.take(k)), #[trigger] p[k]) by {
        if k == 2 {
            assert(p.take(2) =~= p.take(2));
        }
    }
}

/// A swap by way of an id that no workspace holds, and that is neither of the
/// two ids, exchanges the two ids and leaves every other workspace as it is.
/// (Where the scratch id is one of the two ids, the swap changes nothing.)
pub proof fn lemma_swap(ids: Seq<int>, source: int, target: int, scratch: int)
    requires
        !ids.contains(scratch),
        scratch != source,
        scratch != target,
    ensures
        track(ids, swap_plan(source, target, scratch)) == exchanged(ids, source, target),
{
    lemma_swap_unfold(ids, source, target, scratch);
    let s1 = rename_ids(ids, target, scratch);
    let s2 = rename_ids(s1, source, target);
    let s3 = rename_ids(s2, scratch, source);
    assert(!s1.contains(target)) by {
        if s1.contains(target) {
            let i = choose|i: int| 0 <= i < s1.len() && s1[i] == target;
            assert(ids[i] != target);
        }
    }
    assert(!s2.contains(source)) by {
        if s2.contains(source) {
            let i = choose|i: int| 0 <= i < s2.len() && s2[i] == source;
            assert(s1[i] != source);
            assert(ids[i] == source || ids[i] != source);
        }
    }
    assert(s3 =~= exchanged(ids, source, target)) by {
        assert forall|i: int| 0 <= i < ids.len() implies s3[i] == exchanged(ids, source, target)[i] by {
            assert(ids.contains(ids[i]));
        }
    }
}

/// Whatever the ids, a swap by way of an id that no workspace holds leaves
/// each workspace with its id or with one of the two ids.
pub proof fn lemma_swap_stays(ids: Seq<int>, source: int, target: int, scratch: int)
    requires
        !ids.contains(scratch),
    ensures
        track(ids, swap_plan(source, target, scratch)).len() == ids.len(),
        forall|i: int|
            0 <= i < ids.len() ==> {
                let r = #[trigger] track(ids, swap_plan(source, target, scratch))[i];
                r == ids[i] || r == source || r == target
            },
{
    lemma_swap_unfold(ids, source, target, scratch);
    let s1 = rename_ids(ids, target, scratch);
    let s2 = rename_ids(s1, source, target);
    let s3 = rename_ids(s2, scratch, source);
    assert forall|i: int| 0 <= i < ids.len() implies (s3[i] == ids[i] || s3[i] == source || s3[i] == target) by {
        assert(ids.contains(ids[i]));
        assert(s1.contains(s1[i]));
        assert(s2.contains(s2[i]));
        if s3[i] != ids[i] && s3[i] != source && s3[i] != target {
            // the workspace would have been left on the scratch id
            assert(s3[i] == scratch);
            assert(s2[i] == scratch);
            assert(!s2.contains(source));
        }
    }
}

fn greatest(ids: &Vec<i32>) -> (m: i32)
    ensures
        m == ints(ids@).max(),
{
    let ghost all = ints(ids@);
    if ids.len() == 0 {
        return 0;
    }
    let mut m = ids[0];
    let mut i: usize = 1;
    assert(all[0] == m);
    while i < ids.len()
        invariant
            1 <= i <= ids.len(),
            all == ints(ids@),
            all.contains(m as int),
            forall|b: int| 0 <= b < i ==> m >= #[trigger] all[b],
        decreases ids.len() - i,
    {
        if ids[i] > m {
            m = ids[i];
            assert(all[i as int] == m);
        }
        i += 1;
    }
    proof {
        all.max_ensures();
    }
    m
}

/// The renames that exchange the workspaces `source` and `target`, among
/// workspaces that hold the ids `ids`.
pub fn swap_steps(ids: &Vec<i32>, source: i32, target: i32) -> (cmds: Vec<Command>)
    requires
        swap_fits(ints(ids@)),
    ensures
        plan(cmds@) == swap_plan(source as int, target as int, scratch_id(ints(ids@))),
{
    let scratch = greatest(ids) + 10;
    let mut cmds: Vec<Command> = Vec::new();
    cmds.push(Command::Rename { from: target, to: scratch });
    cmds.push(Command::Rename { from: source, to: target });
    cmds.push(Command::Rename { from: scratch, to: source });
    assert(plan(cmds@) =~= swap_plan(source as int, target as int, scratch_id(ints(ids@))));
    cmds
}

/// The ids rise strictly along the sequence.
pub open spec fn rising(a: Seq<int>) -> bool {
    forall|i: int, j: int| 0 <= i < j < a.len() ==> #[trigger] a[i] < #[trigger] a[j]
}

/// The renames that move each id of the rising sequence `a` onto the next
/// one, from the top down: the last id first, onto one more than itself.
pub open spec fn shift_plan(a: Seq<int>) -> Seq<CommandView> {
    Seq::new(
        a.len(),
        |j: int|
            CommandView::Rename {
                from: a[a.len() - 1 - j],
                to: if j == 0 {
                    a[a.len() - 1] + 1
                } else {
                    a[a.len() - j]
                },
            },
    )
}

/// The id that a workspace with the id `x` holds once the last `n` ids of `a`
/// have moved up: the id after `x` in `a`, or one more than `x` where `x` is
/// the last; `x` itself where it is not among those `n`.
pub open spec fn lifted(a: Seq<int>, n: int, x: int) -> int {
    if a.contains(x) && a.index_of(x) >= a.len() - n {
        if a.index_of(x) + 1 < a.len() {
            a[a.index_of(x) + 1]
        } else {
            x + 1
        }
    } else {
        x
    }
}

/// The ids after each id of `a` has moved onto the next one.
pub open spec fn shifted(ids: Seq<int>, a: Seq<int>) -> Seq<int> {
    Seq::new(ids.len(), |i: int| lifted(a, a.len() as int, ids[i]))
}

proof fn lemma_rising_index(a: Seq<int>, j: int)
    requires
        rising(a),
        0 <= j < a.len(),
    ensures
        a.contains(a[j]),
        a.index_of(a[j]) == j,
{
    let k = a.index_of(a[j]);
    assert(0 <= k < a.len() && a[k] == a[j]);
    if k < j {
        assert(a[k] < a[j]);
    } else if j < k {
        assert(a[j] < a[k]);
    }
}

proof fn lemma_shift_upto(ids: Seq<int>, a: Seq<int>, n: int)
    requires
        rising(a),
        0 <= n <= a.len(),
        a.len() > 0 ==> !ids.contains(a.last() + 1),
    ensures
        track(ids, shift_plan(a).take(n)) == Seq::new(ids.len(), |i: int| lifted(a, n, ids[i])),
        forall|k: int| 0 <= k < n ==> !step_collides(track(ids, shift_plan(a).take(k)), #[trigger] shift_plan(a)[k]),
    decreases n,
{
    let p = shift_plan(a);
    let len = a.len() as int;
    if n == 0 {
        assert(p.take(0) =~= Seq::empty());
        assert(track(ids, p.take(0)) =~= Seq::new(ids.len(), |i: int| lifted(a, 0, ids[i])));
    } else {
        let m = n - 1;
        lemma_shift_upto(ids, a, m);
        let before = track(ids, p.take(m));
        let from = a[len - 1 - m];
        let to = if m == 0 {
            a[len - 1] + 1
        } else {
            a[len - m]
        };
        assert(p.take(n).drop_last() =~= p.take(m));
        assert(p.take(n).last() == p[m]);
        assert(p[m] == CommandView::Rename { from, to });
        assert(track(ids, p.take(n)) == rename_ids(before, from, to));
        lemma_rising_index(a, len - 1 - m);
        if m > 0 {
            lemma_rising_index(a, len - m);
        }
        assert forall|i: int| 0 <= i < ids.len() implies before[i] != to && (if before[i] == from {
            to
        } else {
            before[i]
        }) == lifted(a, n, ids[i]) by {
            let x = ids[i];
            assert(before[i] == lifted(a, m, x));
            assert(ids.contains(x));
            if a.contains(x) {
                let idx = a.index_of(x);
                assert(0 <= idx < len && a[idx] == x);
                if idx >= len - m {
                    assert(a[len - m] <= a[idx]) by {
                        if len - m < idx {
                            assert(a[len - m] < a[idx]);
                        }
                    }
                    assert(a[len - 1 - m] < a[idx]);
                    if idx + 1 < len {
                        assert(a[idx] < a[idx + 1]);
                    }
                } else if idx == len - 1 - m {
                } else {
                    assert(a[idx] < a[len - 1 - m]);
                    if m > 0 {
                        assert(a[idx] < a[len - m]);
                    }
                }
            } else {
                if m > 0 {
                    assert(a.contains(a[len - m]));
                }
            }
        }
        assert(!before.contains(to));
        assert(rename_ids(before, from, to) =~= Seq::new(ids.len(), |i: int| lifted(a, n, ids[i])));
    }
}

/// Moving the ids of a rising sequence up by one place, from the top down,
/// gives each workspace the id after its own, and none of the renames is
/// refused, where no workspace holds one more than the last id.
pub proof fn lemma_shift(ids: Seq<int>, a: Seq<int>)
    requires
        rising(a),
        a.len() > 0 ==> !ids.contains(a.last() + 1),
    ensures
        track(ids, shift_plan(a)) == shifted(ids, a),
        collision_free(ids, shift_plan(a)),
{
    lemma_shift_upto(ids, a, a.len() as int);
    assert(shift_plan(a).take(a.len() as int) =~= shift_plan(a));
}

/// After the ids of a rising sequence that starts at 0 have moved up, no
/// workspace holds the id 0.
pub proof fn lemma_shift_frees_zero(ids: Seq<int>, a: Seq<int>)
    requires
        rising(a),
        a.len() > 0,
        a[0] == 0,
    ensures
        !shifted(ids, a).contains(0),
{
    let r = shifted(ids, a);
    assert forall|i: int| 0 <= i < r.len() implies r[i] != 0 by {
        let x = ids[i];
        if a.contains(x) {
            let idx = a.index_of(x);
            assert(0 <= idx < a.len() && a[idx] == x);
            if idx > 0 {
                assert(a[0] < a[idx]);
            }
            if idx + 1 < a.len() {
                assert(a[idx] < a[idx + 1]);
            }
        } else {
            assert(a.contains(a[0]));
        }
    }
}

/// The renames that move each id of the ascending list `a` onto the next one.
pub fn shift_steps(a: &Vec<i32>) -> (cmds: Vec<Command>)
    requires
        a.len() > 0 ==> a[a.len() - 1] < i32::MAX,
    ensures
        plan(cmds@) == shift_plan(ints(a@)),
{
    let ghost p = shift_plan(ints(a@));
    let mut cmds: Vec<Command> = Vec::new();
    let n = a.len();
    if n == 0 {
        assert(plan(cmds@) =~= p);
        return cmds;
    }
    let mut next = a[n - 1] + 1;
    let mut j: usize = n;
    while j > 0
        invariant
            n == a.len(),
            n > 0,
            j <= n,
            p == shift_plan(ints(a@)),
            cmds.len() == n - j,
            plan(cmds@) =~= p.take(n - j),
            next == if j == n {
                a[n - 1] + 1
            } else {
                a[j as int] as int
            },
        decreases j,
    {
        j -= 1;
        cmds.push(Command::Rename { from: a[j], to: next });
        next = a[j];
        assert(plan(cmds@) =~= p.take(n - j)) by {
            assert(plan(cmds@)[n - j - 1] == p[n - j - 1]);
        }
    }
    assert(p.take(n as int) =~= p);
    cmds
}

/// The renames that give the first `k` workspaces, in visiting order, the ids
/// `0` to `k - 1`: one swap each, of the id that the workspace holds by then
/// with the id it is to have. `order` holds the ids in visiting order.
pub open spec fn collapse_steps(order: Seq<int>, k: nat) -> Seq<CommandView>
    decreases k,
{
    if k == 0 {
        Seq::empty()
    } else {
        let before = collapse_steps(order, (k - 1) as nat);
        let state = track(order, before);
        before + swap_plan(state[k - 1], k - 1, scratch_id(state))
    }
}

/// The renames that give the workspaces, in visiting order, the ids from `0` up.
pub open spec fn collapse_plan(order: Seq<int>) -> Seq<CommandView> {
    collapse_steps(order, order.len())
}

/// The ids `0` to `n - 1`, in order.
pub open spec fn dense(n: nat) -> Seq<int> {
    Seq::new(n, |i: int| i)
}

/// Whether every id that a collapse computes is one that a workspace value
/// can hold.
pub open spec fn collapse_fits(order: Seq<int>) -> bool {
    order.len() > 0 ==> order.max() + 10 <= i32::MAX && order.len() + 8 <= i32::MAX
}

proof fn lemma_collapse_step(state: Seq<int>, k: int)
    requires
        state.no_duplicates(),
        0 <= k < state.len(),
        forall|j: int| 0 <= j < k ==> #[trigger] state[j] == j,
        k == 0 ==> state.max() != -10,
    ensures
        forall|j: int|
            0 <= j <= k ==> #[trigger] track(state, swap_plan(state[k], k, scratch_id(state)))[j] == j,
{
    let source = state[k];
    let scratch = scratch_id(state);
    assert(!state.contains(scratch)) by {
        lemma_scratch_fresh(state);
    }
    assert(scratch != k) by {
        state.max_ensures();
        if k > 0 {
            assert(state[k - 1] == k - 1);
        }
    }
    assert(state.contains(source));
    lemma_swap(state, source, k, scratch);
    let result = exchanged(state, source, k);
    assert forall|j: int| 0 <= j <= k implies #[trigger] result[j] == j by {
        if j < k {
            assert(state[j] == j);
            assert(state[j] != state[k]);
        }
    }
}

proof fn lemma_collapse_upto(order: Seq<int>, k: nat)
    requires
        order.no_duplicates(),
        order.len() > 0 ==> order.max() != -10,
        k <= order.len(),
    ensures
        track(order, collapse_steps(order, k)).len() == order.len(),
        track(order, collapse_steps(order, k)).no_duplicates(),
        forall|j: int| 0 <= j < k ==> #[trigger] track(order, collapse_steps(order, k))[j] == j,
    decreases k,
{
    let steps = collapse_steps(order, k);
    assert(track(order, steps).len() == order.len()) by {
        lemma_track_len(order, steps);
    }
    assert(track(order, steps).no_duplicates()) by {
        lemma_track_distinct(order, steps);
    }
    if k > 0 {
        let before = collapse_steps(order, (k - 1) as nat);
        let state = track(order, before);
        lemma_collapse_upto(order, (k - 1) as nat);
        let swap = swap_plan(state[k - 1], k - 1, scratch_id(state));
        assert(steps == before + swap);
        assert(k == 1 ==> state == order);
        lemma_collapse_step(state, k - 1);
        assert(track(order, steps) == track(state, swap)) by {
            lemma_track_concat(order, before, swap);
        }
    }
}

proof fn lemma_collapse_upto_never_refused(order: Seq<int>, k: nat)
    ensures
        collision_free(order, collapse_steps(order, k)),
    decreases k,
{
    if k > 0 {
        let before = collapse_steps(order, (k - 1) as nat);
        let state = track(order, before);
        lemma_collapse_upto_never_refused(order, (k - 1) as nat);
        lemma_scratch_fresh(state);
        lemma_swap_never_refused(state, state[k - 1], k - 1, scratch_id(state));
        lemma_collision_free_concat(order, before, swap_plan(state[k - 1], k - 1, scratch_id(state)));
    } else {
        assert(collapse_steps(order, 0).len() == 0);
    }
}

/// None of the renames of a collapse is refused, whatever the ids.
pub proof fn lemma_collapse_never_refused(order: Seq<int>)
    ensures
        collision_free(order, collapse_plan(order)),
{
    lemma_collapse_upto_never_refused(order, order.len());
}

/// A collapse of distinct ids leaves the workspaces, in visiting order, with
/// the ids `0`, `1`, `2` and so on. (Where the greatest id is -10, the first
/// swap parks on the id 0 itself and changes nothing, and the law does not
/// hold.)
pub proof fn lemma_collapse(order: Seq<int>)
    requires
        order.no_duplicates(),
        order.len() > 0 ==> order.max() != -10,
    ensures
        track(order, collapse_plan(order)) == dense(order.len()),
{
    lemma_collapse_upto(order, order.len());
    assert(track(order, collapse_plan(order)) =~= dense(order.len()));
}

/// A collapse of workspaces that hold the ids from `0` up in visiting order
/// changes nothing: collapsing twice gives what collapsing once gives.
pub proof fn lemma_collapse_twice(order: Seq<int>)
    requires
        order.no_duplicates(),
        order.len() > 0 ==> order.max() != -10,
    ensures
        track(track(order, collapse_plan(order)), collapse_plan(track(order, collapse_plan(order)))) == track(
            order,
            collapse_plan(order),
        ),
{
    lemma_collapse(order);
    let once = dense(order.len());
    assert(once.no_duplicates());
    if once.len() > 0 {
        once.max_ensures();
        assert(once[0] == 0);
    }
    lemma_collapse(once);
}

proof fn lemma_collapse_bounded(order: Seq<int>, k: nat, low: int, high: int)
    requires
        k <= order.len(),
        forall|i: int| 0 <= i < order.len() ==> low <= #[trigger] order[i] <= high,
        low <= 0,
        k <= high + 1,
    ensures
        track(order, collapse_steps(order, k)).len() == order.len(),
        forall|i: int| 0 <= i < order.len() ==> low <= #[trigger] track(order, collapse_steps(order, k))[i] <= high,
    decreases k,
{
    lemma_track_len(order, collapse_steps(order, k));
    if k > 0 {
        let before = collapse_steps(order, (k - 1) as nat);
        let state = track(order, before);
        lemma_collapse_bounded(order, (k - 1) as nat, low, high);
        let source = state[k - 1];
        let target = k - 1;
        let scratch = scratch_id(state);
        let swap = swap_plan(source, target, scratch);
        lemma_scratch_fresh(state);
        lemma_swap_stays(state, source, target, scratch);
        lemma_track_concat(order, before, swap);
        let result = track(order, collapse_steps(order, k));
        assert forall|i: int| 0 <= i < order.len() implies low <= #[trigger] result[i] <= high by {
            assert(result[i] == track(state, swap)[i]);
            assert(low <= state[i] <= high);
            assert(low <= state[k - 1] <= high);
        }
    }
}

/// The renames that give the workspaces the ids from `0` up, in the order in
/// which `order` lists the ids they hold.
pub fn collapse_steps_of(order: &Vec<i32>) -> (cmds: Vec<Command>)
    requires
        collapse_fits(ints(order@)),
    ensures
        plan(cmds@) == collapse_plan(ints(order@)),
{
    let ghost start = ints(order@);
    let n = order.len();
    let mut cmds: Vec<Command> = Vec::new();
    if n == 0 {
        assert(plan(cmds@) =~= collapse_plan(start));
        return cmds;
    }
    let top = greatest(order);
    let mut current: Vec<i32> = Vec::new();
    let mut c: usize = 0;
    while c < n
        invariant
            n == order.len(),
            c <= n,
            current.len() == c,
            forall|b: int| 0 <= b < c ==> current[b] == order[b],
        decreases n - c,
    {
        current.push(order[c]);
        c += 1;
    }
    assert(ints(current@) =~= start);
    assert(plan(cmds@) =~= collapse_steps(start, 0));
    proof {
        start.max_ensures();
    }
    let mut k: usize = 0;
    while k < n
        invariant
            n == order.len(),
            n > 0,
            k <= n,
            start == ints(order@),
            collapse_fits(start),
            top == start.max(),
            forall|i: int| 0 <= i < start.len() ==> #[trigger] start[i] <= top,
            current.len() == n,
            plan(cmds@) == collapse_steps(start, k as nat),
            ints(current@) == track(start, plan(cmds@)),
        decreases n - k,
    {
        let ghost before = plan(cmds@);
        let ghost state = ints(current@);
        proof {
            let high: int = if top >= k - 1 { top as int } else { k - 1 };
            lemma_collapse_bounded(start, k as nat, i32::MIN as int, high);
            state.max_ensures();
            assert(state.contains(state.max()));
        }
        let source = current[k];
        let target = k as i32;
        let scratch = greatest(&current) + 10;
        cmds.push(Command::Rename { from: target, to: scratch });
        cmds.push(Command::Rename { from: source, to: target });
        cmds.push(Command::Rename { from: scratch, to: source });
        rename_in(&mut current, target, scratch);
        rename_in(&mut current, source, target);
        rename_in(&mut current, scratch, source);
        proof {
            let swap = swap_plan(source as int, target as int, scratch as int);
            assert(plan(cmds@) =~= before + swap);
            lemma_swap_unfold(state, source as int, target as int, scratch as int);
            lemma_track_concat(start, before, swap);
            assert(state[k as int] == source);
        }
        k += 1;
    }
    cmds
}

/// The renames that make room for the id 0: for every group that holds the
/// id 0, in the order of the groups, the renames that move its ids up.
pub open spec fn room_plan(g: Seq<GroupView>) -> Seq<CommandView>
    decreases g.len(),
{
    if g.len() == 0 {
        Seq::empty()
    } else if ids(g.last().members).contains(0) {
        room_plan(g.drop_last()) + shift_plan(ids(g.last().members))
    } else {
        room_plan(g.drop_last())
    }
}

/// Whether every id that making room computes is one that a workspace value
/// can hold.
pub open spec fn room_fits(g: Seq<GroupView>) -> bool {
    forall|k: int|
        0 <= k < g.len() && ids((#[trigger] g[k]).members).contains(0) ==> g[k].members.last().id < i32::MAX
}

/// The renames that make room for the id 0.
pub fn room_steps(grouping: &Grouping) -> (cmds: Vec<Command>)
    requires
        room_fits(grouping@),
    ensures
        plan(cmds@) == room_plan(grouping@),
{
    let ghost g = grouping@;
    let mut cmds: Vec<Command> = Vec::new();
    let mut k: usize = 0;
    assert(plan(cmds@) =~= room_plan(g.take(0)));
    while k < grouping.len()
        invariant
            g == grouping@,
            room_fits(g),
            k <= g.len(),
            plan(cmds@) == room_plan(g.take(k as int)),
        decreases g.len() - k,
    {
        let group = grouping.get(k);
        let ghost members = g[k as int].members;
        proof {
            assert(g.take(k + 1).drop_last() =~= g.take(k as int));
            assert(g.take(k + 1).last() == g[k as int]);
        }
        match group.position(0) {
            Some(z) => {
                assert(ids(members)[z as int] == 0);
                let list = group.id_list();
                assert(list[list.len() - 1] == ids(members)[members.len() - 1]);
                let mut steps = shift_steps(&list);
                let ghost before = plan(cmds@);
                let ghost added = plan(steps@);
                cmds.append(&mut steps);
                assert(plan(cmds@) =~= before + added);
            },
            None => {
                assert(!ids(members).contains(0)) by {
                    if ids(members).contains(0) {
                        let z = choose|z: int| 0 <= z < ids(members).len() && ids(members)[z] == 0;
                        assert(members[z].id == 0);
                    }
                }
            },
        }
        k += 1;
    }
    assert(g.take(k as int) =~= g);
    cmds
}

/// Whether the scratch id of a swap among `ids` is one that a workspace value
/// can hold.
pub fn can_swap(ids: &Vec<i32>) -> (fits: bool)
    ensures
        fits == swap_fits(ints(ids@)),
{
    greatest(ids) <= i32::MAX - 10
}

/// Whether making room for the id 0 stays within the ids that a workspace
/// value can hold.
pub fn can_make_room(grouping: &Grouping) -> (fits: bool)
    ensures
        fits == room_fits(grouping@),
{
    let ghost g = grouping@;
    let mut k: usize = 0;
    while k < grouping.len()
        invariant
            g == grouping@,
            k <= g.len(),
            forall|b: int|
                0 <= b < k && ids((#[trigger] g[b]).members).contains(0) ==> g[b].members.last().id < i32::MAX,
        decreases g.len() - k,
    {
        let group = grouping.get(k);
        let ghost members = g[k as int].members;
        match group.position(0) {
            Some(z) => {
                assert(ids(members)[z as int] == 0);
                if group.get(group.len() - 1).id == i32::MAX {
                    return false;
                }
            },
            None => {
                assert(!ids(members).contains(0)) by {
                    if ids(members).contains(0) {
                        let z = choose|z: int| 0 <= z < ids(members).len() && ids(members)[z] == 0;
                        assert(members[z].id == 0);
                    }
                }
            },
        }
        k += 1;
    }
    true
}

/// Whether a collapse of workspaces that hold the ids `order` stays within
/// the ids that a workspace value can hold.
pub fn can_collapse(order: &Vec<i32>) -> (fits: bool)
    ensures
        fits == collapse_fits(ints(order@)),
{
    if order.len() == 0 {
        true
    } else {
        greatest(order) <= i32::MAX - 10 && order.len() <= 2147483639
    }
}

} // verus!
