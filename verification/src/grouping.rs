//! The workspaces of a snapshot, grouped by monitor.

use vstd::prelude::*;
use crate::snapshot::{distinct_ids, lemma_distinct_ids, Snapshot};
use crate::tracking::{ints, same_ids};
use crate::workspace::{
    ascending, ids, insert_by_id, lemma_ascending_unique, views, Workspace, WorkspaceView,
};

verus! {

/// What a [`MonitorGroup`] stands for in specifications.
pub struct GroupView {
    pub output: Seq<char>,
    pub members: Seq<WorkspaceView>,
}

/// A group has members, all on the group's monitor, in ascending order of id.
pub open spec fn group_wf(g: GroupView) -> bool {
    &&& g.members.len() > 0
    &&& ascending(g.members)
    &&& forall|i: int| 0 <= i < g.members.len() ==> (#[trigger] g.members[i]).output == g.output
}

/// The monitors of a listing, each once, in the order in which the listing
/// first names them.
pub open spec fn first_outputs(s: Seq<WorkspaceView>) -> Seq<Seq<char>>
    decreases s.len(),
{
    if s.len() == 0 {
        Seq::empty()
    } else {
        let before = first_outputs(s.drop_last());
        if before.contains(s.last().output) {
            before
        } else {
            before.push(s.last().output)
        }
    }
}

/// The monitors of the groups, in the order of the groups.
pub open spec fn outputs_of(g: Seq<GroupView>) -> Seq<Seq<char>> {
    Seq::new(g.len(), |k: int| g[k].output)
}

/// Whether `w` is a member of one of the groups.
pub open spec fn is_member(g: Seq<GroupView>, w: WorkspaceView) -> bool {
    exists|k: int, m: int| 0 <= k < g.len() && 0 <= m < g[k].members.len() && #[trigger] g[k].members[m] == w
}

/// Whether `g` is the grouping of the listing `s`: one group for each monitor,
/// in the order in which the listing first names the monitors; in each group
/// the workspaces of that monitor, all of them, in ascending order of id.
pub open spec fn is_grouping_of(g: Seq<GroupView>, s: Seq<WorkspaceView>) -> bool {
    &&& forall|k: int| 0 <= k < g.len() ==> group_wf(#[trigger] g[k])
    &&& outputs_of(g) == first_outputs(s)
    &&& forall|k: int, m: int|
        0 <= k < g.len() && 0 <= m < g[k].members.len() ==> s.contains(#[trigger] g[k].members[m])
    &&& forall|i: int| 0 <= i < s.len() ==> is_member(g, #[trigger] s[i])
}

/// The members of all groups in visiting order: group after group, each in
/// ascending order of id.
pub open spec fn visit(g: Seq<GroupView>) -> Seq<WorkspaceView>
    decreases g.len(),
{
    if g.len() == 0 {
        Seq::empty()
    } else {
        visit(g.drop_last()) + g.last().members
    }
}

/// The id of the first visible workspace of the sequence, if it has one.
pub open spec fn first_visible(members: Seq<WorkspaceView>) -> Option<int>
    decreases members.len(),
{
    if members.len() == 0 {
        None
    } else if members[0].visible {
        Some(members[0].id)
    } else {
        first_visible(members.drop_first())
    }
}

/// The monitors of a listing are named once each, and each is the monitor
/// of a workspace of the listing.
pub proof fn lemma_first_outputs(s: Seq<WorkspaceView>)
    ensures
        first_outputs(s).no_duplicates(),
        forall|k: int|
            0 <= k < first_outputs(s).len() ==> exists|i: int|
                0 <= i < s.len() && (#[trigger] s[i]).output == #[trigger] first_outputs(s)[k],
        forall|i: int| 0 <= i < s.len() ==> first_outputs(s).contains((#[trigger] s[i]).output),
    decreases s.len(),
{
    if s.len() > 0 {
        let front = s.drop_last();
        let before = first_outputs(front);
        let out = first_outputs(s);
        lemma_first_outputs(front);
        assert forall|k: int| 0 <= k < out.len() implies exists|i: int|
            0 <= i < s.len() && (#[trigger] s[i]).output == #[trigger] out[k] by {
            if k < before.len() {
                let i = choose|i: int| 0 <= i < front.len() && (#[trigger] front[i]).output == before[k];
                assert(s[i].output == out[k]);
            } else {
                assert(s[s.len() - 1].output == out[k]);
            }
        }
        assert forall|i: int| 0 <= i < s.len() implies out.contains((#[trigger] s[i]).output) by {
            if i < front.len() {
                assert(front[i] == s[i]);
                assert(before.contains(front[i].output));
                let k = choose|k: int| 0 <= k < before.len() && before[k] == front[i].output;
                assert(out[k] == s[i].output);
            } else if before.contains(s.last().output) {
            } else {
                assert(out[before.len() as int] == s[i].output);
            }
        }
    }
}

/// In a grouping no two groups are of one monitor, and no two members hold
/// one id.
pub proof fn lemma_grouping_distinct(g: Seq<GroupView>, s: Seq<WorkspaceView>)
    requires
        is_grouping_of(g, s),
        distinct_ids(s),
    ensures
        forall|a: int, b: int| 0 <= a < g.len() && 0 <= b < g.len() && a != b
            ==> (#[trigger] g[a]).output != (#[trigger] g[b]).output,
        forall|a: int, m: int, b: int, n: int|
            0 <= a < g.len() && 0 <= m < g[a].members.len() && 0 <= b < g.len() && 0 <= n < g[b].members.len()
                && (a != b || m != n)
                ==> (#[trigger] g[a].members[m]).id != (#[trigger] g[b].members[n]).id,
{
    lemma_first_outputs(s);
    let outs = outputs_of(g);
    assert forall|a: int, b: int| 0 <= a < g.len() && 0 <= b < g.len() && a != b implies (#[trigger] g[a]).output
        != (#[trigger] g[b]).output by {
        assert(outs[a] == g[a].output);
        assert(outs[b] == g[b].output);
    }
    assert forall|a: int, m: int, b: int, n: int|
        0 <= a < g.len() && 0 <= m < g[a].members.len() && 0 <= b < g.len() && 0 <= n < g[b].members.len()
            && (a != b || m != n)
        implies (#[trigger] g[a].members[m]).id != (#[trigger] g[b].members[n]).id by {
        assert(group_wf(g[a]));
        assert(group_wf(g[b]));
        if a != b {
            assert(g[a].members[m].output == g[a].output);
            assert(g[b].members[n].output == g[b].output);
        } else if m < n {
            assert(g[a].members[m].id < g[a].members[n].id);
        } else {
            assert(g[a].members[n].id < g[a].members[m].id);
        }
    }
}

proof fn lemma_members_agree(a: Seq<GroupView>, b: Seq<GroupView>, s: Seq<WorkspaceView>, k: int, x: WorkspaceView)
    requires
        is_grouping_of(a, s),
        is_grouping_of(b, s),
        0 <= k < a.len(),
        a[k].members.contains(x),
    ensures
        k < b.len(),
        b[k].members.contains(x),
{
    lemma_first_outputs(s);
    let m = choose|m: int| 0 <= m < a[k].members.len() && a[k].members[m] == x;
    assert(group_wf(a[k]));
    assert(s.contains(a[k].members[m]));
    let i = choose|i: int| 0 <= i < s.len() && s[i] == x;
    assert(is_member(b, s[i]));
    let (k2, m2) = choose|k2: int, m2: int|
        0 <= k2 < b.len() && 0 <= m2 < b[k2].members.len() && #[trigger] b[k2].members[m2] == x;
    assert(group_wf(b[k2]));
    assert(outputs_of(a)[k] == a[k].output);
    assert(outputs_of(b)[k2] == b[k2].output);
    assert(outputs_of(b)[k] == outputs_of(a)[k]);
    assert(k2 == k);
}

/// A listing has one grouping only.
pub proof fn lemma_grouping_unique(a: Seq<GroupView>, b: Seq<GroupView>, s: Seq<WorkspaceView>)
    requires
        is_grouping_of(a, s),
        is_grouping_of(b, s),
    ensures
        a == b,
{
    assert(a.len() == outputs_of(a).len());
    assert(b.len() == outputs_of(b).len());
    assert forall|k: int| 0 <= k < a.len() implies a[k] == b[k] by {
        assert(outputs_of(a)[k] == outputs_of(b)[k]);
        assert(group_wf(a[k]));
        assert(group_wf(b[k]));
        assert forall|x: WorkspaceView| a[k].members.contains(x) <==> b[k].members.contains(x) by {
            if a[k].members.contains(x) {
                lemma_members_agree(a, b, s, k, x);
            }
            if b[k].members.contains(x) {
                lemma_members_agree(b, a, s, k, x);
            }
        }
        lemma_ascending_unique(a[k].members, b[k].members);
    }
    assert(a =~= b);
}

/// The grouping of a listing.
pub open spec fn grouping_of(s: Seq<WorkspaceView>) -> Seq<GroupView> {
    choose|g: Seq<GroupView>| is_grouping_of(g, s)
}

/// What is a grouping of a listing is the grouping of the listing.
pub proof fn lemma_grouping_of(g: Seq<GroupView>, s: Seq<WorkspaceView>)
    requires
        is_grouping_of(g, s),
    ensures
        g == grouping_of(s),
{
    lemma_grouping_unique(g, grouping_of(s), s);
}

proof fn lemma_place_exists(members: Seq<WorkspaceView>, w: WorkspaceView) -> (p: int)
    requires
        ascending(members),
        forall|b: int| 0 <= b < members.len() ==> (#[trigger] members[b]).id != w.id,
    ensures
        0 <= p <= members.len(),
        ascending(members.insert(p, w)),
    decreases members.len(),
{
    if members.len() == 0 {
        0
    } else if members.last().id < w.id {
        let p = members.len() as int;
        let grown = members.insert(p, w);
        assert forall|i: int, j: int| 0 <= i < j < grown.len()
            implies (#[trigger] grown[i]).id < (#[trigger] grown[j]).id by {
            if j == p {
                if i < p - 1 {
                    assert(members[i].id < members[p - 1].id);
                }
            } else {
                assert(members[i].id < members[j].id);
            }
        }
        p
    } else {
        let front = members.drop_last();
        let p = lemma_place_exists(front, w);
        let inner = front.insert(p, w);
        let grown = members.insert(p, w);
        assert(grown =~= inner.push(members.last()));
        assert forall|i: int, j: int| 0 <= i < j < grown.len()
            implies (#[trigger] grown[i]).id < (#[trigger] grown[j]).id by {
            if j < inner.len() {
                assert(inner[i].id < inner[j].id);
            } else if i == p {
                assert(members[members.len() - 1].id != w.id);
            } else {
                let oi = if i < p { i } else { i - 1 };
                assert(grown[i] == members[oi]);
                assert(members[oi].id < members[members.len() - 1].id);
            }
        }
        p
    }
}

/// A listing with distinct ids has a grouping.
pub proof fn lemma_grouping_exists(s: Seq<WorkspaceView>)
    requires
        distinct_ids(s),
    ensures
        is_grouping_of(grouping_of(s), s),
    decreases s.len(),
{
    if s.len() == 0 {
        let g = Seq::<GroupView>::empty();
        assert(outputs_of(g) =~= first_outputs(s));
        assert(is_grouping_of(g, s));
    } else {
        let t = s.drop_last();
        let w = s.last();
        assert(s =~= t.push(w));
        assert(distinct_ids(t)) by {
            assert forall|i: int, j: int| 0 <= i < t.len() && 0 <= j < t.len() && i != j implies (#[trigger] t[i]).id
                != (#[trigger] t[j]).id by {
                assert(s[i].id != s[j].id);
            }
        }
        lemma_grouping_exists(t);
        let g = grouping_of(t);
        if outputs_of(g).contains(w.output) {
            let k = choose|k: int| 0 <= k < outputs_of(g).len() && outputs_of(g)[k] == w.output;
            assert(group_wf(g[k]));
            assert forall|b: int| 0 <= b < g[k].members.len() implies (#[trigger] g[k].members[b]).id != w.id by {
                assert(t.contains(g[k].members[b]));
                let j = choose|j: int| 0 <= j < t.len() && t[j] == g[k].members[b];
                assert(s[j].id != s[s.len() - 1].id);
            }
            let p = lemma_place_exists(g[k].members, w);
            lemma_group_extend(g, t, w, k, p);
        } else {
            lemma_group_open(g, t, w);
        }
    }
}

/// The number of members that are visited before those of the group `k`.
pub open spec fn offset(g: Seq<GroupView>, k: int) -> int {
    visit(g.take(k)).len() as int
}

/// The member `m` of the group `k` is visited after the members of the
/// groups before, and after `m` members of its own group.
pub proof fn lemma_visit_index(g: Seq<GroupView>, k: int, m: int)
    requires
        0 <= k < g.len(),
        0 <= m < g[k].members.len(),
    ensures
        0 <= offset(g, k) + m < visit(g).len(),
        visit(g)[offset(g, k) + m] == g[k].members[m],
    decreases g.len(),
{
    let front = g.drop_last();
    if k == g.len() - 1 {
        assert(g.take(k) =~= front);
    } else {
        lemma_visit_index(front, k, m);
        assert(front.take(k) =~= g.take(k));
    }
}

/// Whatever is visited is a member of a group, at the place that
/// [`lemma_visit_index`] gives.
pub proof fn lemma_visit_member(g: Seq<GroupView>, p: int) -> (at: (int, int))
    requires
        0 <= p < visit(g).len(),
    ensures
        0 <= at.0 < g.len(),
        0 <= at.1 < g[at.0].members.len(),
        p == offset(g, at.0) + at.1,
        visit(g)[p] == g[at.0].members[at.1],
    decreases g.len(),
{
    let front = g.drop_last();
    if p < visit(front).len() {
        let at = lemma_visit_member(front, p);
        assert(front.take(at.0) =~= g.take(at.0));
        at
    } else {
        assert(g.take(g.len() - 1) =~= front);
        (g.len() - 1, p - visit(front).len())
    }
}

/// The visit of a grouping passes each workspace of the listing once.
pub proof fn lemma_visiting(g: Seq<GroupView>, s: Seq<WorkspaceView>)
    requires
        is_grouping_of(g, s),
        distinct_ids(s),
    ensures
        ids(visit(g)).no_duplicates(),
        same_ids(ids(visit(g)), ids(s)),
        visit(g).len() == s.len(),
{
    let v = visit(g);
    lemma_grouping_distinct(g, s);
    assert forall|p: int, q: int| 0 <= p < v.len() && 0 <= q < v.len() && p != q implies ids(v)[p] != ids(v)[q] by {
        let a = lemma_visit_member(g, p);
        let b = lemma_visit_member(g, q);
        assert(g[a.0].members[a.1].id != g[b.0].members[b.1].id);
    }
    assert forall|x: int| ids(v).contains(x) <==> ids(s).contains(x) by {
        if ids(v).contains(x) {
            let p = choose|p: int| 0 <= p < ids(v).len() && ids(v)[p] == x;
            let a = lemma_visit_member(g, p);
            assert(s.contains(g[a.0].members[a.1]));
            let i = choose|i: int| 0 <= i < s.len() && s[i] == g[a.0].members[a.1];
            assert(ids(s)[i] == x);
        }
        if ids(s).contains(x) {
            let i = choose|i: int| 0 <= i < ids(s).len() && ids(s)[i] == x;
            assert(is_member(g, s[i]));
            let (k, m) = choose|k: int, m: int|
                0 <= k < g.len() && 0 <= m < g[k].members.len() && #[trigger] g[k].members[m] == s[i];
            lemma_visit_index(g, k, m);
            assert(ids(v)[offset(g, k) + m] == x);
        }
    }
    lemma_distinct_ids(s);
    ids(v).unique_seq_to_set();
    ids(s).unique_seq_to_set();
    assert(ids(v).to_set() =~= ids(s).to_set());
}

/// The workspaces of one monitor, in ascending order of id.
#[derive(Debug)]
pub struct MonitorGroup {
    output: String,
    members: Vec<Workspace>,
}

impl View for MonitorGroup {
    type V = GroupView;

    closed spec fn view(&self) -> GroupView {
        GroupView { output: self.output@, members: views(self.members@) }
    }
}

/// The views of a sequence of groups, in the same order.
pub open spec fn group_views(gs: Seq<MonitorGroup>) -> Seq<GroupView> {
    Seq::new(gs.len(), |k: int| gs[k]@)
}

impl MonitorGroup {
    /// The monitor of the group.
    pub fn output(&self) -> (o: &String)
        ensures
            o@ == self@.output,
    {
        &self.output
    }

    /// The number of members.
    pub fn len(&self) -> (n: usize)
        ensures
            n == self@.members.len(),
    {
        self.members.len()
    }

    /// The member at position `m`.
    pub fn get(&self, m: usize) -> (w: &Workspace)
        requires
            m < self@.members.len(),
        ensures
            w@ == self@.members[m as int],
    {
        &self.members[m]
    }

    /// The position of the first member that holds `id`, if one does.
    pub fn position(&self, id: i32) -> (r: Option<usize>)
        ensures
            match r {
                Some(m) => m < self@.members.len() && self@.members[m as int].id == id && forall|b: int|
                    0 <= b < m ==> (#[trigger] self@.members[b]).id != id,
                None => forall|m: int| 0 <= m < self@.members.len() ==> (#[trigger] self@.members[m]).id != id,
            },
    {
        let mut m: usize = 0;
        while m < self.members.len()
            invariant
                m <= self.members.len(),
                forall|b: int| 0 <= b < m ==> (#[trigger] self@.members[b]).id != id,
            decreases self.members.len() - m,
        {
            if self.members[m].id == id {
                return Some(m);
            }
            m += 1;
        }
        None
    }

    /// The ids of the members, in ascending order.
    pub fn id_list(&self) -> (list: Vec<i32>)
        ensures
            ints(list@) == ids(self@.members),
    {
        let mut list: Vec<i32> = Vec::new();
        let mut m: usize = 0;
        while m < self.members.len()
            invariant
                m <= self.members.len(),
                list.len() == m,
                forall|b: int| 0 <= b < m ==> list[b] == self.members[b].id,
            decreases self.members.len() - m,
        {
            list.push(self.members[m].id);
            m += 1;
        }
        assert(ints(list@) =~= ids(self@.members));
        list
    }

    /// The id of the first visible member, if one is visible.
    pub fn first_visible(&self) -> (r: Option<i32>)
        ensures
            match r {
                Some(id) => first_visible(self@.members) == Some(id as int),
                None => first_visible(self@.members) is None,
            },
    {
        let ghost all = self@.members;
        let mut m: usize = 0;
        assert(all.skip(0) =~= all);
        while m < self.members.len()
            invariant
                m <= self.members.len(),
                all == self@.members,
                first_visible(all) == first_visible(all.skip(m as int)),
            decreases self.members.len() - m,
        {
            assert(all.skip(m as int).drop_first() =~= all.skip(m + 1));
            if self.members[m].visible {
                return Some(self.members[m].id);
            }
            m += 1;
        }
        None
    }
}

/// The groups of a snapshot.
#[derive(Debug)]
pub struct Grouping {
    groups: Vec<MonitorGroup>,
}

impl View for Grouping {
    type V = Seq<GroupView>;

    closed spec fn view(&self) -> Seq<GroupView> {
        group_views(self.groups@)
    }
}

impl Grouping {
    /// The number of groups.
    pub fn len(&self) -> (n: usize)
        ensures
            n == self@.len(),
    {
        self.groups.len()
    }

    /// The group at position `k`.
    pub fn get(&self, k: usize) -> (g: &MonitorGroup)
        requires
            k < self@.len(),
        ensures
            g@ == self@[k as int],
    {
        &self.groups[k]
    }

    /// The ids of all members, in visiting order.
    pub fn id_list(&self) -> (list: Vec<i32>)
        ensures
            ints(list@) == ids(visit(self@)),
    {
        let ghost g = self@;
        let mut list: Vec<i32> = Vec::new();
        let mut k: usize = 0;
        assert(ints(list@) =~= ids(visit(g.take(0))));
        while k < self.groups.len()
            invariant
                k <= self.groups.len(),
                g == self@,
                ints(list@) == ids(visit(g.take(k as int))),
            decreases self.groups.len() - k,
        {
            let group = &self.groups[k];
            let ghost done = ints(list@);
            let ghost members = g[k as int].members;
            let mut m: usize = 0;
            assert(ints(list@) =~= done + ids(members.take(0)));
            while m < group.members.len()
                invariant
                    m <= group.members.len(),
                    members == views(group.members@),
                    ints(list@) == done + ids(members.take(m as int)),
                decreases group.members.len() - m,
            {
                let ghost sofar = ints(list@);
                list.push(group.members[m].id);
                assert(ints(list@) =~= sofar.push(members[m as int].id));
                assert(members.take(m + 1) =~= members.take(m as int).push(members[m as int]));
                assert(ids(members.take(m + 1)) =~= ids(members.take(m as int)).push(members[m as int].id));
                m += 1;
            }
            proof {
                assert(members.take(m as int) =~= members);
                assert(g.take(k + 1).drop_last() =~= g.take(k as int));
                assert(g.take(k + 1).last() == g[k as int]);
                assert(ids(visit(g.take(k + 1))) =~= done + ids(members));
            }
            k += 1;
        }
        assert(g.take(k as int) =~= g);
        list
    }

    /// The position of the first group of the monitor `output`, if there is one.
    pub fn position(&self, output: &String) -> (r: Option<usize>)
        ensures
            match r {
                Some(k) => k < self@.len() && self@[k as int].output == output@ && forall|b: int|
                    0 <= b < k ==> (#[trigger] self@[b]).output != output@,
                None => !outputs_of(self@).contains(output@),
            },
    {
        find_output(&self.groups, output)
    }
}

fn find_output(groups: &Vec<MonitorGroup>, output: &String) -> (r: Option<usize>)
    ensures
        match r {
            Some(k) => k < groups.len() && groups[k as int]@.output == output@ && forall|b: int|
                0 <= b < k ==> (#[trigger] groups[b])@.output != output@,
            None => !outputs_of(group_views(groups@)).contains(output@),
        },
{
    let ghost outs = outputs_of(group_views(groups@));
    let mut k: usize = 0;
    while k < groups.len()
        invariant
            k <= groups.len(),
            outs == outputs_of(group_views(groups@)),
            forall|b: int| 0 <= b < k ==> #[trigger] outs[b] != output@,
        decreases groups.len() - k,
    {
        if groups[k].output == *output {
            assert forall|b: int| 0 <= b < k implies (#[trigger] groups[b])@.output != output@ by {
                assert(outs[b] != output@);
            }
            return Some(k);
        }
        k += 1;
    }
    None
}

proof fn lemma_group_extend(
    g: Seq<GroupView>,
    t: Seq<WorkspaceView>,
    w: WorkspaceView,
    k: int,
    p: int,
)
    requires
        is_grouping_of(g, t),
        0 <= k < g.len(),
        0 <= p <= g[k].members.len(),
        w.output == g[k].output,
        ascending(g[k].members.insert(p, w)),
    ensures
        is_grouping_of(
            g.update(k, (GroupView { output: g[k].output, members: g[k].members.insert(p, w) })),
            t.push(w),
        ),
{
    let grown = GroupView { output: g[k].output, members: g[k].members.insert(p, w) };
    let g2 = g.update(k, grown);
    let t2 = t.push(w);
    assert(t2.drop_last() =~= t);
    assert(outputs_of(g)[k] == w.output);
    assert(outputs_of(g2) =~= outputs_of(g));
    assert forall|x: int| 0 <= x < g2.len() implies group_wf(#[trigger] g2[x]) by {
        if x == k {
            assert forall|i: int| 0 <= i < grown.members.len() implies (#[trigger] grown.members[i]).output
                == grown.output by {
                if i < p {
                    assert(grown.members[i] == g[k].members[i]);
                } else if i > p {
                    assert(grown.members[i] == g[k].members[i - 1]);
                }
            }
        } else {
            assert(g2[x] == g[x]);
            assert(group_wf(g[x]));
        }
    }
    assert forall|x: int, m: int| 0 <= x < g2.len() && 0 <= m < g2[x].members.len() implies t2.contains(
        #[trigger] g2[x].members[m],
    ) by {
        let old_m = if x == k && m > p { m - 1 } else { m };
        if x == k && m == p {
            assert(t2[t.len() as int] == w);
        } else {
            assert(g2[x].members[m] == g[x].members[old_m]);
            assert(t.contains(g[x].members[old_m]));
            let j = choose|j: int| 0 <= j < t.len() && t[j] == g[x].members[old_m];
            assert(t2[j] == g2[x].members[m]);
        }
    }
    assert forall|i: int| 0 <= i < t2.len() implies is_member(g2, #[trigger] t2[i]) by {
        if i < t.len() {
            assert(t2[i] == t[i]);
            assert(is_member(g, t[i]));
            let (x, m) = choose|x: int, m: int|
                0 <= x < g.len() && 0 <= m < g[x].members.len() && #[trigger] g[x].members[m] == t[i];
            let new_m = if x == k && m >= p { m + 1 } else { m };
            assert(g2[x].members[new_m] == t2[i]);
        } else {
            assert(g2[k].members[p] == t2[i]);
        }
    }
}

proof fn lemma_group_open(g: Seq<GroupView>, t: Seq<WorkspaceView>, w: WorkspaceView)
    requires
        is_grouping_of(g, t),
        !outputs_of(g).contains(w.output),
    ensures
        is_grouping_of(g.push((GroupView { output: w.output, members: seq![w] })), t.push(w)),
{
    let opened = GroupView { output: w.output, members: seq![w] };
    let g2 = g.push(opened);
    let t2 = t.push(w);
    assert(t2.drop_last() =~= t);
    assert(outputs_of(g2) =~= outputs_of(g).push(w.output));
    assert forall|x: int| 0 <= x < g2.len() implies group_wf(#[trigger] g2[x]) by {
        if x < g.len() {
            assert(g2[x] == g[x]);
            assert(group_wf(g[x]));
        }
    }
    assert forall|x: int, m: int| 0 <= x < g2.len() && 0 <= m < g2[x].members.len() implies t2.contains(
        #[trigger] g2[x].members[m],
    ) by {
        if x < g.len() {
            assert(g2[x].members[m] == g[x].members[m]);
            assert(t.contains(g[x].members[m]));
            let j = choose|j: int| 0 <= j < t.len() && t[j] == g[x].members[m];
            assert(t2[j] == g2[x].members[m]);
        } else {
            assert(t2[t.len() as int] == w);
        }
    }
    assert forall|i: int| 0 <= i < t2.len() implies is_member(g2, #[trigger] t2[i]) by {
        if i < t.len() {
            assert(t2[i] == t[i]);
            assert(is_member(g, t[i]));
            let (x, m) = choose|x: int, m: int|
                0 <= x < g.len() && 0 <= m < g[x].members.len() && #[trigger] g[x].members[m] == t[i];
            assert(g2[x].members[m] == t2[i]);
        } else {
            assert(g2[g.len() as int].members[0] == t2[i]);
        }
    }
}

/// Groups the workspaces of a snapshot by monitor.
pub fn group(snapshot: &Snapshot) -> (g: Grouping)
    requires
        snapshot.wf(),
    ensures
        is_grouping_of(g@, snapshot@),
        g@ == grouping_of(snapshot@),
{
    let ghost s = snapshot@;
    let mut groups: Vec<MonitorGroup> = Vec::new();
    let mut i: usize = 0;
    assert(outputs_of(group_views(groups@)) =~= first_outputs(s.take(0)));
    while i < snapshot.len()
        invariant
            s == snapshot@,
            snapshot.wf(),
            i <= s.len(),
            is_grouping_of(group_views(groups@), s.take(i as int)),
        decreases s.len() - i,
    {
        let w = snapshot.get(i);
        let ghost g0 = group_views(groups@);
        let ghost t = s.take(i as int);
        assert(s.take(i + 1) =~= t.push(w@));
        match find_output(&groups, &w.output) {
            Some(k) => {
                assert forall|b: int| 0 <= b < groups[k as int].members.len()
                    implies (#[trigger] groups[k as int].members[b]).id
                    != w.id by {
                    let held = g0[k as int].members[b];
                    assert(t.contains(held));
                    let j = choose|j: int| 0 <= j < t.len() && t[j] == held;
                    assert(s[j].id != s[i as int].id);
                }
                assert(group_wf(g0[k as int]));
                let p = insert_by_id(&mut groups[k].members, w.copy());
                proof {
                    let grown = GroupView {
                        output: g0[k as int].output,
                        members: g0[k as int].members.insert(p as int, w@),
                    };
                    assert(views(groups[k as int].members@) =~= grown.members);
                    assert(group_views(groups@) =~= g0.update(k as int, grown));
                    lemma_group_extend(g0, t, w@, k as int, p as int);
                }
            },
            None => {
                let mut members: Vec<Workspace> = Vec::new();
                members.push(w.copy());
                groups.push(MonitorGroup { output: w.output.clone(), members });
                proof {
                    let opened = GroupView { output: w@.output, members: seq![w@] };
                    assert(views(groups[groups.len() - 1].members@) =~= opened.members);
                    assert(group_views(groups@) =~= g0.push(opened));
                    lemma_group_open(g0, t, w@);
                }
            },
        }
        i += 1;
    }
    assert(s.take(i as int) =~= s);
    proof {
        lemma_grouping_of(group_views(groups@), s);
    }
    Grouping { groups }
}

} // verus!
