//! A point-in-time copy of all workspaces, checked for consistency.

use vstd::prelude::*;
use crate::command::{plan, Command, CommandView};
use crate::text::{decimal, decimal_string};
use crate::tracking::{collides, collision_free, ints, lemma_collision_free_push, step_ids, track};
use crate::workspace::{
    ascending, ids, in_order, insert_by_id, lemma_in_order, same_workspaces, views, Workspace, WorkspaceView,
};

verus! {

/// No two workspaces share an id.
pub open spec fn distinct_ids(s: Seq<WorkspaceView>) -> bool {
    forall|i: int, j: int|
        0 <= i < s.len() && 0 <= j < s.len() && i != j ==> (#[trigger] s[i]).id != (#[trigger] s[j]).id
}

/// Some workspace holds the focus.
pub open spec fn has_focus(s: Seq<WorkspaceView>) -> bool {
    exists|i: int| 0 <= i < s.len() && (#[trigger] s[i]).focused
}

/// At most one workspace holds the focus.
pub open spec fn single_focus(s: Seq<WorkspaceView>) -> bool {
    forall|i: int, j: int|
        0 <= i < s.len() && 0 <= j < s.len() && (#[trigger] s[i]).focused && (#[trigger] s[j]).focused
            ==> i == j
}

/// On each monitor at most one workspace is visible.
pub open spec fn single_visible(s: Seq<WorkspaceView>) -> bool {
    forall|i: int, j: int|
        0 <= i < s.len() && 0 <= j < s.len() && i != j && (#[trigger] s[i]).visible && (#[trigger] s[j]).visible
            ==> s[i].output != s[j].output
}

/// What holds of every listing that the window manager hands out.
pub open spec fn consistent(s: Seq<WorkspaceView>) -> bool {
    &&& distinct_ids(s)
    &&& has_focus(s)
    &&& single_focus(s)
    &&& single_visible(s)
}

/// Every id is one that a workspace value can hold.
pub open spec fn ids_fit(s: Seq<WorkspaceView>) -> bool {
    forall|i: int| 0 <= i < s.len() ==> i32::MIN <= (#[trigger] s[i]).id <= i32::MAX
}

/// The position of the focused workspace.
pub open spec fn focus_index(s: Seq<WorkspaceView>) -> int {
    choose|i: int| 0 <= i < s.len() && (#[trigger] s[i]).focused
}

/// The focused workspace.
pub open spec fn focused_of(s: Seq<WorkspaceView>) -> WorkspaceView {
    s[focus_index(s)]
}

/// The workspaces after the rename `from` to `to`: refused, and without effect,
/// where `to` is taken; else the workspace `from`, if there is one, gets the
/// id `to` and its decimal text as its name.
pub open spec fn renamed(s: Seq<WorkspaceView>, from: int, to: int) -> Seq<WorkspaceView> {
    if ids(s).contains(to) {
        s
    } else {
        Seq::new(
            s.len(),
            |i: int|
                if s[i].id == from {
                    WorkspaceView { id: to, name: decimal(to), ..s[i] }
                } else {
                    s[i]
                },
        )
    }
}

/// The workspaces after one command. Only a rename changes the listing.
pub open spec fn stepped(s: Seq<WorkspaceView>, c: CommandView) -> Seq<WorkspaceView> {
    match c {
        CommandView::Rename { from, to } => renamed(s, from, to),
        _ => s,
    }
}

/// The workspaces after the commands `cmds`, run in order.
pub open spec fn after(s: Seq<WorkspaceView>, cmds: Seq<CommandView>) -> Seq<WorkspaceView>
    decreases cmds.len(),
{
    if cmds.len() == 0 {
        s
    } else {
        stepped(after(s, cmds.drop_last()), cmds.last())
    }
}

/// In a consistent listing the workspace that is focused is the focused
/// workspace.
pub proof fn lemma_focus_index(s: Seq<WorkspaceView>, i: int)
    requires
        single_focus(s),
        0 <= i < s.len(),
        s[i].focused,
    ensures
        focus_index(s) == i,
{
}

/// Running `a` and then `b` is running their concatenation.
pub proof fn lemma_after_concat(s: Seq<WorkspaceView>, a: Seq<CommandView>, b: Seq<CommandView>)
    ensures
        after(s, a + b) == after(after(s, a), b),
    decreases b.len(),
{
    if b.len() == 0 {
        assert(a + b =~= a);
    } else {
        lemma_after_concat(s, a, b.drop_last());
        assert((a + b).drop_last() =~= a + b.drop_last());
        assert((a + b).last() == b.last());
    }
}

/// Distinct ids of workspaces are a sequence of ids without duplicates.
pub proof fn lemma_distinct_ids(s: Seq<WorkspaceView>)
    ensures
        distinct_ids(s) <==> ids(s).no_duplicates(),
{
    if distinct_ids(s) {
        assert forall|i: int, j: int|
            0 <= i < ids(s).len() && 0 <= j < ids(s).len() && i != j implies ids(s)[i] != ids(s)[j] by {
            assert(s[i].id != s[j].id);
        }
    }
    if ids(s).no_duplicates() {
        assert forall|i: int, j: int|
            0 <= i < s.len() && 0 <= j < s.len() && i != j implies (#[trigger] s[i]).id != (#[trigger] s[j]).id by {
            assert(ids(s)[i] != ids(s)[j]);
        }
    }
}

/// One command changes the ids as the id model says, keeps every
/// workspace on its monitor with its flags, and keeps a consistent listing
/// consistent.
pub proof fn lemma_stepped(s: Seq<WorkspaceView>, c: CommandView)
    ensures
        ids(stepped(s, c)) == step_ids(ids(s), c),
        stepped(s, c).len() == s.len(),
        forall|i: int|
            0 <= i < s.len() ==> {
                &&& (#[trigger] stepped(s, c)[i]).output == s[i].output
                &&& stepped(s, c)[i].visible == s[i].visible
                &&& stepped(s, c)[i].focused == s[i].focused
            },
        consistent(s) ==> consistent(stepped(s, c)),
{
    let r = stepped(s, c);
    assert(ids(r) =~= step_ids(ids(s), c));
    if consistent(s) {
        let w = choose|i: int| 0 <= i < s.len() && (#[trigger] s[i]).focused;
        assert(r[w].focused);
        assert forall|i: int, j: int|
            0 <= i < r.len() && 0 <= j < r.len() && i != j implies (#[trigger] r[i]).id != (#[trigger] r[j]).id by {
            assert(s[i].id != s[j].id);
            assert(ids(s)[i] == s[i].id);
            assert(ids(s)[j] == s[j].id);
        }
        assert forall|i: int, j: int|
            0 <= i < r.len() && 0 <= j < r.len() && (#[trigger] r[i]).focused && (#[trigger] r[j]).focused implies i
            == j by {
            assert(s[i].focused && s[j].focused);
        }
        assert forall|i: int, j: int|
            0 <= i < r.len() && 0 <= j < r.len() && i != j && (#[trigger] r[i]).visible && (#[trigger] r[j]).visible
                implies r[i].output
            != r[j].output by {
            assert(s[i].visible && s[j].visible);
        }
    }
}

/// A sequence of commands changes the ids as the id model says, keeps every
/// workspace on its monitor with its flags, and keeps a consistent listing
/// consistent.
pub proof fn lemma_after(s: Seq<WorkspaceView>, cmds: Seq<CommandView>)
    ensures
        ids(after(s, cmds)) == track(ids(s), cmds),
        after(s, cmds).len() == s.len(),
        forall|i: int|
            0 <= i < s.len() ==> {
                &&& (#[trigger] after(s, cmds)[i]).output == s[i].output
                &&& after(s, cmds)[i].visible == s[i].visible
                &&& after(s, cmds)[i].focused == s[i].focused
            },
        consistent(s) ==> consistent(after(s, cmds)),
    decreases cmds.len(),
{
    if cmds.len() > 0 {
        lemma_after(s, cmds.drop_last());
        lemma_stepped(after(s, cmds.drop_last()), cmds.last());
    }
}

/// Why a listing is not a consistent snapshot.
#[derive(Clone, Copy, Debug, PartialEq, Eq, Structural)]
pub enum SnapshotError {
    /// Two workspaces share an id.
    DuplicateId,
    /// No workspace holds the focus.
    NoFocus,
    /// More than one workspace holds the focus.
    SeveralFocused,
    /// Two workspaces on one monitor are visible.
    SeveralVisible,
}

/// What is wrong with a listing, if anything is: the first that applies of a
/// shared id, no focus, several focused workspaces, several visible
/// workspaces on one monitor.
pub open spec fn flaw(s: Seq<WorkspaceView>) -> Option<SnapshotError> {
    if !distinct_ids(s) {
        Some(SnapshotError::DuplicateId)
    } else if !has_focus(s) {
        Some(SnapshotError::NoFocus)
    } else if !single_focus(s) {
        Some(SnapshotError::SeveralFocused)
    } else if !single_visible(s) {
        Some(SnapshotError::SeveralVisible)
    } else {
        None
    }
}

/// A consistent listing of workspaces, in ascending order of the ids they
/// held when the snapshot was taken. A workspace keeps its position in the
/// snapshot whatever its id becomes.
#[derive(Debug)]
pub struct Snapshot {
    workspaces: Vec<Workspace>,
}

impl View for Snapshot {
    type V = Seq<WorkspaceView>;

    closed spec fn view(&self) -> Seq<WorkspaceView> {
        views(self.workspaces@)
    }
}

fn shares_id(ws: &Vec<Workspace>) -> (found: bool)
    ensures
        found == !distinct_ids(views(ws@)),
{
    let ghost s = views(ws@);
    let n = ws.len();
    let mut i: usize = 0;
    while i < n
        invariant
            n == ws.len(),
            i <= n,
            s == views(ws@),
            forall|a: int, b: int| 0 <= a < i && 0 <= b < i && a != b
                ==> (#[trigger] s[a]).id != (#[trigger] s[b]).id,
        decreases n - i,
    {
        let mut j: usize = 0;
        while j < i
            invariant
                n == ws.len(),
                j <= i < n,
                s == views(ws@),
                forall|b: int| 0 <= b < j ==> (#[trigger] s[b]).id != s[i as int].id,
            decreases i - j,
        {
            if ws[j].id == ws[i].id {
                assert(s[j as int].id == s[i as int].id);
                return true;
            }
            j += 1;
        }
        i += 1;
    }
    false
}

fn first_focused(ws: &Vec<Workspace>, start: usize) -> (r: Option<usize>)
    requires
        start <= ws.len(),
    ensures
        match r {
            Some(i) => start <= i < ws.len() && ws[i as int].focused && forall|b: int|
                start <= b < i ==> !(#[trigger] ws[b]).focused,
            None => forall|b: int| start <= b < ws.len() ==> !(#[trigger] ws[b]).focused,
        },
{
    let mut i: usize = start;
    while i < ws.len()
        invariant
            start <= i <= ws.len(),
            forall|b: int| start <= b < i ==> !(#[trigger] ws[b]).focused,
        decreases ws.len() - i,
    {
        if ws[i].focused {
            return Some(i);
        }
        i += 1;
    }
    None
}

fn shares_visible_output(ws: &Vec<Workspace>) -> (found: bool)
    ensures
        found == !single_visible(views(ws@)),
{
    let ghost s = views(ws@);
    let n = ws.len();
    let mut i: usize = 0;
    while i < n
        invariant
            n == ws.len(),
            i <= n,
            s == views(ws@),
            forall|a: int, b: int|
                0 <= a < i && 0 <= b < i && a != b && (#[trigger] s[a]).visible && (#[trigger] s[b]).visible
                    ==> s[a].output != s[b].output,
        decreases n - i,
    {
        if ws[i].visible {
            let mut j: usize = 0;
            while j < i
                invariant
                    n == ws.len(),
                    j <= i < n,
                    s == views(ws@),
                    s[i as int].visible,
                    forall|b: int|
                        0 <= b < j && (#[trigger] s[b]).visible ==> s[b].output != s[i as int].output,
                decreases i - j,
            {
                if ws[j].visible && ws[j].output == ws[i].output {
                    assert(s[j as int].visible && s[i as int].visible);
                    assert(s[j as int].output == s[i as int].output);
                    return true;
                }
                j += 1;
            }
        }
        i += 1;
    }
    false
}

proof fn lemma_insert_contains(a: Seq<WorkspaceView>, p: int, w: WorkspaceView)
    requires
        0 <= p <= a.len(),
    ensures
        forall|x: WorkspaceView| a.insert(p, w).contains(x) <==> a.contains(x) || x == w,
{
    let grown = a.insert(p, w);
    assert forall|x: WorkspaceView| grown.contains(x) <==> a.contains(x) || x == w by {
        if grown.contains(x) {
            let i = choose|i: int| 0 <= i < grown.len() && grown[i] == x;
            if i < p {
                assert(a[i] == x);
            } else if i > p {
                assert(a[i - 1] == x);
            }
        }
        if a.contains(x) {
            let i = choose|i: int| 0 <= i < a.len() && a[i] == x;
            if i < p {
                assert(grown[i] == x);
            } else {
                assert(grown[i + 1] == x);
            }
        }
        if x == w {
            assert(grown[p] == x);
        }
    }
}

/// The workspaces of a consistent listing, put in ascending order of id, are
/// a consistent listing.
pub proof fn lemma_in_order_consistent(s: Seq<WorkspaceView>, t: Seq<WorkspaceView>)
    requires
        consistent(s),
        ascending(t),
        same_workspaces(t, s),
    ensures
        consistent(t),
        ids_fit(s) ==> ids_fit(t),
{
    let f = choose|i: int| 0 <= i < s.len() && (#[trigger] s[i]).focused;
    assert(s.contains(s[f]));
    let at = choose|i: int| 0 <= i < t.len() && t[i] == s[f];
    assert(t[at].focused);
    assert forall|i: int, j: int| 0 <= i < t.len() && 0 <= j < t.len() && i != j implies (#[trigger] t[i]).id
        != (#[trigger] t[j]).id by {
        if i < j {
            assert(t[i].id < t[j].id);
        } else {
            assert(t[j].id < t[i].id);
        }
    }
    assert forall|i: int, j: int|
        0 <= i < t.len() && 0 <= j < t.len() && (#[trigger] t[i]).focused && (#[trigger] t[j]).focused implies i
        == j by {
        assert(t.contains(t[i]) && t.contains(t[j]));
        let a = choose|a: int| 0 <= a < s.len() && s[a] == t[i];
        let b = choose|b: int| 0 <= b < s.len() && s[b] == t[j];
        assert(s[a].focused && s[b].focused);
        assert(a == b);
    }
    assert forall|i: int, j: int|
        0 <= i < t.len() && 0 <= j < t.len() && i != j && (#[trigger] t[i]).visible && (#[trigger] t[j]).visible implies t[i].output
        != t[j].output by {
        assert(t.contains(t[i]) && t.contains(t[j]));
        let a = choose|a: int| 0 <= a < s.len() && s[a] == t[i];
        let b = choose|b: int| 0 <= b < s.len() && s[b] == t[j];
        assert(t[i].id != t[j].id);
        assert(a != b);
        assert(s[a].visible && s[b].visible);
    }
    if ids_fit(s) {
        assert forall|i: int| 0 <= i < t.len() implies i32::MIN <= (#[trigger] t[i]).id <= i32::MAX by {
            assert(t.contains(t[i]));
            let a = choose|a: int| 0 <= a < s.len() && s[a] == t[i];
            assert(i32::MIN <= s[a].id <= i32::MAX);
        }
    }
}

fn in_ascending_order(workspaces: &Vec<Workspace>) -> (sorted: Vec<Workspace>)
    requires
        distinct_ids(views(workspaces@)),
    ensures
        sorted.len() == workspaces.len(),
        ascending(views(sorted@)),
        same_workspaces(views(sorted@), views(workspaces@)),
{
    let ghost s = views(workspaces@);
    let mut sorted: Vec<Workspace> = Vec::new();
    let mut i: usize = 0;
    while i < workspaces.len()
        invariant
            i <= workspaces.len(),
            s == views(workspaces@),
            distinct_ids(s),
            sorted.len() == i,
            ascending(views(sorted@)),
            same_workspaces(views(sorted@), s.take(i as int)),
        decreases workspaces.len() - i,
    {
        let w = workspaces[i].copy();
        let ghost before = views(sorted@);
        let ghost seen = s.take(i as int);
        assert forall|b: int| 0 <= b < sorted.len() implies (#[trigger] sorted[b]).id != w.id by {
            assert(before.contains(before[b]));
            let j = choose|j: int| 0 <= j < seen.len() && seen[j] == before[b];
            assert(s[j].id != s[i as int].id);
        }
        let p = insert_by_id(&mut sorted, w);
        proof {
            let now = views(sorted@);
            let more = s.take(i + 1);
            assert(now =~= before.insert(p as int, s[i as int]));
            assert(more =~= seen.insert(i as int, s[i as int]));
            lemma_insert_contains(before, p as int, s[i as int]);
            lemma_insert_contains(seen, i as int, s[i as int]);
            assert forall|x: WorkspaceView| now.contains(x) <==> more.contains(x) by {
                assert(before.contains(x) <==> seen.contains(x));
                assert(now.contains(x) <==> before.contains(x) || x == s[i as int]);
                assert(more.contains(x) <==> seen.contains(x) || x == s[i as int]);
            }
        }
        i += 1;
    }
    assert(s.take(i as int) =~= s);
    sorted
}

impl Snapshot {
    /// Whether the snapshot is consistent and its ids are those of workspace values.
    pub open spec fn wf(&self) -> bool {
        consistent(self@) && ids_fit(self@)
    }

    /// Takes a listing as a snapshot, its workspaces in ascending order of
    /// id, if it is consistent; else says what is wrong with it.
    pub fn new(workspaces: Vec<Workspace>) -> (r: Result<Snapshot, SnapshotError>)
        ensures
            match r {
                Ok(snapshot) => {
                    &&& flaw(views(workspaces@)) is None
                    &&& snapshot@ == in_order(views(workspaces@))
                    &&& ascending(snapshot@)
                    &&& same_workspaces(snapshot@, views(workspaces@))
                    &&& snapshot@.len() == workspaces.len()
                    &&& snapshot.wf()
                },
                Err(e) => flaw(views(workspaces@)) == Some(e),
            },
    {
        let ghost s = views(workspaces@);
        if shares_id(&workspaces) {
            return Err(SnapshotError::DuplicateId);
        }
        match first_focused(&workspaces, 0) {
            None => {
                assert forall|i: int| 0 <= i < s.len() implies !(#[trigger] s[i]).focused by {
                    assert(!workspaces[i].focused);
                }
                return Err(SnapshotError::NoFocus);
            },
            Some(first) => {
                assert(s[first as int].focused);
                if let Some(second) = first_focused(&workspaces, first + 1) {
                    assert(s[second as int].focused);
                    return Err(SnapshotError::SeveralFocused);
                }
                assert forall|i: int, j: int|
                    0 <= i < s.len() && 0 <= j < s.len() && (#[trigger] s[i]).focused && (#[trigger] s[j]).focused
                        implies i
                    == j by {
                    assert(workspaces[i].focused && workspaces[j].focused);
                }
            },
        }
        if shares_visible_output(&workspaces) {
            return Err(SnapshotError::SeveralVisible);
        }
        let sorted = in_ascending_order(&workspaces);
        proof {
            lemma_in_order_consistent(s, views(sorted@));
            lemma_in_order(views(sorted@), s);
        }
        Ok(Snapshot { workspaces: sorted })
    }

    /// The number of workspaces.
    pub fn len(&self) -> (n: usize)
        ensures
            n == self@.len(),
    {
        self.workspaces.len()
    }

    /// The workspace at position `i`.
    pub fn get(&self, i: usize) -> (w: &Workspace)
        requires
            i < self@.len(),
        ensures
            w@ == self@[i as int],
    {
        &self.workspaces[i]
    }

    /// The position of the focused workspace.
    pub fn focused_index(&self) -> (i: usize)
        requires
            self.wf(),
        ensures
            i == focus_index(self@),
            i < self@.len(),
            self@[i as int].focused,
    {
        let found = first_focused(&self.workspaces, 0);
        let ghost w = focus_index(self@);
        assert(self@[w].focused);
        assert(self.workspaces[w].focused);
        let i = found.unwrap();
        proof {
            lemma_focus_index(self@, i as int);
        }
        i
    }

    /// The focused workspace.
    pub fn focused(&self) -> (w: &Workspace)
        requires
            self.wf(),
        ensures
            w@ == focused_of(self@),
            w@.focused,
    {
        &self.workspaces[self.focused_index()]
    }

    /// The smallest id of the snapshot.
    pub fn min_id(&self) -> (m: i32)
        requires
            self.wf(),
        ensures
            m == ids(self@).min(),
    {
        let ghost all = ids(self@);
        let mut m = self.workspaces[0].id;
        let mut i: usize = 1;
        assert(all[0] == m);
        while i < self.workspaces.len()
            invariant
                1 <= i <= self.workspaces.len(),
                all == ids(self@),
                self@ == views(self.workspaces@),
                all.contains(m as int),
                forall|b: int| 0 <= b < i ==> m <= #[trigger] all[b],
            decreases self.workspaces.len() - i,
        {
            if self.workspaces[i].id < m {
                m = self.workspaces[i].id;
                assert(all[i as int] == m);
            }
            i += 1;
        }
        proof {
            all.min_ensures();
        }
        m
    }

    /// The greatest id of the snapshot.
    pub fn max_id(&self) -> (m: i32)
        requires
            self.wf(),
        ensures
            m == ids(self@).max(),
    {
        let ghost all = ids(self@);
        let mut m = self.workspaces[0].id;
        let mut i: usize = 1;
        assert(all[0] == m);
        while i < self.workspaces.len()
            invariant
                1 <= i <= self.workspaces.len(),
                all == ids(self@),
                self@ == views(self.workspaces@),
                all.contains(m as int),
                forall|b: int| 0 <= b < i ==> m >= #[trigger] all[b],
            decreases self.workspaces.len() - i,
        {
            if self.workspaces[i].id > m {
                m = self.workspaces[i].id;
                assert(all[i as int] == m);
            }
            i += 1;
        }
        proof {
            all.max_ensures();
        }
        m
    }

    /// The position of the first workspace that holds `id`, if one does.
    pub fn position(&self, id: i32) -> (r: Option<usize>)
        ensures
            match r {
                Some(i) => i < self@.len() && self@[i as int].id == id && forall|b: int|
                    0 <= b < i ==> (#[trigger] self@[b]).id != id,
                None => !ids(self@).contains(id as int),
            },
    {
        let ghost all = ids(self@);
        let mut i: usize = 0;
        while i < self.workspaces.len()
            invariant
                i <= self.workspaces.len(),
                all == ids(self@),
                self@ == views(self.workspaces@),
                forall|b: int| 0 <= b < i ==> #[trigger] all[b] != id,
            decreases self.workspaces.len() - i,
        {
            if self.workspaces[i].id == id {
                assert forall|b: int| 0 <= b < i implies (#[trigger] self@[b]).id != id by {
                    assert(all[b] != id);
                }
                return Some(i);
            }
            i += 1;
        }
        None
    }

    /// Renames the workspace `from` to `to`, as the window manager would:
    /// refused, and without effect, where `to` is taken.
    pub fn rename(&mut self, from: i32, to: i32) -> (accepted: bool)
        requires
            old(self).wf(),
        ensures
            final(self).wf(),
            final(self)@ == renamed(old(self)@, from as int, to as int),
            accepted == !collides(ids(old(self)@), from as int, to as int),
    {
        let ghost before = self@;
        proof {
            lemma_stepped(before, CommandView::Rename { from: from as int, to: to as int });
        }
        let taken = self.position(to);
        let held = self.position(from);
        match taken {
            Some(t) => {
                assert(ids(before)[t as int] == to);
                match held {
                    Some(h) => {
                        assert(ids(before)[h as int] == from);
                        from == to
                    },
                    None => true,
                }
            },
            None => {
                if let Some(h) = held {
                    assert(ids(before)[h as int] == from);
                    self.workspaces[h].id = to;
                    self.workspaces[h].name = decimal_string(to);
                    assert(self@ =~= renamed(before, from as int, to as int));
                } else {
                    assert(self@ =~= renamed(before, from as int, to as int)) by {
                        assert forall|i: int| 0 <= i < before.len() implies before[i].id != from by {
                            assert(ids(before)[i] == before[i].id);
                        }
                    }
                }
                true
            },
        }
    }

    /// Runs the commands on the snapshot, in order, as the window manager
    /// would; says whether none was refused for a duplicate id.
    pub fn apply(&mut self, cmds: &Vec<Command>) -> (accepted: bool)
        requires
            old(self).wf(),
        ensures
            final(self).wf(),
            final(self)@ == after(old(self)@, plan(cmds@)),
            accepted == collision_free(ids(old(self)@), plan(cmds@)),
    {
        let ghost before = self@;
        let ghost all = plan(cmds@);
        let mut accepted = true;
        let mut k: usize = 0;
        assert(all.take(0) =~= Seq::empty());
        while k < cmds.len()
            invariant
                k <= cmds.len(),
                all == plan(cmds@),
                self.wf(),
                self@ == after(before, all.take(k as int)),
                accepted == collision_free(ids(before), all.take(k as int)),
            decreases cmds.len() - k,
        {
            proof {
                assert(all.take(k + 1) =~= all.take(k as int).push(all[k as int]));
                assert(all.take(k + 1).drop_last() =~= all.take(k as int));
                lemma_after(before, all.take(k as int));
                lemma_collision_free_push(ids(before), all.take(k as int), all[k as int]);
            }
            match cmds[k] {
                Command::Rename { from, to } => {
                    let ok = self.rename(from, to);
                    accepted = accepted && ok;
                },
                _ => {},
            }
            k += 1;
        }
        assert(all.take(cmds.len() as int) =~= all);
        accepted
    }

    /// The ids of the workspaces, in the order of the snapshot.
    pub fn id_list(&self) -> (list: Vec<i32>)
        ensures
            ints(list@) == ids(self@),
    {
        let mut list: Vec<i32> = Vec::new();
        let mut i: usize = 0;
        while i < self.workspaces.len()
            invariant
                i <= self.workspaces.len(),
                list.len() == i,
                forall|b: int| 0 <= b < i ==> list[b] == self.workspaces[b].id,
            decreases self.workspaces.len() - i,
        {
            list.push(self.workspaces[i].id);
            i += 1;
        }
        assert(ints(list@) =~= ids(self@));
        list
    }

    /// A second snapshot that stands for the same listing.
    pub fn copy(&self) -> (twin: Snapshot)
        ensures
            twin@ == self@,
    {
        let mut workspaces: Vec<Workspace> = Vec::new();
        let mut i: usize = 0;
        while i < self.workspaces.len()
            invariant
                i <= self.workspaces.len(),
                workspaces.len() == i,
                forall|b: int| 0 <= b < i ==> (#[trigger] workspaces[b])@ == self.workspaces[b]@,
            decreases self.workspaces.len() - i,
        {
            workspaces.push(self.workspaces[i].copy());
            i += 1;
        }
        assert(views(workspaces@) =~= self@);
        Snapshot { workspaces }
    }
}

} // verus!
