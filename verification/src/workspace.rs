//! A workspace as the window manager lists it.

use vstd::prelude::*;

verus! {

/// One workspace of a listing.
#[derive(Debug, PartialEq, Eq)]
pub struct Workspace {
    /// The number that addresses the workspace.
    pub id: i32,
    /// The name it is displayed under.
    pub name: String,
    /// The monitor it is on.
    pub output: String,
    /// Whether it is the workspace shown on its monitor.
    pub visible: bool,
    /// Whether it holds the focus.
    pub focused: bool,
}

/// What a [`Workspace`] stands for in specifications.
pub struct WorkspaceView {
    pub id: int,
    pub name: Seq<char>,
    pub output: Seq<char>,
    pub visible: bool,
    pub focused: bool,
}

impl View for Workspace {
    type V = WorkspaceView;

    open spec fn view(&self) -> WorkspaceView {
        WorkspaceView {
            id: self.id as int,
            name: self.name@,
            output: self.output@,
            visible: self.visible,
            focused: self.focused,
        }
    }
}

impl Workspace {
    /// A second workspace value that stands for the same workspace.
    pub fn copy(&self) -> (w: Workspace)
        ensures
            w@ == self@,
    {
        Workspace {
            id: self.id,
            name: self.name.clone(),
            output: self.output.clone(),
            visible: self.visible,
            focused: self.focused,
        }
    }
}

/// The views of a sequence of workspaces, in the same order.
pub open spec fn views(ws: Seq<Workspace>) -> Seq<WorkspaceView> {
    Seq::new(ws.len(), |i: int| ws[i]@)
}

/// The ids of a sequence of workspaces, in the same order.
pub open spec fn ids(s: Seq<WorkspaceView>) -> Seq<int> {
    Seq::new(s.len(), |i: int| s[i].id)
}

/// The ids rise strictly along the sequence.
pub open spec fn ascending(members: Seq<WorkspaceView>) -> bool {
    forall|i: int, j: int| 0 <= i < j < members.len() ==> (#[trigger] members[i]).id < (#[trigger] members[j]).id
}

/// Whether two sequences hold the same workspaces, in whatever order.
pub open spec fn same_workspaces(a: Seq<WorkspaceView>, b: Seq<WorkspaceView>) -> bool {
    forall|x: WorkspaceView| a.contains(x) <==> b.contains(x)
}

/// The workspaces of a listing in ascending order of id.
pub open spec fn in_order(s: Seq<WorkspaceView>) -> Seq<WorkspaceView> {
    choose|t: Seq<WorkspaceView>| ascending(t) && same_workspaces(t, s)
}

/// Two ascending sequences of the same workspaces are one sequence.
pub proof fn lemma_ascending_unique(a: Seq<WorkspaceView>, b: Seq<WorkspaceView>)
    requires
        ascending(a),
        ascending(b),
        same_workspaces(a, b),
    ensures
        a == b,
    decreases a.len(),
{
    if a.len() == 0 {
        if b.len() > 0 {
            assert(b.contains(b[0]));
        }
        assert(a =~= b);
    } else {
        assert(a.contains(a.last()));
        assert(b.contains(a.last()));
        let j = choose|j: int| 0 <= j < b.len() && b[j] == a.last();
        assert(b.contains(b.last()));
        let i = choose|i: int| 0 <= i < a.len() && a[i] == b.last();
        if i < a.len() - 1 {
            assert(a[i].id < a[a.len() - 1].id);
        }
        if j < b.len() - 1 {
            assert(b[j].id < b[b.len() - 1].id);
        }
        assert(a.last() == b.last());
        let a0 = a.drop_last();
        let b0 = b.drop_last();
        assert forall|x: WorkspaceView| a0.contains(x) <==> b0.contains(x) by {
            if a0.contains(x) {
                let p = choose|p: int| 0 <= p < a0.len() && a0[p] == x;
                assert(a[p] == x);
                assert(a[p].id < a[a.len() - 1].id);
                assert(b.contains(x));
                let q = choose|q: int| 0 <= q < b.len() && b[q] == x;
                assert(b0[q] == x);
            }
            if b0.contains(x) {
                let q = choose|q: int| 0 <= q < b0.len() && b0[q] == x;
                assert(b[q] == x);
                assert(b[q].id < b[b.len() - 1].id);
                assert(a.contains(x));
                let p = choose|p: int| 0 <= p < a.len() && a[p] == x;
                assert(a0[p] == x);
            }
        }
        lemma_ascending_unique(a0, b0);
        assert(a =~= a0.push(a.last()));
        assert(b =~= b0.push(b.last()));
    }
}

/// What is in ascending order and holds the workspaces of a listing is the
/// listing in order.
pub proof fn lemma_in_order(t: Seq<WorkspaceView>, s: Seq<WorkspaceView>)
    requires
        ascending(t),
        same_workspaces(t, s),
    ensures
        t == in_order(s),
{
    let u = in_order(s);
    assert(ascending(u) && same_workspaces(u, s));
    lemma_ascending_unique(t, u);
}

/// Puts `w` among the members where its id belongs.
pub(crate) fn insert_by_id(members: &mut Vec<Workspace>, w: Workspace) -> (p: usize)
    requires
        ascending(views(old(members)@)),
        forall|b: int| 0 <= b < old(members).len() ==> (#[trigger] old(members)[b]).id != w.id,
    ensures
        p <= old(members).len(),
        final(members)@ == old(members)@.insert(p as int, w),
        ascending(views(final(members)@)),
{
    let ghost before = views(members@);
    let mut p: usize = 0;
    while p < members.len() && members[p].id < w.id
        invariant
            p <= members.len(),
            members@ == old(members)@,
            forall|b: int| 0 <= b < p ==> (#[trigger] members[b]).id < w.id,
        decreases members.len() - p,
    {
        p += 1;
    }
    let ghost wv = w@;
    members.insert(p, w);
    proof {
        let after = views(members@);
        assert forall|i: int, j: int| 0 <= i < j < after.len()
            implies (#[trigger] after[i]).id < (#[trigger] after[j]).id by {
            let oi = if i < p { i } else { i - 1 };
            let oj = if j < p { j } else { j - 1 };
            if i != p && j != p {
                assert(before[oi].id < before[oj].id);
            } else if i == p {
                assert(before[oj].id != wv.id);
                assert(before[p as int].id >= wv.id);
                if oj > p {
                    assert(before[p as int].id < before[oj].id);
                }
            } else {
                assert(before[oi].id < wv.id);
            }
        }
    }
    p
}

} // verus!
