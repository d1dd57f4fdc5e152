//! One invocation: from the switches and a listing to the commands to send.
//!
//! The helper keeps its own copy of the listing and renames in it what its
//! commands rename, so that what it plans next starts from the state that
//! its earlier commands leave.

use vstd::prelude::*;
use crate::command::{plan, Command, CommandView};
use crate::grouping::{group, grouping_of, is_grouping_of, lemma_grouping_of, visit, Grouping};
use crate::intent::{Action, Intent, InvalidIntentError, Options};
use crate::resolver::{resolve, target, target_fits};
use crate::sequencer::{
    can_collapse, can_make_room, can_swap, collapse_fits, collapse_plan, collapse_steps_of, room_fits, room_plan,
    room_steps, scratch_id, swap_fits, swap_plan, swap_steps,
};
use crate::snapshot::{
    after, consistent, flaw, focused_of, ids_fit, lemma_after_concat, Snapshot, SnapshotError,
};
use crate::workspace::{ids, in_order, views, Workspace, WorkspaceView};

verus! {

/// Why no helper could be made.
#[derive(Clone, Copy, Debug, PartialEq, Eq, Structural)]
pub enum HelperError {
    /// The switches contradict each other or ask for nothing.
    Intent(InvalidIntentError),
    /// The listing is not consistent.
    Listing(SnapshotError),
}

/// Why nothing was planned.
#[derive(Clone, Copy, Debug, PartialEq, Eq, Structural)]
pub enum RunError {
    /// To move a whole workspace to another monitor is not offered.
    UnsupportedOperation,
    /// An id that the plan needs is not one that a workspace value can hold.
    IdOutOfRange,
}

/// What one run planned.
#[derive(Debug)]
pub struct Run {
    /// The commands to send, in order.
    pub commands: Vec<Command>,
    /// Whether the commands only make room for the id 0. After them the
    /// listing is to be taken anew, and the invocation resumed.
    pub shifted: bool,
}

/// What a [`Helper`] stands for in specifications.
pub struct HelperView {
    pub options: Options,
    pub listing: Seq<WorkspaceView>,
}

/// The switches of an invocation, with the workspaces as they are held to be.
#[derive(Debug)]
pub struct Helper {
    options: Options,
    snapshot: Snapshot,
    grouping: Grouping,
}

impl View for Helper {
    type V = HelperView;

    closed spec fn view(&self) -> HelperView {
        HelperView { options: self.options, listing: self.snapshot@ }
    }
}

/// The commands that carry out `action` between the focused workspace
/// `source` and the destination `target`.
pub open spec fn action_plan(action: Action, source: int, target: int, scratch: int) -> Seq<CommandView> {
    match action {
        Action::FocusOnly => seq![CommandView::Focus { id: target }],
        Action::MoveFocusedWindow => seq![
            CommandView::MoveContainer { id: target },
            CommandView::Focus { id: target },
        ],
        Action::MoveWorkspace => swap_plan(source, target, scratch),
        Action::MoveWorkspaceAcrossMonitor => Seq::empty(),
    }
}

/// The ids of a listing in visiting order: monitor after monitor, each in
/// ascending order.
pub open spec fn visiting_ids(s: Seq<WorkspaceView>) -> Seq<int> {
    ids(visit(grouping_of(s)))
}

/// The renames of the collapse, where one is asked for.
pub open spec fn collapse_part(o: Options, s: Seq<WorkspaceView>) -> Seq<CommandView> {
    if o.collapse {
        collapse_plan(visiting_ids(s))
    } else {
        Seq::empty()
    }
}

/// Why the collapse cannot be planned, if it cannot.
pub open spec fn collapse_error(o: Options, s: Seq<WorkspaceView>) -> Option<RunError> {
    if o.collapse && !collapse_fits(visiting_ids(s)) {
        Some(RunError::IdOutOfRange)
    } else {
        None
    }
}

/// The commands of the action at the destination `x`.
pub open spec fn arrival_first(o: Options, s: Seq<WorkspaceView>, x: int) -> Seq<CommandView> {
    action_plan(o.action_of(), focused_of(s).id, x, scratch_id(ids(s)))
}

/// The commands on arriving at the destination `x`: those of the action,
/// then those of the collapse from the state that the action leaves.
pub open spec fn arrival_plan(o: Options, s: Seq<WorkspaceView>, x: int) -> Seq<CommandView> {
    arrival_first(o, s, x) + collapse_part(o, after(s, arrival_first(o, s, x)))
}

/// Why nothing can be planned on arriving at `x`, if nothing can.
pub open spec fn arrival_error(o: Options, s: Seq<WorkspaceView>, x: int) -> Option<RunError> {
    if o.action_of() == Action::MoveWorkspaceAcrossMonitor {
        Some(RunError::UnsupportedOperation)
    } else if o.action_of() == Action::MoveWorkspace && !swap_fits(ids(s)) {
        Some(RunError::IdOutOfRange)
    } else {
        collapse_error(o, after(s, arrival_first(o, s, x)))
    }
}

/// The id to go to, if there is one.
pub open spec fn destination(o: Options, s: Seq<WorkspaceView>) -> Option<int> {
    target(o.intent_of(), s, grouping_of(s))
}

/// Whether the run only makes room for the id 0: the destination is negative.
pub open spec fn shifts(o: Options, s: Seq<WorkspaceView>) -> bool {
    destination(o, s) is Some && destination(o, s)->0 < 0
}

/// The commands of a run.
///
/// - No destination: the collapse, where one is asked for.
/// - A negative destination: the renames that make room for the id 0.
/// - Any other destination: the action there, then the collapse.
pub open spec fn run_plan(o: Options, s: Seq<WorkspaceView>) -> Seq<CommandView> {
    match destination(o, s) {
        None => collapse_part(o, s),
        Some(x) => if x < 0 {
            room_plan(grouping_of(s))
        } else {
            arrival_plan(o, s, x)
        },
    }
}

/// Why a run plans nothing, if it plans nothing.
pub open spec fn run_error(o: Options, s: Seq<WorkspaceView>) -> Option<RunError> {
    if !target_fits(o.intent_of(), s) {
        Some(RunError::IdOutOfRange)
    } else {
        match destination(o, s) {
            None => collapse_error(o, s),
            Some(x) => if x < 0 {
                if room_fits(grouping_of(s)) {
                    None
                } else {
                    Some(RunError::IdOutOfRange)
                }
            } else {
                arrival_error(o, s, x)
            },
        }
    }
}

impl Helper {
    /// Whether the stored grouping is that of the stored listing.
    pub closed spec fn grouped(&self) -> bool {
        is_grouping_of(self.grouping@, self.snapshot@)
    }

    /// Whether the switches are valid and the listing is consistent.
    pub open spec fn wf(&self) -> bool {
        &&& self@.options.valid()
        &&& consistent(self@.listing)
        &&& ids_fit(self@.listing)
        &&& self.grouped()
    }

    /// Checks the switches, then the listing, puts the workspaces in
    /// ascending order of id and groups them.
    pub fn new(options: Options, workspaces: Vec<Workspace>) -> (r: Result<Helper, HelperError>)
        ensures
            match r {
                Ok(helper) => {
                    &&& options.flaw() is None
                    &&& flaw(views(workspaces@)) is None
                    &&& helper@ == (HelperView { options, listing: in_order(views(workspaces@)) })
                    &&& helper.wf()
                },
                Err(HelperError::Intent(e)) => options.flaw() == Some(e),
                Err(HelperError::Listing(e)) => options.flaw() is None && flaw(views(workspaces@)) == Some(e),
            },
    {
        match options.validate() {
            Err(e) => Err(HelperError::Intent(e)),
            Ok(_) => match Snapshot::new(workspaces) {
                Err(e) => Err(HelperError::Listing(e)),
                Ok(snapshot) => {
                    let grouping = group(&snapshot);
                    Ok(Helper { options, snapshot, grouping })
                },
            },
        }
    }

    /// The switches.
    pub fn options(&self) -> (o: Options)
        ensures
            o == self@.options,
    {
        self.options
    }

    /// The workspaces as they are held to be.
    pub fn snapshot(&self) -> (s: &Snapshot)
        ensures
            s@ == self@.listing,
    {
        &self.snapshot
    }

    /// The workspaces by monitor.
    pub fn grouping(&self) -> (g: &Grouping)
        requires
            self.wf(),
        ensures
            g@ == grouping_of(self@.listing),
            is_grouping_of(g@, self@.listing),
    {
        proof {
            lemma_grouping_of(self.grouping@, self.snapshot@);
        }
        &self.grouping
    }

    /// The focused workspace.
    pub fn get_current_workspace(&self) -> (w: &Workspace)
        requires
            self.wf(),
        ensures
            w@ == focused_of(self@.listing),
    {
        self.snapshot.focused()
    }

    /// Whether the id to go to is one that a workspace value can hold.
    fn destination_fits(&self) -> (fits: bool)
        requires
            self.wf(),
        ensures
            fits == target_fits(self@.options.intent_of(), self@.listing),
    {
        match self.options.intent() {
            Intent::JumpToEnd => self.snapshot.max_id() < i32::MAX,
            Intent::JumpToStart => {
                let least = self.snapshot.min_id();
                self.snapshot.focused().id == least || least > i32::MIN
            },
            _ => true,
        }
    }

    /// The id to go to, or `None` where there is nothing to do.
    pub fn get_target_workspace_id(&self) -> (r: Result<Option<i32>, RunError>)
        requires
            self.wf(),
        ensures
            match r {
                Ok(Some(id)) => target_fits(self@.options.intent_of(), self@.listing) && destination(
                    self@.options,
                    self@.listing,
                ) == Some(id as int),
                Ok(None) => target_fits(self@.options.intent_of(), self@.listing) && destination(
                    self@.options,
                    self@.listing,
                ) is None,
                Err(e) => e == RunError::IdOutOfRange && !target_fits(self@.options.intent_of(), self@.listing),
            },
    {
        if !self.destination_fits() {
            return Err(RunError::IdOutOfRange);
        }
        proof {
            lemma_grouping_of(self.grouping@, self.snapshot@);
        }
        Ok(resolve(self.options.intent(), &self.snapshot, &self.grouping))
    }

    /// Tracks `first` in a copy of the listing, plans the collapse from
    /// there where one is asked for, and keeps the copy if all went well.
    fn conclude(&mut self, first: Vec<Command>) -> (r: Result<Vec<Command>, RunError>)
        requires
            old(self).wf(),
        ensures
            final(self).wf(),
            final(self)@.options == old(self)@.options,
            match r {
                Ok(cmds) => {
                    &&& collapse_error(old(self)@.options, after(old(self)@.listing, plan(first@))) is None
                    &&& plan(cmds@) == plan(first@) + collapse_part(
                        old(self)@.options,
                        after(old(self)@.listing, plan(first@)),
                    )
                    &&& final(self)@.listing == after(old(self)@.listing, plan(cmds@))
                },
                Err(e) => {
                    &&& collapse_error(old(self)@.options, after(old(self)@.listing, plan(first@))) == Some(e)
                    &&& final(self)@ == old(self)@
                },
            },
    {
        let ghost s = self.snapshot@;
        let ghost head = plan(first@);
        let mut snapshot = self.snapshot.copy();
        snapshot.apply(&first);
        let mut grouping = group(&snapshot);
        let mut cmds = first;
        if self.options.collapse {
            let order = grouping.id_list();
            if !can_collapse(&order) {
                return Err(RunError::IdOutOfRange);
            }
            let mut more = collapse_steps_of(&order);
            let ghost tail = plan(more@);
            snapshot.apply(&more);
            grouping = group(&snapshot);
            cmds.append(&mut more);
            proof {
                assert(plan(cmds@) =~= head + tail);
                lemma_after_concat(s, head, tail);
            }
        } else {
            assert(plan(cmds@) =~= head + Seq::<CommandView>::empty());
        }
        self.snapshot = snapshot;
        self.grouping = grouping;
        Ok(cmds)
    }

    /// Plans the action at the destination `x`, then the collapse.
    fn arrive(&mut self, x: i32) -> (r: Result<Vec<Command>, RunError>)
        requires
            old(self).wf(),
        ensures
            final(self).wf(),
            final(self)@.options == old(self)@.options,
            match r {
                Ok(cmds) => {
                    &&& arrival_error(old(self)@.options, old(self)@.listing, x as int) is None
                    &&& plan(cmds@) == arrival_plan(old(self)@.options, old(self)@.listing, x as int)
                    &&& final(self)@.listing == after(old(self)@.listing, plan(cmds@))
                },
                Err(e) => {
                    &&& arrival_error(old(self)@.options, old(self)@.listing, x as int) == Some(e)
                    &&& final(self)@ == old(self)@
                },
            },
    {
        let ghost s = self.snapshot@;
        let source = self.snapshot.focused().id;
        let mut first: Vec<Command> = Vec::new();
        match self.options.action() {
            Action::MoveWorkspaceAcrossMonitor => {
                return Err(RunError::UnsupportedOperation);
            },
            Action::MoveFocusedWindow => {
                first.push(Command::MoveContainer { id: x });
                first.push(Command::Focus { id: x });
            },
            Action::FocusOnly => {
                first.push(Command::Focus { id: x });
            },
            Action::MoveWorkspace => {
                let list = self.snapshot.id_list();
                if !can_swap(&list) {
                    return Err(RunError::IdOutOfRange);
                }
                first = swap_steps(&list, source, x);
            },
        }
        assert(plan(first@) =~= arrival_first(self@.options, s, x as int));
        self.conclude(first)
    }

    /// Plans one run and renames in the helper's listing what the plan renames.
    ///
    /// Where the destination is negative, the plan only makes room for the id
    /// 0 and the result says so; the caller sends it, takes the listing anew
    /// and resumes. Else the plan is the action at the destination, if there
    /// is one, and the collapse, if one is asked for.
    pub fn run(&mut self) -> (r: Result<Run, RunError>)
        requires
            old(self).wf(),
        ensures
            final(self).wf(),
            final(self)@.options == old(self)@.options,
            match r {
                Ok(run) => {
                    &&& run_error(old(self)@.options, old(self)@.listing) is None
                    &&& plan(run.commands@) == run_plan(old(self)@.options, old(self)@.listing)
                    &&& run.shifted == shifts(old(self)@.options, old(self)@.listing)
                    &&& final(self)@.listing == after(old(self)@.listing, plan(run.commands@))
                },
                Err(e) => {
                    &&& run_error(old(self)@.options, old(self)@.listing) == Some(e)
                    &&& final(self)@ == old(self)@
                },
            },
    {
        let ghost s = self.snapshot@;
        proof {
            lemma_grouping_of(self.grouping@, self.snapshot@);
        }
        match self.get_target_workspace_id() {
            Err(e) => Err(e),
            Ok(None) => {
                let first: Vec<Command> = Vec::new();
                assert(plan(first@) =~= Seq::<CommandView>::empty());
                match self.conclude(first) {
                    Ok(commands) => {
                        assert(plan(commands@) =~= collapse_part(self@.options, s));
                        Ok(Run { commands, shifted: false })
                    },
                    Err(e) => Err(e),
                }
            },
            Ok(Some(x)) => {
                if x < 0 {
                    if !can_make_room(&self.grouping) {
                        return Err(RunError::IdOutOfRange);
                    }
                    let commands = room_steps(&self.grouping);
                    self.snapshot.apply(&commands);
                    self.grouping = group(&self.snapshot);
                    Ok(Run { commands, shifted: true })
                } else {
                    match self.arrive(x) {
                        Ok(commands) => Ok(Run { commands, shifted: false }),
                        Err(e) => Err(e),
                    }
                }
            },
        }
    }

    /// Plans what is left after room was made for the id 0: the action at
    /// the destination 0, from the focused workspace as the listing now has
    /// it, then the collapse, if one is asked for.
    pub fn resume(&mut self) -> (r: Result<Vec<Command>, RunError>)
        requires
            old(self).wf(),
        ensures
            final(self).wf(),
            final(self)@.options == old(self)@.options,
            match r {
                Ok(cmds) => {
                    &&& arrival_error(old(self)@.options, old(self)@.listing, 0) is None
                    &&& plan(cmds@) == arrival_plan(old(self)@.options, old(self)@.listing, 0)
                    &&& final(self)@.listing == after(old(self)@.listing, plan(cmds@))
                },
                Err(e) => {
                    &&& arrival_error(old(self)@.options, old(self)@.listing, 0) == Some(e)
                    &&& final(self)@ == old(self)@
                },
            },
    {
        self.arrive(0)
    }
}

} // verus!
