//! What a caller may ask for: where to go, and what to take along.

use vstd::prelude::*;

verus! {

/// The switches of one invocation.
#[derive(Clone, Copy, Debug, PartialEq, Eq, Structural)]
pub struct Options {
    /// Go to the other monitor rather than to another workspace.
    pub monitor: bool,
    /// Take the focused window along.
    pub window: bool,
    /// Move the focused workspace itself.
    pub workspace: bool,
    /// Go behind the last workspace.
    pub end: bool,
    /// Renumber all workspaces from 0, monitor by monitor.
    pub collapse: bool,
    /// Go before the first workspace.
    pub start: bool,
    /// Go to the next workspace of the monitor.
    pub next: bool,
    /// Go to the previous workspace of the monitor.
    pub previous: bool,
}

impl Default for Options {
    /// No switch is set.
    fn default() -> (o: Options)
        ensures
            !o.monitor && !o.window && !o.workspace && !o.end && !o.collapse && !o.start && !o.next && !o.previous,
    {
        Options {
            monitor: false,
            window: false,
            workspace: false,
            end: false,
            collapse: false,
            start: false,
            next: false,
            previous: false,
        }
    }
}

/// Where to go.
#[derive(Clone, Copy, Debug, PartialEq, Eq, Structural)]
pub enum Intent {
    /// To the next workspace of the monitor, to the first from the last.
    Next,
    /// To the previous workspace of the monitor, to the last from the first.
    Previous,
    /// Before the first workspace of all.
    JumpToStart,
    /// Behind the last workspace of all.
    JumpToEnd,
    /// To the visible workspace of another monitor.
    NearestOtherMonitor,
    /// No destination: the workspaces are renumbered, if anything.
    Collapse,
}

/// What to do at the destination.
#[derive(Clone, Copy, Debug, PartialEq, Eq, Structural)]
pub enum Action {
    /// Switch the focus.
    FocusOnly,
    /// Move the focused window there, and follow it.
    MoveFocusedWindow,
    /// Exchange the focused workspace with the one there.
    MoveWorkspace,
    /// Move the focused workspace to another monitor: not offered.
    MoveWorkspaceAcrossMonitor,
}

/// Why a set of switches asks for nothing that can be done.
#[derive(Clone, Copy, Debug, PartialEq, Eq, Structural)]
pub enum InvalidIntentError {
    /// More than one of `next`, `previous`, `start`, `end` is set.
    ConflictingDirections,
    /// None of `next`, `previous`, `start`, `end`, `monitor`, `collapse` is set.
    NothingSelected,
}

impl InvalidIntentError {
    /// A sentence for the user.
    pub fn message(&self) -> (s: &'static str)
        ensures
            s@ == match *self {
                InvalidIntentError::ConflictingDirections => "Can't combine 'next', 'previous', 'start', or 'end' in the same command"@,
                InvalidIntentError::NothingSelected => "Must select either 'next', 'previous', 'start', or 'end'"@,
            },
    {
        match *self {
            InvalidIntentError::ConflictingDirections => "Can't combine 'next', 'previous', 'start', or 'end' in the same command",
            InvalidIntentError::NothingSelected => "Must select either 'next', 'previous', 'start', or 'end'",
        }
    }
}

impl Options {
    /// How many of `next`, `previous`, `start`, `end` are set.
    pub open spec fn directions(&self) -> int {
        (if self.next { 1int } else { 0 }) + (if self.previous { 1int } else { 0 })
            + (if self.end { 1int } else { 0 })
            + (if self.start { 1int } else { 0 })
    }

    /// What is wrong with the switches, if anything is: more than one
    /// direction, or nothing asked for.
    pub open spec fn flaw(&self) -> Option<InvalidIntentError> {
        if self.directions() > 1 {
            Some(InvalidIntentError::ConflictingDirections)
        } else if self.directions() == 0 && !self.monitor && !self.collapse {
            Some(InvalidIntentError::NothingSelected)
        } else {
            None
        }
    }

    /// At most one direction is set, and something is asked for.
    pub open spec fn valid(&self) -> bool {
        self.flaw() is None
    }

    /// Checks the switches against each other.
    pub fn validate(&self) -> (r: Result<(), InvalidIntentError>)
        ensures
            match r {
                Ok(_) => self.flaw() is None,
                Err(e) => self.flaw() == Some(e),
            },
    {
        let mut count: u8 = 0;
        if self.next {
            count += 1;
        }
        if self.previous {
            count += 1;
        }
        if self.end {
            count += 1;
        }
        if self.start {
            count += 1;
        }
        if count > 1 {
            Err(InvalidIntentError::ConflictingDirections)
        } else if count == 0 && !self.monitor && !self.collapse {
            Err(InvalidIntentError::NothingSelected)
        } else {
            Ok(())
        }
    }

    /// Where the switches point: `end` before `start` before `monitor` before
    /// `next` before `previous`, and `Collapse` where none of them is set.
    pub open spec fn intent_of(&self) -> Intent {
        if self.end {
            Intent::JumpToEnd
        } else if self.start {
            Intent::JumpToStart
        } else if self.monitor {
            Intent::NearestOtherMonitor
        } else if self.next {
            Intent::Next
        } else if self.previous {
            Intent::Previous
        } else {
            Intent::Collapse
        }
    }

    /// Where the switches point.
    pub fn intent(&self) -> (i: Intent)
        ensures
            i == self.intent_of(),
    {
        if self.end {
            Intent::JumpToEnd
        } else if self.start {
            Intent::JumpToStart
        } else if self.monitor {
            Intent::NearestOtherMonitor
        } else if self.next {
            Intent::Next
        } else if self.previous {
            Intent::Previous
        } else {
            Intent::Collapse
        }
    }

    /// What the switches ask to do at the destination: `window` before
    /// `workspace`; a workspace is not moved across monitors.
    pub open spec fn action_of(&self) -> Action {
        if self.window {
            Action::MoveFocusedWindow
        } else if self.workspace {
            if self.monitor {
                Action::MoveWorkspaceAcrossMonitor
            } else {
                Action::MoveWorkspace
            }
        } else {
            Action::FocusOnly
        }
    }

    /// What the switches ask to do at the destination.
    pub fn action(&self) -> (a: Action)
        ensures
            a == self.action_of(),
    {
        if self.window {
            Action::MoveFocusedWindow
        } else if self.workspace {
            if self.monitor {
                Action::MoveWorkspaceAcrossMonitor
            } else {
                Action::MoveWorkspace
            }
        } else {
            Action::FocusOnly
        }
    }
}

} // verus!
