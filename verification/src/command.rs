//! The commands that the window manager takes, and their text.

use vstd::prelude::*;
use vstd::string::*;
use crate::text::{append_decimal, decimal};

verus! {

/// One request to the window manager.
#[derive(Clone, Copy, Debug, PartialEq, Eq, Structural)]
pub enum Command {
    /// Switch the focus to the workspace `id`.
    Focus { id: i32 },
    /// Move the focused window into the workspace `id`; the focus stays.
    MoveContainer { id: i32 },
    /// Give the workspace `from` the id `to`.
    Rename { from: i32, to: i32 },
}

/// What a [`Command`] stands for in specifications.
pub enum CommandView {
    Focus { id: int },
    MoveContainer { id: int },
    Rename { from: int, to: int },
}

impl View for Command {
    type V = CommandView;

    open spec fn view(&self) -> CommandView {
        match *self {
            Command::Focus { id } => CommandView::Focus { id: id as int },
            Command::MoveContainer { id } => CommandView::MoveContainer { id: id as int },
            Command::Rename { from, to } => CommandView::Rename { from: from as int, to: to as int },
        }
    }
}

/// The views of a sequence of commands, in the same order.
pub open spec fn plan(cmds: Seq<Command>) -> Seq<CommandView> {
    Seq::new(cmds.len(), |i: int| cmds[i]@)
}

/// The text of a command. Ids are written in decimal; where the window
/// manager expects a name, the id stands between double quotes.
pub open spec fn command_text(c: CommandView) -> Seq<char> {
    match c {
        CommandView::Focus { id } => "workspace "@ + decimal(id),
        CommandView::MoveContainer { id } => "move container to workspace \""@ + decimal(id)
            + "\""@,
        CommandView::Rename { from, to } => "rename workspace \""@ + decimal(from) + "\" to \""@
            + decimal(to) + "\""@,
    }
}

impl Command {
    /// The text to send for this command.
    pub fn text(&self) -> (s: String)
        ensures
            s@ == command_text(self@),
    {
        match *self {
            Command::Focus { id } => {
                let mut s = String::from_str("workspace ");
                append_decimal(&mut s, id);
                s
            },
            Command::MoveContainer { id } => {
                let mut s = String::from_str("move container to workspace \"");
                append_decimal(&mut s, id);
                s.append("\"");
                s
            },
            Command::Rename { from, to } => {
                let mut s = String::from_str("rename workspace \"");
                append_decimal(&mut s, from);
                s.append("\" to \"");
                append_decimal(&mut s, to);
                s.append("\"");
                s
            },
        }
    }
}

} // verus!
