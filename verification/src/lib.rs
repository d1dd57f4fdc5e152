//! Planning of workspace navigation and renumbering for a window manager
//! whose workspaces are addressed by a unique integer id.
//!
//! The window manager offers three primitives only: list the workspaces,
//! focus one, rename one. Everything here is computed on a snapshot of the
//! listing and handed back as a sequence of commands to send; what the
//! commands do to the ids is tracked in the snapshot, and stated as laws.

pub mod command;
pub mod grouping;
pub mod helper;
pub mod intent;
pub mod laws;
pub mod resolver;
pub mod sequencer;
pub mod snapshot;
pub mod text;
pub mod tracking;
pub mod workspace;
