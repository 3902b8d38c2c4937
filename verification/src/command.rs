//! The mutation records persisted in the log: one per `set` or `remove`.

use vstd::prelude::*;

verus! {

/// Mathematical form of a [`Command`]: the key and value as character
/// sequences.
pub enum CommandV {
    Put { key: Seq<char>, value: Seq<char> },
    Rm { key: Seq<char> },
}

impl CommandV {
    /// The key the command acts on.
    pub open spec fn key(self) -> Seq<char> {
        match self {
            CommandV::Put { key, .. } => key,
            CommandV::Rm { key } => key,
        }
    }
}

/// A single mutation, as it is appended to a log segment.
pub enum Command {
    /// Map `key` to `value`, superseding any earlier record for `key`.
    Put { key: String, value: String },
    /// Delete `key`.
    Rm { key: String },
}

impl View for Command {
    type V = CommandV;

    open spec fn view(&self) -> CommandV {
        match self {
            Command::Put { key, value } => CommandV::Put { key: key@, value: value@ },
            Command::Rm { key } => CommandV::Rm { key: key@ },
        }
    }
}

impl Command {
    /// Build a `Put` record (persisted with the wire tag `Set`).
    pub fn set(key: String, value: String) -> (c: Command)
        ensures
            c@ == (CommandV::Put { key: key@, value: value@ }),
    {
        Command::Put { key, value }
    }

    /// Build a `Remove` record.
    pub fn rm(key: String) -> (c: Command)
        ensures
            c@ == (CommandV::Rm { key: key@ }),
    {
        Command::Rm { key }
    }

    /// The key the command acts on, consuming the command.
    pub fn key(self) -> (k: String)
        ensures
            k@ == self@.key(),
    {
        match self {
            Command::Put { key, .. } => key,
            Command::Rm { key } => key,
        }
    }
}

} // verus!
