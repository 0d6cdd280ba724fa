use vstd::prelude::*;

verus! {

/// A record of the log: one operation on the store.
#[derive(Debug, Clone, PartialEq, Eq)]
pub enum Command {
    /// Get the string value of a given string key
    Get { key: String },
    /// Set the value of a string key to a string
    SetValue { key: String, value: String },
    /// Remove a given key
    Rm { key: String },
}

/// The mathematical value of a [`Command`]: its strings as sequences of characters.
pub enum CommandView {
    Get { key: Seq<char> },
    SetValue { key: Seq<char>, value: Seq<char> },
    Rm { key: Seq<char> },
}

impl View for Command {
    type V = CommandView;

    open spec fn view(&self) -> CommandView {
        match self {
            Command::Get { key } => CommandView::Get { key: key@ },
            Command::SetValue { key, value } => CommandView::SetValue { key: key@, value: value@ },
            Command::Rm { key } => CommandView::Rm { key: key@ },
        }
    }
}

impl Command {
    /// The `Set` record for `key` and `value`.
    pub fn set(key: String, value: String) -> (cmd: Self)
        ensures
            cmd == (Command::SetValue { key, value }),
    {
        Command::SetValue { key, value }
    }

    /// The `Rm` record for `key`.
    pub fn rm(key: String) -> (cmd: Self)
        ensures
            cmd == (Command::Rm { key }),
    {
        Command::Rm { key }
    }
}

/// Where a record lies in the log: its first byte and its length in bytes.
#[derive(Clone, Copy, Debug, PartialEq, Eq, Structural)]
pub struct CommandPos {
    pub offset: u64,
    pub size: u64,
}

} // verus!
