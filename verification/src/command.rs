use vstd::prelude::*;

verus! {

/// A record of the companion append-only key-value log: either a key put to
/// a value, or a key removed.
#[derive(Clone, Debug, PartialEq, Eq)]
pub enum Command {
    Put { key: String, value: String },
    Remove { key: String },
}

impl Command {
    /// The record that sets `key` to `value`.
    pub fn set(key: String, value: String) -> (c: Command)
        ensures
            c == (Command::Put { key, value }),
    {
        Command::Put { key, value }
    }

    /// The record that removes `key`.
    pub fn remove(key: String) -> (c: Command)
        ensures
            c == (Command::Remove { key }),
    {
        Command::Remove { key }
    }
}

} // verus!
