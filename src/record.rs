//! Log records and locators, and the mapping a log describes.

use crate::error::KvsError;
use vstd::prelude::*;

verus! {

/// One record of the log: a write of a value, or the removal of a key.
#[derive(Debug, Clone, PartialEq, Eq)]
pub enum Command {
    Put { key: String, value: String },
    Remove { key: String },
}

/// A record as a mathematical value.
pub enum Op {
    Write(Seq<char>, Seq<char>),
    Erase(Seq<char>),
}

impl Command {
    /// This record as a mathematical value.
    pub open spec fn op(&self) -> Op {
        match self {
            Command::Put { key, value } => Op::Write(key@, value@),
            Command::Remove { key } => Op::Erase(key@),
        }
    }
}

/// Where a record lies: its segment, its first byte and its length in bytes.
#[derive(Debug, Clone, Copy, PartialEq, Eq)]
pub struct CommandPos {
    pub log_id: u64,
    pub pos: u64,
    pub len: u64,
}

impl CommandPos {
    /// The locator as the index keeps it: (segment, offset, length).
    pub open spec fn triple(self) -> (u64, u64, u64) {
        (self.log_id, self.pos, self.len)
    }
}

/// The mapping after one more record: a write installs the value, a removal
/// drops the key.
pub open spec fn apply(d: Map<Seq<char>, Seq<char>>, op: Op) -> Map<Seq<char>, Seq<char>> {
    match op {
        Op::Write(k, v) => d.insert(k, v),
        Op::Erase(k) => d.remove(k),
    }
}

/// The mapping that a log describes: its records applied in order, from empty.
pub open spec fn replay(log: Seq<Op>) -> Map<Seq<char>, Seq<char>>
    decreases log.len(),
{
    if log.len() == 0 {
        Map::empty()
    } else {
        apply(replay(log.drop_last()), log.last())
    }
}


/// The value of the last record of `log` that concerns key `k`: `Some` of
/// the value of a write, `None` after a removal or when no record names `k`.
pub open spec fn last_value(log: Seq<Op>, k: Seq<char>) -> Option<Seq<char>>
    decreases log.len(),
{
    if log.len() == 0 {
        None
    } else {
        match log.last() {
            Op::Write(k2, v) => if k2 == k {
                Some(v)
            } else {
                last_value(log.drop_last(), k)
            },
            Op::Erase(k2) => if k2 == k {
                None
            } else {
                last_value(log.drop_last(), k)
            },
        }
    }
}

/// Reading a log back gives, for every key, the value of its last write,
/// and no value when its last record is a removal or no record names it.
pub proof fn lemma_replay_last_value(log: Seq<Op>, k: Seq<char>)
    ensures
        replay(log).contains_key(k) <==> last_value(log, k) is Some,
        replay(log).contains_key(k) ==> last_value(log, k) == Some(replay(log)[k]),
    decreases log.len(),
{
    if log.len() > 0 {
        lemma_replay_last_value(log.drop_last(), k);
    }
}

impl Command {
    /// The value a record holds for a read: that of a write; a removal
    /// record is not what a locator may point at.
    pub fn into_value(self) -> (r: Result<String, KvsError>)
        ensures
            match self {
                Command::Put { key: _, value } => r == Ok::<String, KvsError>(value),
                Command::Remove { .. } => r == Err::<String, KvsError>(
                    KvsError::WrongCommandError,
                ),
            },
    {
        match self {
            Command::Put { key: _, value } => Ok(value),
            Command::Remove { .. } => Err(KvsError::WrongCommandError),
        }
    }
}

} // verus!
