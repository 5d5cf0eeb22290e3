//! The storage engines a server can run, and which one it starts with.

use crate::error::KvsError;
use vstd::prelude::*;
use vstd::string::{StrSliceExecFns, StringExecFns};

verus! {

/// The storage engines a server can run.
#[derive(Debug, Clone, Copy, PartialEq, Eq, Structural)]
pub enum EngineKind {
    Kvs,
    Sled,
}

/// The engine a name stands for: `kvs` or `sled`.
pub open spec fn kind_named(s: Seq<char>) -> Option<EngineKind> {
    if s == "kvs"@ {
        Some(EngineKind::Kvs)
    } else if s == "sled"@ {
        Some(EngineKind::Sled)
    } else {
        None
    }
}

/// The name of an engine.
pub open spec fn name_of(k: EngineKind) -> Seq<char> {
    match k {
        EngineKind::Kvs => "kvs"@,
        EngineKind::Sled => "sled"@,
    }
}

/// Whether two strings hold the same characters.
fn same_text(a: &str, b: &str) -> (r: bool)
    ensures
        r == (a@ == b@),
{
    let n = a.unicode_len();
    if n != b.unicode_len() {
        return false;
    }
    let mut i: usize = 0;
    while i < n
        invariant
            n == a@.len(),
            n == b@.len(),
            i <= n,
            forall|j: int| 0 <= j < i ==> a@[j] == b@[j],
        decreases n - i,
    {
        if a.get_char(i) != b.get_char(i) {
            return false;
        }
        i = i + 1;
    }
    assert(a@ =~= b@);
    true
}

impl EngineKind {
    /// The engine that `s` names, if any.
    pub fn parse(s: &str) -> (r: Option<EngineKind>)
        ensures
            r == kind_named(s@),
    {
        if same_text(s, "kvs") {
            Some(EngineKind::Kvs)
        } else if same_text(s, "sled") {
            Some(EngineKind::Sled)
        } else {
            None
        }
    }

    /// The name of this engine, as the engine file records it.
    pub fn name(&self) -> (r: String)
        ensures
            r@ == name_of(*self),
    {
        match self {
            EngineKind::Kvs => String::from_str("kvs"),
            EngineKind::Sled => String::from_str("sled"),
        }
    }
}

/// The engine a server starts with, given the one asked for and what the
/// engine file of its directory holds, if there is one: the engine asked
/// for, unless the file names another engine. A file that names no engine
/// is ignored; an unknown engine asked for is refused.
pub fn choose_engine(requested: &str, persisted: Option<String>) -> (r: Result<EngineKind, KvsError>)
    ensures
        match kind_named(requested@) {
            None => r matches Err(KvsError::OtherError(_)),
            Some(k) => match persisted {
                Some(p) => match kind_named(p@) {
                    Some(q) => if q == k {
                        r == Ok::<EngineKind, KvsError>(k)
                    } else {
                        r matches Err(KvsError::OtherError(_))
                    },
                    None => r == Ok::<EngineKind, KvsError>(k),
                },
                None => r == Ok::<EngineKind, KvsError>(k),
            },
        },
{
    let k = match EngineKind::parse(requested) {
        Some(k) => k,
        None => {
            return Err(KvsError::OtherError(String::from_str("invalid engine")));
        },
    };
    match persisted {
        Some(p) => match EngineKind::parse(p.as_str()) {
            Some(q) => if q == k {
                Ok(k)
            } else {
                Err(KvsError::OtherError(String::from_str("Wrong engine")))
            },
            None => Ok(k),
        },
        None => Ok(k),
    }
}

} // verus!
