//! The errors of this library.

use vstd::prelude::*;
use vstd::string::StringExecFns;

verus! {

/// Every way an operation of this library can fail.
#[derive(Debug, Clone, PartialEq, Eq)]
pub enum KvsError {
    /// An I/O failure, with the system's message.
    IoError(String),
    /// `remove` of a key that the store does not hold.
    KeyNotFound,
    /// A record or message that could not be (de)serialised.
    SerDeError(String),
    /// A failure of the embedded store.
    SledError(String),
    /// Stored bytes that are not UTF-8.
    FromUtf8Error(String),
    /// A record or reply of another kind than the one asked for.
    WrongCommandError,
    /// Any other failure, with its message.
    OtherError(String),
}

/// The text that describes an error to a person.
pub open spec fn message_of(e: KvsError) -> Seq<char> {
    match e {
        KvsError::IoError(m) => "I/O Error: "@ + m@,
        KvsError::KeyNotFound => "Key not found"@,
        KvsError::SerDeError(m) => "(De)serialization error: "@ + m@,
        KvsError::SledError(m) => "Sled error: "@ + m@,
        KvsError::FromUtf8Error(m) => "From utf8 error: "@ + m@,
        KvsError::WrongCommandError => "Wrong command"@,
        KvsError::OtherError(m) => "Other error: "@ + m@,
    }
}

fn prefixed(prefix: &str, m: &String) -> (r: String)
    ensures
        r@ == prefix@ + m@,
{
    let mut s = String::from_str(prefix);
    s.append(m.as_str());
    s
}

impl KvsError {
    /// The message of this error, as it is shown to a client.
    pub fn message(&self) -> (r: String)
        ensures
            r@ == message_of(*self),
    {
        match self {
            KvsError::IoError(m) => prefixed("I/O Error: ", m),
            KvsError::KeyNotFound => String::from_str("Key not found"),
            KvsError::SerDeError(m) => prefixed("(De)serialization error: ", m),
            KvsError::SledError(m) => prefixed("Sled error: ", m),
            KvsError::FromUtf8Error(m) => prefixed("From utf8 error: ", m),
            KvsError::WrongCommandError => String::from_str("Wrong command"),
            KvsError::OtherError(m) => prefixed("Other error: ", m),
        }
    }
}

} // verus!
