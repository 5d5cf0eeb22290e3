//! Requests and responses, and how each side reads the other's.

use crate::error::{message_of, KvsError};
use vstd::prelude::*;

verus! {

/// What a client asks of the server.
#[derive(Debug, Clone, PartialEq, Eq)]
pub enum Request {
    Get { key: String },
    Put { key: String, value: String },
    Remove { key: String },
}

/// What the server answers: the outcome of the request, or the message of
/// the error it met.
#[derive(Debug, Clone, PartialEq, Eq)]
pub enum Response {
    Get(Option<String>),
    Put,
    Remove,
    Failure(String),
}

/// `resp` answers a read whose outcome was `outcome`: the value read, or
/// the message of the error.
pub open spec fn answers_get(outcome: Result<Option<String>, KvsError>, resp: Response) -> bool {
    match outcome {
        Ok(v) => resp == Response::Get(v),
        Err(e) => resp matches Response::Failure(m) && m@ == message_of(e),
    }
}

/// `resp` answers a write whose outcome was `outcome`.
pub open spec fn answers_set(outcome: Result<(), KvsError>, resp: Response) -> bool {
    match outcome {
        Ok(()) => resp == Response::Put,
        Err(e) => resp matches Response::Failure(m) && m@ == message_of(e),
    }
}

/// `resp` answers a removal whose outcome was `outcome`.
pub open spec fn answers_remove(outcome: Result<(), KvsError>, resp: Response) -> bool {
    match outcome {
        Ok(()) => resp == Response::Remove,
        Err(e) => resp matches Response::Failure(m) && m@ == message_of(e),
    }
}

/// What a client makes of the answer to a read.
pub open spec fn get_reply_of(resp: Response) -> Result<Option<String>, KvsError> {
    match resp {
        Response::Get(v) => Ok(v),
        Response::Failure(m) => Err(KvsError::OtherError(m)),
        _ => Err(KvsError::WrongCommandError),
    }
}

/// What a client makes of the answer to a write.
pub open spec fn set_reply_of(resp: Response) -> Result<(), KvsError> {
    match resp {
        Response::Put => Ok(()),
        Response::Failure(m) => Err(KvsError::OtherError(m)),
        _ => Err(KvsError::WrongCommandError),
    }
}

/// What a client makes of the answer to a removal.
pub open spec fn remove_reply_of(resp: Response) -> Result<(), KvsError> {
    match resp {
        Response::Remove => Ok(()),
        Response::Failure(m) => Err(KvsError::OtherError(m)),
        _ => Err(KvsError::WrongCommandError),
    }
}

/// The answer the server sends for a read whose outcome was `outcome`.
pub fn get_response(outcome: Result<Option<String>, KvsError>) -> (r: Response)
    ensures
        answers_get(outcome, r),
{
    match outcome {
        Ok(v) => Response::Get(v),
        Err(e) => Response::Failure(e.message()),
    }
}

/// The answer the server sends for a write whose outcome was `outcome`.
pub fn set_response(outcome: Result<(), KvsError>) -> (r: Response)
    ensures
        answers_set(outcome, r),
{
    match outcome {
        Ok(()) => Response::Put,
        Err(e) => Response::Failure(e.message()),
    }
}

/// The answer the server sends for a removal whose outcome was `outcome`.
pub fn remove_response(outcome: Result<(), KvsError>) -> (r: Response)
    ensures
        answers_remove(outcome, r),
{
    match outcome {
        Ok(()) => Response::Remove,
        Err(e) => Response::Failure(e.message()),
    }
}

/// The result of a read, from the server's answer: an error answer carries
/// the server's message, an answer of another kind is a protocol error.
pub fn get_reply(resp: Response) -> (r: Result<Option<String>, KvsError>)
    ensures
        r == get_reply_of(resp),
{
    match resp {
        Response::Get(v) => Ok(v),
        Response::Failure(m) => Err(KvsError::OtherError(m)),
        _ => Err(KvsError::WrongCommandError),
    }
}

/// The result of a write, from the server's answer.
pub fn set_reply(resp: Response) -> (r: Result<(), KvsError>)
    ensures
        r == set_reply_of(resp),
{
    match resp {
        Response::Put => Ok(()),
        Response::Failure(m) => Err(KvsError::OtherError(m)),
        _ => Err(KvsError::WrongCommandError),
    }
}

/// The result of a removal, from the server's answer.
pub fn remove_reply(resp: Response) -> (r: Result<(), KvsError>)
    ensures
        r == remove_reply_of(resp),
{
    match resp {
        Response::Remove => Ok(()),
        Response::Failure(m) => Err(KvsError::OtherError(m)),
        _ => Err(KvsError::WrongCommandError),
    }
}

/// A client sees what the server's engine did: the value of a read that
/// succeeded, or an error that carries the message of the engine's error.
pub proof fn lemma_get_round_trip(outcome: Result<Option<String>, KvsError>, resp: Response)
    requires
        answers_get(outcome, resp),
    ensures
        match outcome {
            Ok(v) => get_reply_of(resp) == Ok::<Option<String>, KvsError>(v),
            Err(e) => get_reply_of(resp) matches Err(KvsError::OtherError(m)) && m@ == message_of(e),
        },
{
}

/// A client sees whether the server's write succeeded, and the engine's
/// message when it did not.
pub proof fn lemma_set_round_trip(outcome: Result<(), KvsError>, resp: Response)
    requires
        answers_set(outcome, resp),
    ensures
        match outcome {
            Ok(()) => set_reply_of(resp) == Ok::<(), KvsError>(()),
            Err(e) => set_reply_of(resp) matches Err(KvsError::OtherError(m)) && m@ == message_of(e),
        },
{
}

/// A client sees whether the server's removal succeeded, and the engine's
/// message (such as that of a missing key) when it did not.
pub proof fn lemma_remove_round_trip(outcome: Result<(), KvsError>, resp: Response)
    requires
        answers_remove(outcome, resp),
    ensures
        match outcome {
            Ok(()) => remove_reply_of(resp) == Ok::<(), KvsError>(()),
            Err(e) => remove_reply_of(resp) matches Err(KvsError::OtherError(m)) && m@ == message_of(e),
        },
{
}

} // verus!
