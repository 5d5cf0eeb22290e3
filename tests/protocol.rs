use kvs::protocol::{
    get_reply, get_response, remove_reply, remove_response, set_reply, set_response,
};
use kvs::sled_engine::{removal_outcome, stored_value};
use kvs::{KvsError, RayonThreadPool, Response};

#[test]
fn error_messages() {
    assert_eq!(KvsError::KeyNotFound.message(), "Key not found");
    assert_eq!(KvsError::WrongCommandError.message(), "Wrong command");
    assert_eq!(KvsError::IoError("disk".to_string()).message(), "I/O Error: disk");
    assert_eq!(
        KvsError::SerDeError("eof".to_string()).message(),
        "(De)serialization error: eof"
    );
    assert_eq!(KvsError::SledError("x".to_string()).message(), "Sled error: x");
    assert_eq!(KvsError::FromUtf8Error("y".to_string()).message(), "From utf8 error: y");
    assert_eq!(KvsError::OtherError("z".to_string()).message(), "Other error: z");
}

#[test]
fn server_answers() {
    assert_eq!(get_response(Ok(Some("1".to_string()))), Response::Get(Some("1".to_string())));
    assert_eq!(get_response(Ok(None)), Response::Get(None));
    assert_eq!(set_response(Ok(())), Response::Put);
    assert_eq!(remove_response(Ok(())), Response::Remove);
    assert_eq!(
        remove_response(Err(KvsError::KeyNotFound)),
        Response::Failure("Key not found".to_string())
    );
    assert_eq!(
        get_response(Err(KvsError::WrongCommandError)),
        Response::Failure("Wrong command".to_string())
    );
}

#[test]
fn client_replies() {
    assert_eq!(get_reply(Response::Get(Some("1".to_string()))), Ok(Some("1".to_string())));
    assert_eq!(get_reply(Response::Get(None)), Ok(None));
    assert_eq!(get_reply(Response::Put), Err(KvsError::WrongCommandError));
    assert_eq!(set_reply(Response::Put), Ok(()));
    assert_eq!(set_reply(Response::Remove), Err(KvsError::WrongCommandError));
    assert_eq!(remove_reply(Response::Remove), Ok(()));
    assert_eq!(
        remove_reply(Response::Failure("Key not found".to_string())),
        Err(KvsError::OtherError("Key not found".to_string()))
    );
}

// set x=1, get x -> 1, rm x -> ok, get x -> none, rm x -> error
#[test]
fn request_reply_round_trips() {
    assert_eq!(set_reply(set_response(Ok(()))), Ok(()));
    assert_eq!(get_reply(get_response(Ok(Some("1".to_string())))), Ok(Some("1".to_string())));
    assert_eq!(remove_reply(remove_response(Ok(()))), Ok(()));
    assert_eq!(get_reply(get_response(Ok(None))), Ok(None));
    assert_eq!(
        remove_reply(remove_response(Err(KvsError::KeyNotFound))),
        Err(KvsError::OtherError("Key not found".to_string()))
    );
}

#[test]
fn stored_bytes_become_text() {
    assert_eq!(stored_value(None), Ok(None));
    assert_eq!(stored_value(Some("héllo".as_bytes().to_vec())), Ok(Some("héllo".to_string())));
    assert!(matches!(stored_value(Some(vec![0xff, 0xfe])), Err(KvsError::FromUtf8Error(_))));
    assert_eq!(removal_outcome(None), Err(KvsError::KeyNotFound));
    assert_eq!(removal_outcome(Some(vec![1])), Ok(()));
}

#[test]
fn rayon_pool_starts() {
    assert!(RayonThreadPool::new(2).is_ok());
}
