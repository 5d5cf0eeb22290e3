use kvs::engine_kind::{choose_engine, EngineKind};
use kvs::segment::{log_file_name, parse_log_id};
use kvs::KvsError;

#[test]
fn engine_names() {
    assert_eq!(EngineKind::parse("kvs"), Some(EngineKind::Kvs));
    assert_eq!(EngineKind::parse("sled"), Some(EngineKind::Sled));
    assert_eq!(EngineKind::parse("kvs\n"), None);
    assert_eq!(EngineKind::parse(""), None);
    assert_eq!(EngineKind::Kvs.name(), "kvs");
    assert_eq!(EngineKind::Sled.name(), "sled");
}

// persisted engine=kvs; restart asking for sled -> refused
#[test]
fn persisted_engine_must_match() {
    assert_eq!(
        choose_engine("sled", Some("kvs".to_string())),
        Err(KvsError::OtherError("Wrong engine".to_string()))
    );
    assert_eq!(choose_engine("kvs", Some("kvs".to_string())), Ok(EngineKind::Kvs));
    assert_eq!(choose_engine("sled", None), Ok(EngineKind::Sled));
    assert_eq!(choose_engine("kvs", Some("garbage".to_string())), Ok(EngineKind::Kvs));
    assert!(matches!(choose_engine("rocks", None), Err(KvsError::OtherError(_))));
}

#[test]
fn segment_file_names() {
    assert_eq!(log_file_name(0), "0.log");
    assert_eq!(log_file_name(42), "42.log");
    assert_eq!(log_file_name(u64::MAX), "18446744073709551615.log");
    for id in [0u64, 1, 9, 10, 1234567, u64::MAX] {
        assert_eq!(parse_log_id(&log_file_name(id)), Some(id));
    }
}
