use kvs::segment::{log_ids, parse_log_id};

#[test]
fn parses_segment_names() {
    assert_eq!(parse_log_id("0.log"), Some(0));
    assert_eq!(parse_log_id("12.log"), Some(12));
    assert_eq!(parse_log_id("18446744073709551615.log"), Some(u64::MAX));
}

#[test]
fn rejects_other_names() {
    assert_eq!(parse_log_id(".log"), None);
    assert_eq!(parse_log_id("engine"), None);
    assert_eq!(parse_log_id("12.txt"), None);
    assert_eq!(parse_log_id("1a.log"), None);
    assert_eq!(parse_log_id("+1.log"), None);
    assert_eq!(parse_log_id("007.log"), None);
    assert_eq!(parse_log_id("05.log"), None);
    assert_eq!(parse_log_id("00.log"), None);
    assert_eq!(parse_log_id("1.log.log"), None);
    assert_eq!(parse_log_id("18446744073709551616.log"), None);
    assert_eq!(parse_log_id("99999999999999999999x.log"), None);
}

#[test]
fn lists_ids_ascending_once() {
    let names: Vec<String> = ["10.log", "engine", "2.log", "02.log", "x.log", "1.log"]
        .iter()
        .map(|s| s.to_string())
        .collect();
    assert_eq!(log_ids(&names), vec![1, 2, 10]);
    assert_eq!(log_ids(&Vec::new()), Vec::<u64>::new());
    // a lone "05.log" names no segment: there is no "5.log"
    assert_eq!(log_ids(&vec!["05.log".to_string()]), Vec::<u64>::new());
}
