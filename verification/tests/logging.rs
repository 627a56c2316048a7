use ie_core::logging::{
    needs_rotation, rotated_log_name, rotation_steps, tail_of, LogLevel, LOG_FILE, MAX_LOG_BYTES, MAX_LOG_FILES,
};

#[test]
fn each_level_names_its_filter() {
    assert_eq!(LogLevel::Debug.as_filter(), "debug");
    assert_eq!(LogLevel::Info.as_filter(), "info");
    assert_eq!(LogLevel::Warn.as_filter(), "warn");
    assert_eq!(LogLevel::Error.as_filter(), "error");
    assert!(LogLevel::Debug < LogLevel::Error);
}

#[test]
fn rotation_keeps_a_few_small_files() {
    assert_eq!(MAX_LOG_FILES, 5);
    assert_eq!(MAX_LOG_BYTES, 2 * 1024 * 1024);
}

#[test]
fn a_log_rotates_once_it_passes_the_limit() {
    assert!(!needs_rotation(None));
    assert!(!needs_rotation(Some(MAX_LOG_BYTES)));
    assert!(needs_rotation(Some(MAX_LOG_BYTES + 1)));
}

#[test]
fn rotation_shifts_every_file_one_place_older() {
    assert_eq!(LOG_FILE, "inner-empire.log");
    assert_eq!(rotated_log_name(MAX_LOG_FILES), "inner-empire.log.5");
    let steps: Vec<(String, String)> = rotation_steps();
    let expected: Vec<(String, String)> = vec![
        ("inner-empire.log.4".into(), "inner-empire.log.5".into()),
        ("inner-empire.log.3".into(), "inner-empire.log.4".into()),
        ("inner-empire.log.2".into(), "inner-empire.log.3".into()),
        ("inner-empire.log.1".into(), "inner-empire.log.2".into()),
        ("inner-empire.log".into(), "inner-empire.log.1".into()),
    ];
    assert_eq!(steps, expected);
}

#[test]
fn the_tail_is_the_last_lines_in_order() {
    assert_eq!(tail_of("one\ntwo\r\nthree\n", 2), "two\nthree");
    assert_eq!(tail_of("one\ntwo", 5), "one\ntwo");
    assert_eq!(tail_of("", 3), "");
    assert_eq!(tail_of("a\n\nb\n", 2), "\nb");
    assert_eq!(tail_of("a\nb", 0), "");
}
