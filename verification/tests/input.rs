use linefreq::input::consume_lines;
use linefreq::input::filter_line;
use linefreq::input::group_count_allowed;
use linefreq::input::parse_regex;
use linefreq::input::strip_newline;
use linefreq::input::FilterError;
use linefreq::linecollector::LineCollector;

#[test]
fn plain_pattern_is_accepted() {
    assert!(parse_regex("foo").is_ok());
}

#[test]
fn one_capture_group_is_accepted() {
    assert!(parse_regex("(fo+)").is_ok());
}

#[test]
fn two_capture_groups_are_rejected() {
    assert_eq!(parse_regex("(a)(b)").unwrap_err(), FilterError::TooManyGroups);
}

#[test]
fn malformed_pattern_is_rejected() {
    assert_eq!(parse_regex("(unclosed").unwrap_err(), FilterError::BadPattern);
}

#[test]
fn group_count_includes_the_implicit_group() {
    assert_eq!(parse_regex("foo").unwrap().captures_len(), 1);
    assert_eq!(parse_regex("(foo)").unwrap().captures_len(), 2);
}

#[test]
fn group_count_rule_counts_the_implicit_group() {
    assert!(group_count_allowed(1));
    assert!(group_count_allowed(2));
    assert!(!group_count_allowed(0));
    assert!(!group_count_allowed(3));
}

#[test]
fn stripping_removes_one_trailing_newline_only() {
    assert_eq!(strip_newline("hello world\n"), "hello world");
    assert_eq!(strip_newline("crlf line\r\n"), "crlf line");
    assert_eq!(strip_newline("no newline"), "no newline");
    assert_eq!(strip_newline("\n"), "");
    assert_eq!(strip_newline(""), "");
    assert_eq!(strip_newline("two\n\n"), "two\n");
}

#[test]
fn no_filter_keeps_other_trailing_whitespace() {
    assert_eq!(filter_line(&None, "hello world\n"), Some("hello world".to_string()));
    assert_eq!(filter_line(&None, "padded \t \r\n"), Some("padded \t ".to_string()));
    assert_eq!(filter_line(&None, "untouched"), Some("untouched".to_string()));
}

#[test]
fn filter_without_group_keeps_whole_match() {
    let re = parse_regex("[0-9]+").unwrap();
    let filter = Some(re);
    assert_eq!(filter_line(&filter, "abc123def"), Some("123".to_string()));
}

#[test]
fn filter_with_group_keeps_group_content() {
    let re = parse_regex("id=([0-9]+)").unwrap();
    let filter = Some(re);
    assert_eq!(filter_line(&filter, "log id=42 end"), Some("42".to_string()));
}

#[test]
fn non_matching_line_is_dropped() {
    let re = parse_regex("id=([0-9]+)").unwrap();
    let filter = Some(re);
    assert_eq!(filter_line(&filter, "no identifiers here"), None);
}

#[test]
fn undecodable_line_is_skipped_and_reading_goes_on() {
    let mut lc = LineCollector::new();
    let raws = vec![
        Some("alpha\n".to_string()),
        None,
        Some("beta\n".to_string()),
    ];

    consume_lines(&mut lc, &None, &raws);

    assert_eq!(lc.num_total(), 2);
    assert_eq!(lc.get("alpha"), Some(1));
    assert_eq!(lc.get("beta"), Some(1));
}

#[test]
fn consuming_with_filter_counts_matching_lines_only() {
    let mut lc = LineCollector::new();
    let re = parse_regex("^user ([a-z]+)").unwrap();
    let filter = Some(re);
    let raws = vec![
        Some("user amy\n".to_string()),
        Some("noise\n".to_string()),
        Some("user bob\n".to_string()),
        Some("user amy\n".to_string()),
    ];

    consume_lines(&mut lc, &filter, &raws);

    assert_eq!(lc.num_total(), 3);
    assert_eq!(lc.num_unique(), 2);
    assert_eq!(lc.get("amy"), Some(2));
    assert_eq!(lc.get("bob"), Some(1));
    assert_eq!(lc.get("noise"), None);
}
