use chrono_schism_log_viewer::{
    CoreTimestampParser, TimestampParserError, TimestampParserOperations,
};

#[test]
fn test_valid_pattern_strips_timestamps() {
    let mut parser = CoreTimestampParser::new();
    let lines = vec![
        "[2023-10-27 10:00:00] INFO: System start".to_string(),
        "DEBUG: No timestamp here".to_string(),
        "[2023-10-27 10:00:01] WARN: System alert".to_string(),
    ];
    let pattern = r"\[\d{4}-\d{2}-\d{2} \d{2}:\d{2}:\d{2}\] ";

    let result = parser.strip_timestamps(&lines, pattern).unwrap();

    assert_eq!(result[0], "INFO: System start");
    assert_eq!(result[1], "DEBUG: No timestamp here");
    assert_eq!(result[2], "WARN: System alert");
}

#[test]
fn test_invalid_regex_pattern_returns_error() {
    let mut parser = CoreTimestampParser::new();
    let lines = vec!["line 1".to_string()];
    let invalid_pattern = "[";

    let result = parser.strip_timestamps(&lines, invalid_pattern);

    assert!(result.is_err());
    match result.unwrap_err() {
        TimestampParserError::InvalidPattern { pattern, .. } => {
            assert_eq!(pattern, invalid_pattern);
        }
        other => panic!("Expected InvalidPattern error, got {other:?}"),
    }
}

#[test]
fn test_empty_pattern_returns_original_lines() {
    let mut parser = CoreTimestampParser::new();
    let lines = vec!["line 1".to_string(), "line 2".to_string()];

    let result = parser.strip_timestamps(&lines, "").unwrap();

    assert_eq!(result, lines);
    assert_eq!(parser.cache_len(), 0);
}

#[test]
fn test_no_matches_returns_original_lines() {
    let mut parser = CoreTimestampParser::new();
    let lines = vec!["line 1".to_string(), "another line".to_string()];
    let pattern = "xyz";

    let result = parser.strip_timestamps(&lines, pattern).unwrap();

    assert_eq!(result, lines);
    assert_eq!(parser.cache_len(), 1);
}

#[test]
fn test_regex_is_cached_after_first_use() {
    let mut parser = CoreTimestampParser::new();
    let lines = vec![
        "[10:00] entry".to_string(),
        "[10:01] another".to_string(),
        "no timestamp".to_string(),
    ];
    let pattern = r"\[\d{2}:\d{2}\] ";

    let result_one = parser.strip_timestamps(&lines, pattern).unwrap();
    assert_eq!(parser.cache_len(), 1);

    let result_two = parser.strip_timestamps(&lines, pattern).unwrap();
    assert_eq!(parser.cache_len(), 1, "pattern should remain cached");
    assert_eq!(result_one, result_two);
}

#[test]
fn test_invalid_pattern_does_not_pollute_cache() {
    let mut parser = CoreTimestampParser::new();
    let lines = vec!["entry".to_string()];

    assert!(parser.strip_timestamps(&lines, "[").is_err());
    assert_eq!(parser.cache_len(), 0);
}
