use std::collections::VecDeque;

use chrono_schism_log_viewer::{
    build_comparable_lines, build_viewer_text, format_line_for_side, pattern_is_valid,
    record_timestamp_pattern_history, AppSettings, ComparableLine, CoreSettingsManager,
    CoreTimestampParser, DiffEngineOperations, DiffResult, DiffState, HeckelDiffEngine,
    TimestampParserError, TimestampParserOperations, MAX_TIMESTAMP_HISTORY,
};

fn same(text: &str) -> ComparableLine {
    ComparableLine::new(text.to_string(), text.to_string())
}

fn lines_of(texts: &[&str]) -> Vec<ComparableLine> {
    texts.iter().map(|t| same(t)).collect()
}

/// A fully observable rendering of a result, for comparing two runs.
fn snapshot(result: &DiffResult) -> Vec<(DiffState, Option<(usize, String)>, Option<(usize, String)>, Option<usize>, Option<usize>)> {
    result
        .lines()
        .iter()
        .map(|l| {
            (
                l.state(),
                l.left().map(|c| (c.line_number(), c.text().to_string())),
                l.right().map(|c| (c.line_number(), c.text().to_string())),
                l.moved_from(),
                l.moved_to(),
            )
        })
        .collect()
}

#[test]
fn addition_deletion_balance_matches_length_difference() {
    let engine = HeckelDiffEngine::new();
    let lines_a = lines_of(&["a", "b", "c", "d"]);
    let lines_b = lines_of(&["b", "x", "a", "y", "z"]);

    let result = engine.compute_diff(&lines_a, &lines_b);
    let stats = result.statistics();

    assert_eq!(
        stats.additions() as isize - stats.deletions() as isize,
        lines_b.len() as isize - lines_a.len() as isize
    );
}

#[test]
fn diff_of_sequence_with_itself_is_all_unchanged() {
    let engine = HeckelDiffEngine::new();
    let lines = lines_of(&["x", "y", "x", "x", "z"]);

    let result = engine.compute_diff(&lines, &lines);

    assert_eq!(result.lines().len(), lines.len());
    assert!(result.lines().iter().all(|l| l.state() == DiffState::Unchanged));
    assert_eq!(result.statistics().additions(), 0);
    assert_eq!(result.statistics().deletions(), 0);
    assert_eq!(result.statistics().moves(), 0);
    assert_eq!(result.statistics().unchanged(), lines.len());
    assert!(result.moved_blocks().is_empty());
}

#[test]
fn line_numbers_stay_in_range_and_are_not_repeated() {
    let engine = HeckelDiffEngine::new();
    let lines_a = lines_of(&["a", "dup", "b", "dup", "c"]);
    let lines_b = lines_of(&["c", "dup", "n", "a", "dup"]);

    let result = engine.compute_diff(&lines_a, &lines_b);

    let mut deleted_lefts: Vec<usize> = Vec::new();
    let mut added_rights: Vec<usize> = Vec::new();
    for line in result.lines() {
        if let Some(left) = line.left() {
            assert!(1 <= left.line_number() && left.line_number() <= lines_a.len());
        }
        if let Some(right) = line.right() {
            assert!(1 <= right.line_number() && right.line_number() <= lines_b.len());
        }
        match line.state() {
            DiffState::Deleted => deleted_lefts.push(line.left().unwrap().line_number()),
            DiffState::Added => added_rights.push(line.right().unwrap().line_number()),
            _ => {}
        }
    }
    assert!(deleted_lefts.windows(2).all(|w| w[0] < w[1]));
    assert!(added_rights.windows(2).all(|w| w[0] < w[1]));
}

#[test]
fn computing_the_same_diff_twice_yields_identical_results() {
    let engine = HeckelDiffEngine::new();
    let lines_a = lines_of(&["one", "two", "two", "three", "four"]);
    let lines_b = lines_of(&["four", "two", "five", "one", "two"]);

    let first = engine.compute_diff(&lines_a, &lines_b);
    let second = engine.compute_diff(&lines_a, &lines_b);

    assert_eq!(snapshot(&first), snapshot(&second));
    assert_eq!(first.statistics().additions(), second.statistics().additions());
    assert_eq!(first.statistics().deletions(), second.statistics().deletions());
    assert_eq!(first.statistics().moves(), second.statistics().moves());
    assert_eq!(first.statistics().unchanged(), second.statistics().unchanged());
    assert_eq!(first.moved_blocks().len(), second.moved_blocks().len());
    for (one, other) in first.moved_blocks().iter().zip(second.moved_blocks().iter()) {
        assert_eq!(one.source_start(), other.source_start());
        assert_eq!(one.source_end(), other.source_end());
        assert_eq!(one.destination_start(), other.destination_start());
        assert_eq!(one.destination_end(), other.destination_end());
    }
}

#[test]
fn unchanged_backbone_right_numbers_increase() {
    let engine = HeckelDiffEngine::new();
    let lines_a = lines_of(&["a", "b", "c", "d", "e"]);
    let lines_b = lines_of(&["d", "a", "b", "q", "c", "e"]);

    let result = engine.compute_diff(&lines_a, &lines_b);

    let backbone: Vec<usize> = result
        .lines()
        .iter()
        .filter(|l| l.state() == DiffState::Unchanged)
        .map(|l| l.right().unwrap().line_number())
        .collect();
    assert!(!backbone.is_empty());
    assert!(backbone.windows(2).all(|w| w[0] < w[1]));
}

#[test]
fn empty_inputs_give_empty_or_one_sided_results() {
    let engine = HeckelDiffEngine::new();
    let empty: Vec<ComparableLine> = Vec::new();
    let lines = lines_of(&["a", "b"]);

    let both = engine.compute_diff(&empty, &empty);
    assert!(both.is_empty());
    assert_eq!(both.statistics().total_changes(), 0);
    assert!(both.moved_blocks().is_empty());

    let added = engine.compute_diff(&empty, &lines);
    assert_eq!(added.statistics().additions(), 2);
    assert!(added.lines().iter().all(|l| l.state() == DiffState::Added));

    let deleted = engine.compute_diff(&lines, &empty);
    assert_eq!(deleted.statistics().deletions(), 2);
    assert!(deleted.lines().iter().all(|l| l.state() == DiffState::Deleted));
}

#[test]
fn inserting_one_line_adds_exactly_one() {
    let engine = HeckelDiffEngine::new();
    let lines_a = lines_of(&["a", "c"]);
    let lines_b = lines_of(&["a", "b", "c"]);

    let result = engine.compute_diff(&lines_a, &lines_b);
    let stats = result.statistics();

    assert_eq!(stats.additions(), 1);
    assert_eq!(stats.unchanged(), 2);
    assert_eq!(stats.deletions(), 0);
    assert_eq!(stats.moves(), 0);
    assert_eq!(result.lines()[1].right().map(|c| c.text()), Some("b"));
}

#[test]
fn removing_one_line_deletes_exactly_one() {
    let engine = HeckelDiffEngine::new();
    let lines_a = lines_of(&["a", "b", "c"]);
    let lines_b = lines_of(&["a", "c"]);

    let result = engine.compute_diff(&lines_a, &lines_b);
    let stats = result.statistics();

    assert_eq!(stats.deletions(), 1);
    assert_eq!(stats.unchanged(), 2);
    assert_eq!(stats.additions(), 0);
    assert_eq!(stats.moves(), 0);
    let deleted = &result.lines()[1];
    assert_eq!(deleted.left().map(|c| c.text()), Some("b"));
    assert_eq!(deleted.left().map(|c| c.line_number()), Some(2));
    assert!(deleted.right().is_none());
}

#[test]
fn total_changes_counts_everything_but_unchanged() {
    let engine = HeckelDiffEngine::new();
    let lines_a = lines_of(&["a", "b", "c"]);
    let lines_b = lines_of(&["c", "a", "n"]);

    let result = engine.compute_diff(&lines_a, &lines_b);
    let stats = result.statistics();

    assert_eq!(
        stats.total_changes(),
        stats.additions() + stats.deletions() + stats.moves()
    );
    assert_eq!(
        stats.additions() + stats.deletions() + stats.moves() + stats.unchanged(),
        result.lines().len()
    );
}

#[test]
fn moved_block_spans_the_relocated_run() {
    let engine = HeckelDiffEngine::new();
    let lines_a = lines_of(&["a", "b", "c", "d"]);
    let lines_b = lines_of(&["c", "d", "a", "b"]);

    let result = engine.compute_diff(&lines_a, &lines_b);

    assert_eq!(result.statistics().additions(), 0);
    assert_eq!(result.statistics().deletions(), 0);
    assert!(result.statistics().moves() >= 1);
    assert!(!result.moved_blocks().is_empty());
    for block in result.moved_blocks() {
        assert!(1 <= block.source_start() && block.source_start() <= block.source_end());
        assert!(block.source_end() <= lines_a.len());
        assert!(1 <= block.destination_start());
        assert!(block.destination_start() <= block.destination_end());
        assert!(block.destination_end() <= lines_b.len());
    }
}

#[test]
fn longest_increasing_subsequence_picks_patience_backbone() {
    assert_eq!(
        HeckelDiffEngine::longest_increasing_subsequence_indices(&[0, 2, 1]),
        vec![0, 2]
    );
    assert_eq!(
        HeckelDiffEngine::longest_increasing_subsequence_indices(&[3, 0, 1, 2]),
        vec![1, 2, 3]
    );
    assert_eq!(
        HeckelDiffEngine::longest_increasing_subsequence_indices(&[]),
        Vec::<usize>::new()
    );
    assert_eq!(
        HeckelDiffEngine::longest_increasing_subsequence_indices(&[5]),
        vec![0]
    );
}

#[test]
fn viewer_text_marks_each_state_and_keeps_row_alignment() {
    let engine = HeckelDiffEngine::new();
    let lines_a = lines_of(&["alpha"]);
    let lines_b = lines_of(&["alpha", "beta"]);

    let result = engine.compute_diff(&lines_a, &lines_b);
    let (left, right) = build_viewer_text(result.lines());

    assert_eq!(left, "  alpha\r\n+ ");
    assert_eq!(right, "  alpha\r\n+ beta");
}

#[test]
fn format_line_marks_every_state() {
    let deleted = chrono_schism_log_viewer::LineContent::new(2, "gone".to_string());
    assert_eq!(format_line_for_side(DiffState::Deleted, Some(&deleted)), "- gone");
    assert_eq!(format_line_for_side(DiffState::Added, None), "+ ");
    let moved = chrono_schism_log_viewer::LineContent::new(1, "hop".to_string());
    assert_eq!(format_line_for_side(DiffState::Moved, Some(&moved)), "\u{2194} hop");
    let kept = chrono_schism_log_viewer::LineContent::new(3, "still".to_string());
    assert_eq!(format_line_for_side(DiffState::Unchanged, Some(&kept)), "  still");
}

#[test]
fn build_comparable_lines_pairs_texts_positionally() {
    let original = vec!["[1] a".to_string(), "[2] b".to_string()];
    let stripped = vec!["a".to_string(), "b".to_string()];

    let lines = build_comparable_lines(&original, &stripped);

    assert_eq!(lines.len(), 2);
    assert_eq!(lines[0].original_text, "[1] a");
    assert_eq!(lines[0].comparable_text, "a");
    assert_eq!(lines[1].original_text, "[2] b");
    assert_eq!(lines[1].comparable_text, "b");
}

#[test]
fn pattern_history_keeps_a_small_mru_list() {
    let mut history: VecDeque<String> = VecDeque::new();
    for pattern in ["one", "two", "three", "four", "five", "six"] {
        record_timestamp_pattern_history(&mut history, &pattern.to_string());
    }
    assert_eq!(history.len(), MAX_TIMESTAMP_HISTORY);
    assert_eq!(history[0], "six");
    assert_eq!(history[4], "two");

    record_timestamp_pattern_history(&mut history, &"four".to_string());
    assert_eq!(history.len(), MAX_TIMESTAMP_HISTORY);
    assert_eq!(history[0], "four");
    assert_eq!(history.iter().filter(|p| p.as_str() == "four").count(), 1);

    record_timestamp_pattern_history(&mut history, &String::new());
    assert_eq!(history[0], "four", "an empty pattern is never recorded");
}

#[test]
fn settings_round_trip_through_accessors() {
    let mut history: VecDeque<String> = VecDeque::new();
    history.push_back(r"\d+".to_string());
    let settings = AppSettings::with_values(
        Some("left.log".to_string()),
        None,
        r"\d+".to_string(),
        history,
    );

    assert_eq!(settings.left_file_path().map(|p| p.as_str()), Some("left.log"));
    assert!(settings.right_file_path().is_none());
    assert_eq!(settings.timestamp_pattern(), r"\d+");
    assert_eq!(settings.timestamp_history().len(), 1);

    let fresh = AppSettings::new();
    assert!(fresh.left_file_path().is_none());
    assert!(fresh.timestamp_pattern().is_empty());
    let _manager = CoreSettingsManager::new();
}

#[test]
fn pattern_validity_accepts_empty_and_rejects_broken_patterns() {
    assert!(pattern_is_valid(""));
    assert!(pattern_is_valid(r"\[\d{2}:\d{2}\] "));
    assert!(!pattern_is_valid("["));
}

#[test]
fn parser_error_constructors_carry_their_fields() {
    let invalid = TimestampParserError::invalid_pattern("[".to_string(), "oops".to_string());
    assert!(matches!(
        invalid,
        TimestampParserError::InvalidPattern { ref pattern, ref message }
            if pattern == "[" && message == "oops"
    ));
    let failed = TimestampParserError::processing_failed("bad".to_string());
    assert!(matches!(
        failed,
        TimestampParserError::ProcessingFailed { ref message } if message == "bad"
    ));
}

#[test]
fn stripping_feeds_the_diff_with_comparison_keys() {
    let mut parser = CoreTimestampParser::new();
    let engine = HeckelDiffEngine::new();
    let raw_left = vec!["[10:00] boot".to_string(), "[10:01] ready".to_string()];
    let raw_right = vec!["[11:30] boot".to_string(), "[11:31] ready".to_string()];
    let pattern = r"\[\d{2}:\d{2}\] ";

    let stripped_left = parser.strip_timestamps(&raw_left, pattern).unwrap();
    let stripped_right = parser.strip_timestamps(&raw_right, pattern).unwrap();
    let left = build_comparable_lines(&raw_left, &stripped_left);
    let right = build_comparable_lines(&raw_right, &stripped_right);

    let result = engine.compute_diff(&left, &right);
    assert_eq!(result.statistics().unchanged(), 2);
    assert_eq!(result.statistics().total_changes(), 0);
    assert_eq!(result.lines()[0].left().unwrap().text(), "[10:00] boot");
    assert_eq!(result.lines()[0].right().unwrap().text(), "[11:30] boot");
}
