use chrono_schism_log_viewer::{
    ComparableLine, DiffEngineOperations, DiffState, HeckelDiffEngine,
};

fn same(text: &str) -> ComparableLine {
    ComparableLine::new(text.to_string(), text.to_string())
}

fn comparable(original: &str, stripped: &str) -> ComparableLine {
    ComparableLine::new(original.to_string(), stripped.to_string())
}

#[test]
fn comparable_line_equality_ignores_original_text() {
    let line_a = comparable("[A] entry", "entry");
    let line_b = comparable("[B] entry", "entry");
    let line_c = comparable("[C] other", "other");

    assert_eq!(line_a, line_b, "Comparable text should drive equality");
    assert_ne!(line_a, line_c, "Different comparable text must not be equal");
}

#[test]
fn test_build_symbol_table() {
    let lines_a = vec![same("a"), same("b"), same("a")];
    let lines_b = vec![same("c"), same("b")];

    let table = HeckelDiffEngine::build_symbol_table(&lines_a, &lines_b);

    assert_eq!(table.get(&lines_a[0]), Some((2, 0)));
    assert_eq!(table.get(&lines_a[1]), Some((1, 1)));
    assert_eq!(table.get(&lines_b[0]), Some((0, 1)));
    assert_eq!(table.len(), 3);
}

#[test]
fn test_unique_anchor_linking() {
    let lines_a = vec![same("alpha"), same("beta"), same("gamma")];
    let lines_b = vec![same("delta"), same("beta"), same("epsilon")];

    let table = HeckelDiffEngine::build_symbol_table(&lines_a, &lines_b);
    let (oa, na) = HeckelDiffEngine::link_unique_anchors(&lines_a, &lines_b, &table);

    assert_eq!(oa, vec![None, Some(1), None]);
    assert_eq!(na, vec![None, Some(1), None]);
}

#[test]
fn test_non_unique_matches_are_linked() {
    let lines_a = vec![same("foo"), same("bar"), same("foo")];
    let lines_b = vec![same("foo"), same("foo"), same("bar")];

    let table = HeckelDiffEngine::build_symbol_table(&lines_a, &lines_b);
    let (mut oa, mut na) = HeckelDiffEngine::link_unique_anchors(&lines_a, &lines_b, &table);
    HeckelDiffEngine::link_non_unique_matches(&lines_a, &lines_b, &table, &mut oa, &mut na);

    assert_eq!(oa, vec![Some(0), Some(2), Some(1)]);
    assert_eq!(na, vec![Some(0), Some(2), Some(1)]);
}

#[test]
fn test_compares_stripped_text_but_displays_original() {
    let engine = HeckelDiffEngine::new();
    let lines_a = vec![
        comparable("[T1] line a", "line a"),
        comparable("[T2] line b", "line b"),
    ];
    let lines_b = vec![
        comparable("[T3] line a", "line a"),
        comparable("[T4] line b", "line b"),
    ];

    let result = engine.compute_diff(&lines_a, &lines_b);

    assert_eq!(result.statistics().unchanged(), 2);
    assert_eq!(result.statistics().total_changes(), 0);
    assert!(result.moved_blocks().is_empty());

    let first = &result.lines()[0];
    assert_eq!(first.state(), DiffState::Unchanged);
    assert_eq!(first.left().unwrap().text(), "[T1] line a");
    assert_eq!(first.right().unwrap().text(), "[T3] line a");

    let second = &result.lines()[1];
    assert_eq!(second.state(), DiffState::Unchanged);
    assert_eq!(second.left().unwrap().text(), "[T2] line b");
    assert_eq!(second.right().unwrap().text(), "[T4] line b");
}

#[test]
fn test_simple_addition() {
    let engine = HeckelDiffEngine::new();
    let lines_a = vec![same("a"), same("c")];
    let lines_b = vec![same("a"), same("b"), same("c")];

    let result = engine.compute_diff(&lines_a, &lines_b);

    assert_eq!(result.statistics().additions(), 1);
    assert_eq!(result.statistics().unchanged(), 2);
    assert_eq!(result.lines()[1].state(), DiffState::Added);
    assert_eq!(result.lines()[1].right().map(|c| c.text()), Some("b"));
}

#[test]
fn test_simple_deletion() {
    let engine = HeckelDiffEngine::new();
    let lines_a = vec![same("a"), same("b"), same("c")];
    let lines_b = vec![same("a"), same("c")];

    let result = engine.compute_diff(&lines_a, &lines_b);

    assert_eq!(result.statistics().deletions(), 1);
    assert_eq!(result.statistics().unchanged(), 2);
    assert_eq!(result.lines()[1].state(), DiffState::Deleted);
    assert_eq!(result.lines()[1].left().map(|c| c.text()), Some("b"));
}

#[test]
fn test_simple_move() {
    let engine = HeckelDiffEngine::new();
    let lines_a = vec![same("a"), same("b"), same("c")];
    let lines_b = vec![same("c"), same("a"), same("b")];

    let result = engine.compute_diff(&lines_a, &lines_b);

    assert_eq!(result.statistics().additions(), 0);
    assert_eq!(result.statistics().deletions(), 0);
    assert!(result.statistics().moves() >= 1);
    assert!(
        result
            .lines()
            .iter()
            .any(|line| line.state() == DiffState::Moved)
    );
    assert!(
        !result.moved_blocks().is_empty(),
        "Expected at least one moved block"
    );
}
