use diffside::compute_diff;
use diffside::DiffLine;
use diffside::words::apply_word_style;
use diffside::words::word_spans;
use diffside::words::Role;

/// The same deletion styling the library's styling collaborator applies.
fn del(s: &str) -> String {
    console::Style::new().on_color256(9).black().apply_to(s).force_styling(true).to_string()
}

/// The same addition styling the library's styling collaborator applies.
fn add(s: &str) -> String {
    console::Style::new().on_color256(10).black().apply_to(s).force_styling(true).to_string()
}

fn left_nums(rows: &[DiffLine]) -> Vec<usize> {
    rows.iter().filter_map(|r| r.left_num).collect()
}

fn right_nums(rows: &[DiffLine]) -> Vec<usize> {
    rows.iter().filter_map(|r| r.right_num).collect()
}

#[test]
fn no_differences_for_identical_texts() {
    assert!(compute_diff("a\nb\nc", "a\nb\nc").is_empty());
    assert!(compute_diff("", "").is_empty());
    assert!(compute_diff("one line", "one line").is_empty());
}

#[test]
fn replace_pairs_lines_by_position() {
    let rows = compute_diff("a\nb", "a\nx");
    assert_eq!(rows.len(), 2);

    assert_eq!(rows[0].left_num, Some(1));
    assert_eq!(rows[0].left_text.as_deref(), Some("a"));
    assert_eq!(rows[0].right_num, Some(1));
    assert_eq!(rows[0].right_text.as_deref(), Some("a"));

    assert_eq!(rows[1].left_num, Some(2));
    assert_eq!(rows[1].left_text.as_deref(), Some(del("b").as_str()));
    assert_eq!(rows[1].right_num, Some(2));
    assert_eq!(rows[1].right_text.as_deref(), Some(add("x").as_str()));
}

#[test]
fn insert_only_rows() {
    let rows = compute_diff("", "x\ny");
    assert_eq!(rows.len(), 2);

    assert_eq!(rows[0].left_num, None);
    assert_eq!(rows[0].left_text, None);
    assert_eq!(rows[0].right_num, Some(1));
    assert_eq!(rows[0].right_text.as_deref(), Some(add("x").as_str()));

    assert_eq!(rows[1].left_num, None);
    assert_eq!(rows[1].left_text, None);
    assert_eq!(rows[1].right_num, Some(2));
    assert_eq!(rows[1].right_text.as_deref(), Some(add("y").as_str()));
}

#[test]
fn delete_only_rows() {
    let rows = compute_diff("a\nb", "a");
    assert_eq!(rows.len(), 2);

    assert_eq!(rows[0].left_num, Some(1));
    assert_eq!(rows[0].left_text.as_deref(), Some("a"));
    assert_eq!(rows[0].right_num, Some(1));
    assert_eq!(rows[0].right_text.as_deref(), Some("a"));

    assert_eq!(rows[1].left_num, Some(2));
    assert_eq!(rows[1].left_text.as_deref(), Some(del("b").as_str()));
    assert_eq!(rows[1].right_num, None);
    assert_eq!(rows[1].right_text, None);
}

#[test]
fn coverage_of_line_numbers() {
    let rows = compute_diff("a\nb\nc\nd", "q\nb\nd\ne\nf");
    assert_eq!(left_nums(&rows), vec![1, 2, 3, 4]);
    assert_eq!(right_nums(&rows), vec![1, 2, 3, 4, 5]);

    let rows = compute_diff("x", "a\nx\nb");
    assert_eq!(left_nums(&rows), vec![1]);
    assert_eq!(right_nums(&rows), vec![1, 2, 3]);
}

#[test]
fn every_row_has_a_side() {
    let rows = compute_diff("a\nb\nc\nd", "c\nd\ne\nf\ng");
    assert!(!rows.is_empty());
    for row in &rows {
        assert!(row.left_num.is_some() || row.right_num.is_some());
    }
}

#[test]
fn word_highlight_marks_only_changed_words() {
    let styled = apply_word_style("hello world", "hello there");
    assert_eq!(styled.left, format!("hello {}", del("world")));
    assert_eq!(styled.right, format!("hello {}", add("there")));
}

#[test]
fn word_highlight_of_whole_line_against_empty() {
    // Every token of the line — words and whitespace — is styled on its own.
    let styled = apply_word_style("gone for good", "");
    let expected: String = [del("gone"), del(" "), del("for"), del(" "), del("good")].concat();
    assert_eq!(styled.left, expected);
    assert_eq!(styled.right, "");

    let styled = apply_word_style("", "all new");
    let expected: String = [add("all"), add(" "), add("new")].concat();
    assert_eq!(styled.left, "");
    assert_eq!(styled.right, expected);
}

#[test]
fn word_spans_round_trip() {
    let (left, right) = word_spans("the quick fox", "the lazy fox");

    let left_text: String = left.iter().map(|s| s.text.as_str()).collect();
    let right_text: String = right.iter().map(|s| s.text.as_str()).collect();
    assert_eq!(left_text, "the quick fox");
    assert_eq!(right_text, "the lazy fox");

    assert!(left.iter().all(|s| matches!(s.role, Role::Unchanged | Role::Deletion)));
    assert!(right.iter().all(|s| matches!(s.role, Role::Unchanged | Role::Addition)));
    assert!(left.iter().any(|s| matches!(s.role, Role::Deletion) && s.text == "quick"));
    assert!(right.iter().any(|s| matches!(s.role, Role::Addition) && s.text == "lazy"));
}

#[test]
fn pipeline_is_deterministic() {
    let old = "alpha beta\ngamma\ndelta epsilon";
    let new = "alpha zeta\ngamma\neta epsilon\ntheta";
    let first = compute_diff(old, new);
    let second = compute_diff(old, new);
    assert_eq!(first.len(), second.len());
    for (a, b) in first.iter().zip(second.iter()) {
        assert_eq!(a.left_num, b.left_num);
        assert_eq!(a.left_text, b.left_text);
        assert_eq!(a.right_num, b.right_num);
        assert_eq!(a.right_text, b.right_text);
    }
}

#[test]
fn trailing_newline_only_difference() {
    // The texts differ, so the result is not empty, even though both split
    // into the same single line.
    let rows = compute_diff("a", "a\n");
    assert!(!rows.is_empty());
    assert_eq!(rows[0].left_text.as_deref(), Some("a"));
    assert_eq!(rows[0].right_text.as_deref(), Some("a"));
}

#[test]
fn unequal_replace_degrades_to_trailing_inserts() {
    let rows = compute_diff("a\nb", "p\nq\nr");
    assert_eq!(rows.len(), 3);
    assert_eq!(rows[0].left_num, Some(1));
    assert_eq!(rows[0].right_num, Some(1));
    assert_eq!(rows[1].left_num, Some(2));
    assert_eq!(rows[1].right_num, Some(2));
    assert_eq!(rows[2].left_num, None);
    assert_eq!(rows[2].right_num, Some(3));
    assert_eq!(rows[2].right_text.as_deref(), Some(add("r").as_str()));
}

#[test]
fn crlf_lines_compare_equal_to_lf_lines() {
    // Line splitting treats \r\n as one terminator, so the only rows come
    // from the changed line.
    let rows = compute_diff("a\r\nb\r\n", "a\nc\n");
    assert_eq!(left_nums(&rows), vec![1, 2]);
    assert_eq!(rows[0].left_text.as_deref(), Some("a"));
    assert_eq!(rows[0].right_text.as_deref(), Some("a"));
    assert_eq!(rows[1].left_text.as_deref(), Some(del("b").as_str()));
    assert_eq!(rows[1].right_text.as_deref(), Some(add("c").as_str()));
}
