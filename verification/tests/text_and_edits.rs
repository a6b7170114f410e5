use pylinefix::edits::EditSet;
use pylinefix::pyutil::{
    any_line_over, indent_of_line, line_end, line_start, longest_line, split_lines, visible_column,
};

fn chars(s: &str) -> Vec<char> {
    s.chars().collect()
}

fn text(v: &[char]) -> String {
    v.iter().collect()
}

#[test]
fn line_bounds_around_a_position() {
    let src = "ab\ncd\nef";
    assert_eq!(line_start(src, 4), 3);
    assert_eq!(line_end(src, 4), 5);
    assert_eq!(line_start(src, 0), 0);
    assert_eq!(line_end(src, 6), 8);
    assert_eq!(line_start(src, 3), 3);
}

#[test]
fn line_bounds_count_bytes() {
    let src = "é\nüx\n";
    assert_eq!(line_start(src, 5), 3);
    assert_eq!(line_end(src, 3), 6);
}

#[test]
fn visible_column_expands_tabs() {
    let src = "\tx";
    assert_eq!(visible_column(src, 1, 4), 4);
    let src = "ab\tc";
    assert_eq!(visible_column(src, 3, 4), 4);
    assert_eq!(visible_column(src, 4, 4), 5);
    let src = "x\néé";
    assert_eq!(visible_column(src, 6, 4), 2);
}

#[test]
fn indent_is_leading_blanks_of_the_line() {
    let src = "a\n  \tx = 1\n";
    assert_eq!(indent_of_line(src, 7), "  \t");
    assert_eq!(indent_of_line(src, 0), "");
}

#[test]
fn longest_line_counts_columns() {
    assert_eq!(longest_line("a\n\tbc\n", 4), 6);
    assert_eq!(longest_line("", 4), 0);
    assert_eq!(longest_line("abc", 8), 3);
    assert_eq!(longest_line("ab\tc", 8), 9);
    assert_eq!(longest_line("a\tb", 0), 3);
    assert_eq!(longest_line("ééé", 4), 3);
}

#[test]
fn any_line_over_measures_from_line_start() {
    let src = "xxxxxxxx = 'ab'\n";
    assert!(any_line_over(src, 11, 15, 14, 4));
    assert!(!any_line_over(src, 11, 15, 15, 4));
    let src = "éé = 'ab'\n";
    assert!(!any_line_over(src, 7, 11, 9, 4));
    assert!(any_line_over(src, 7, 11, 8, 4));
}

#[test]
fn split_lines_keeps_empty_pieces() {
    let pieces: Vec<String> = split_lines(&chars("a\n\nb\n")).iter().map(|l| text(l)).collect();
    assert_eq!(pieces, vec!["a", "", "b", ""]);
}

#[test]
fn apply_without_edits_gives_source() {
    let edits = EditSet::new();
    assert_eq!(edits.apply("print(1)\n"), "print(1)\n");
}

#[test]
fn apply_single_edit_replaces_its_range() {
    let mut edits = EditSet::new();
    edits.push(2, 5, "XY".to_string());
    assert_eq!(edits.apply("abcdefg"), "abXYfg");
}

#[test]
fn apply_orders_by_start() {
    let mut edits = EditSet::new();
    edits.push(5, 6, "Z".to_string());
    edits.push(0, 1, "A".to_string());
    assert_eq!(edits.apply("abcdefg"), "AbcdeZg");
}

#[test]
fn apply_drops_overlapping_later_edit() {
    let mut edits = EditSet::new();
    edits.push(2, 4, "late".to_string());
    edits.push(0, 3, "early".to_string());
    assert_eq!(edits.apply("abcdefg"), "earlydefg");
}

#[test]
fn apply_keeps_insertions_at_one_point_in_push_order() {
    let mut edits = EditSet::new();
    edits.push(1, 1, "1".to_string());
    edits.push(1, 1, "2".to_string());
    assert_eq!(edits.apply("ab"), "a12b");
}

#[test]
fn disjoint_edits_commute() {
    let mut one = EditSet::new();
    one.push(0, 1, "X".to_string());
    one.push(3, 4, "Y".to_string());
    let mut two = EditSet::new();
    two.push(3, 4, "Y".to_string());
    two.push(0, 1, "X".to_string());
    assert_eq!(one.apply("abcdef"), two.apply("abcdef"));
}

#[test]
fn apply_counts_bytes() {
    let mut edits = EditSet::new();
    edits.push(2, 4, "-".to_string());
    assert_eq!(edits.apply("éüx"), "é-x");
    let mut edits = EditSet::new();
    edits.push(2, 3, "x".to_string());
    assert_eq!(edits.apply("éab"), "éxb");
}

#[test]
fn apply_keeps_the_broader_of_two_edits_with_one_start() {
    let mut edits = EditSet::new();
    edits.push(0, 6, "Q".to_string());
    edits.push(0, 2, "P".to_string());
    assert_eq!(edits.apply("abcdefgh"), "Qgh");
    let mut edits = EditSet::new();
    edits.push(0, 2, "P".to_string());
    edits.push(0, 6, "Q".to_string());
    assert_eq!(edits.apply("abcdefgh"), "Qgh");
}

#[test]
fn apply_result_does_not_depend_on_push_order() {
    let edits = [(0usize, 2usize, "P"), (1, 4, "Q"), (4, 4, "+"), (5, 7, "R"), (0, 6, "S")];
    let src = "abcdefgh";
    let mut first = EditSet::new();
    for (s, e, r) in edits.iter() {
        first.push(*s, *e, r.to_string());
    }
    let mut second = EditSet::new();
    for (s, e, r) in edits.iter().rev() {
        second.push(*s, *e, r.to_string());
    }
    let a = first.apply(src);
    assert_eq!(a, second.apply(src));
    assert_eq!(a, "Sgh");
}

#[test]
fn apply_keeps_an_insertion_at_the_start_of_another_edit() {
    let mut edits = EditSet::new();
    edits.push(1, 1, "X".to_string());
    edits.push(1, 3, "Y".to_string());
    assert_eq!(edits.apply("abcd"), "aXYd");
    let mut edits = EditSet::new();
    edits.push(1, 3, "Y".to_string());
    edits.push(1, 1, "X".to_string());
    assert_eq!(edits.apply("abcd"), "aXYd");
}

#[test]
fn huge_tab_width_counts_tab_free_text() {
    assert_eq!(longest_line("abc\nde", usize::MAX), 3);
    assert!(any_line_over("xxxx = 'ab'", 7, 11, 10, usize::MAX));
    assert_eq!(visible_column("ab", 2, usize::MAX), 2);
}
