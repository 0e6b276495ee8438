use everdiff::layout::{
    split_at_width, wrap_plain, Column, ColumnPair, Highlight, Highlighted, InlineParts,
    LineContent, LineGroup, Lineable, PrefixedLine,
};

fn with_nr(n: usize, s: &str) -> PrefixedLine {
    PrefixedLine::numbered(n, LineContent::Text(s.to_string()))
}

fn highlighted(s: &str) -> PrefixedLine {
    PrefixedLine::numbered(
        1,
        LineContent::Highlighted(Highlighted::new(s, Highlight::wrap("[hl]", "[/]"))),
    )
}

fn rows(group: LineGroup) -> Vec<String> {
    group.0.into_iter().map(|r| r.0).collect()
}

fn dim() -> Highlight {
    Highlight::wrap("[dim]", "[/]")
}

fn bold() -> Highlight {
    Highlight::wrap("[bold]", "[/]")
}

#[test]
fn column_push_with_nr() {
    let mut col = Column::new(20);
    col.push(with_nr(4, "hello"));
    let row = &col.groups[0].0[0].0;
    // nr=4 (0-based) → displayed as 5
    assert!(row.starts_with("│   5 │ hello"), "got: {row:?}");
}

#[test]
fn column_push_wraps_into_continuation_rows() {
    let mut col = Column::new(14);
    col.push(with_nr(0, "hello world"));
    let group = &col.groups[0].0;
    assert_eq!(group.len(), 3); // "hello", " worl", "d"
    assert!(
        group[0].0.starts_with("│   1 │ hello "),
        "first row: {:?}",
        group[0].0
    );
    assert!(
        group[1].0.starts_with("│   ┆ │  worl "),
        "cont row: {:?}",
        group[1].0
    );
}

#[test]
fn column_blank_adds_filler_rows() {
    let mut col = Column::new(10);
    col.append_blank(3);
    assert_eq!(col.row_count(), 3);
    for g in &col.groups {
        assert_eq!(g.0[0].0.len(), 10, "got: {:?}", g.0[0].0);
        assert!(g.0[0].0.trim().is_empty(), "got: {:?}", g.0[0].0);
    }
}

#[test]
fn column_pair_zip_symmetric() {
    let pair = ColumnPair::new(50);
    let mut left = pair.column();
    let mut right = pair.column();
    left.push(with_nr(1, "left line 1"));
    left.push(with_nr(2, "left line 2"));
    right.push(with_nr(1, "right line 1"));
    right.push(with_nr(2, "right line 2"));

    let lines = pair.zip(left, right);
    assert_eq!(lines.len(), 2);
    assert!(lines[0].starts_with("│ "));
    assert!(lines[0].contains("│ "));
}

#[test]
fn column_pair_zip_asymmetric_wrapping() {
    let pair = ColumnPair::new(30);
    let mut left = pair.column();
    let mut right = pair.column();
    left.push(with_nr(1, "hello world"));
    right.push(with_nr(2, "short"));

    let lines = pair.zip(left, right);
    // left wraps to 2 rows, right has 1 → group produces 2 output lines
    assert_eq!(lines.len(), 2);
}

#[test]
fn highlighted_line_segments_are_styled() {
    let mut col = Column::new(20);
    col.push(highlighted("hello"));
    let row = &col.groups[0].0[0].0;
    assert_eq!(row, "│   2 │ [hl]hello      [/] ")
}

#[test]
fn highlighted_applies_to_each_segment() {
    let h = Highlighted::new("hello world", Highlight::wrap("[x]", "[/x]"));
    let segs = rows(h.as_line_group(5));
    assert_eq!(segs, vec!["[x]hello[/x]", "[x] worl[/x]", "[x]d    [/x]"]);
}

#[test]
fn inline_parts_no_wrap_needed() {
    let mut parts = InlineParts::new();
    parts.push("key: ", dim());
    parts.push("val", bold());
    let segs = rows(parts.as_line_group(20));
    assert_eq!(segs, vec!["[dim]key: [/][bold]val[/]"]);
}

#[test]
fn inline_parts_wraps_across_part_boundary() {
    let mut parts = InlineParts::new();
    parts.push("key: ", dim());
    parts.push("old  new", bold());
    parts.push(" # note", dim());
    let segs = rows(parts.as_line_group(10));
    assert_eq!(
        segs,
        vec!["[dim]key: [/][bold]old  [/]", "[bold]new[/][dim] # note[/]",]
    );
}

#[test]
fn inline_parts_part_split_mid_word() {
    let mut parts = InlineParts::new();
    parts.push("hello", bold());
    let segs = rows(parts.as_line_group(4));
    assert_eq!(segs, vec!["[bold]hell[/]", "[bold]o[/]"]);
}

#[test]
fn inline_parts_empty_produces_one_blank_segment() {
    let parts = InlineParts::new();
    let segs = rows(parts.as_line_group(10));
    assert_eq!(segs, vec!["          "]);
}

#[test]
fn inline_parts_at_width_zero_give_one_empty_row() {
    let mut parts = InlineParts::new();
    parts.push("abc", Highlight::Plain);
    let segs = rows(parts.as_line_group(0));
    assert_eq!(segs, vec![""]);
}

#[test]
fn plain_short_line_no_wrap() {
    assert_eq!(wrap_plain("hello", 10), vec!["hello     "]);
}

#[test]
fn plain_exact_width() {
    assert_eq!(wrap_plain("12345", 5), vec!["12345"]);
}

#[test]
fn plain_exceeds_width() {
    assert_eq!(wrap_plain("1234567890", 5), vec!["12345", "67890"]);
}

#[test]
fn plain_empty_string() {
    assert_eq!(wrap_plain("", 10), vec!["          "]);
}

#[test]
fn plain_unicode_wide_chars() {
    assert_eq!(wrap_plain("漢字テスト", 6), vec!["漢字テ   ", "スト    "]);
}

#[test]
fn split_ascii() {
    assert_eq!(split_at_width("hello world", 5), ("hello", " world"));
}

#[test]
fn split_exact() {
    assert_eq!(split_at_width("hello", 5), ("hello", ""));
}

#[test]
fn split_wide_chars() {
    assert_eq!(split_at_width("漢字", 3), ("漢", "字"));
}

#[test]
fn split_zero_width() {
    assert_eq!(split_at_width("hello", 0), ("", "hello"));
}

#[test]
fn filler_line_is_blank_chrome() {
    let mut col = Column::new(12);
    col.push(PrefixedLine::Filler);
    assert_eq!(col.groups[0].0[0].0, "│     │     ");
}

#[test]
fn prepend_and_prepend_blank_go_on_top() {
    let mut col = Column::new(20);
    col.push(with_nr(1, "second"));
    col.prepend(with_nr(0, "first"));
    col.prepend_blank(2);
    assert_eq!(col.row_count(), 4);
    assert_eq!(col.groups[0].0[0].0, " ".repeat(20));
    assert!(col.groups[2].0[0].0.starts_with("│   1 │ first"));
    assert!(col.groups[3].0[0].0.starts_with("│   2 │ second"));
}

#[test]
fn zip_pads_the_shorter_side_of_each_group() {
    let pair = ColumnPair::new(10);
    let mut left = pair.column();
    let mut right = pair.column();
    left.push("abcdefgh");
    left.push("zz");
    right.push("x");
    right.append_blank(1);
    let lines = pair.zip(left, right);
    assert_eq!(lines, vec!["abcdex    ", "fgh       ", "zz        "]);
}

#[test]
fn line_numbers_grow_past_the_widget_width() {
    let mut col = Column::new(30);
    col.push(with_nr(12344, "x"));
    assert!(col.groups[0].0[0].0.starts_with("│12345 │ x"));
}

#[test]
fn colored_highlight_uses_ansi_codes() {
    assert_eq!(Highlight::Green.apply("ok"), "\x1b[32mok\x1b[39m");
    assert_eq!(Highlight::Dimmed.apply("ok"), "\x1b[2mok\x1b[0m");
    assert_eq!(Highlight::Bold.apply("ok"), "\x1b[1mok\x1b[0m");
    assert_eq!(Highlight::Red.apply("ok"), "\x1b[31mok\x1b[39m");
    assert_eq!(Highlight::Yellow.apply("ok"), "\x1b[33mok\x1b[39m");
}

#[test]
fn ansi_codes_do_not_count_towards_padding() {
    let h = Highlighted::new("ab", Highlight::Green);
    let mut col = Column::new(14);
    col.push(PrefixedLine::numbered(0, LineContent::Highlighted(h)));
    // content width 5: "ab   " styled, then padded by visible width only
    assert_eq!(col.groups[0].0[0].0, "│   1 │ \x1b[32mab   \x1b[39m ");
}

#[test]
fn inline_parts_push_hands_back_the_content() {
    let mut parts = InlineParts::new();
    parts.push("key: ", dim());
    let grown = parts.push("val", bold());
    assert_eq!(grown.parts.len(), 2);
    assert_eq!(grown.parts[1].0, "val");
    assert_eq!(rows(grown.as_line_group(20)), vec!["[dim]key: [/][bold]val[/]"]);
}
