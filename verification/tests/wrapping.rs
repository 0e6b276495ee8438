use everdiff::layout::Highlight;
use everdiff::line::Line;
use everdiff::wrapping::{
    wrap_text, Column, FormattedRow, Segment, SourceLineGroup, WrappedLine, WrappedLineUsize,
};

#[test]
fn wrap_text_short_line_no_wrapping() {
    let segments = wrap_text("hello", 10);
    assert_eq!(segments, vec![Segment("hello".to_string())]);
}

#[test]
fn wrap_text_exact_width() {
    let segments = wrap_text("12345", 5);
    assert_eq!(segments, vec![Segment("12345".to_string())]);
}

#[test]
fn wrap_text_exceeds_width() {
    let segments = wrap_text("1234567890", 5);
    assert_eq!(
        segments,
        vec![Segment("12345".to_string()), Segment("67890".to_string()),]
    );
}

#[test]
fn wrap_text_empty_string() {
    let segments = wrap_text("", 10);
    assert_eq!(segments, vec![Segment("".to_string())]);
}

#[test]
fn wrap_text_single_char() {
    let segments = wrap_text("x", 10);
    assert_eq!(segments, vec![Segment("x".to_string())]);
}

#[test]
fn wrap_text_multi_segment() {
    let segments = wrap_text("abcdefghijklmno", 5);
    assert_eq!(
        segments,
        vec![
            Segment("abcde".to_string()),
            Segment("fghij".to_string()),
            Segment("klmno".to_string()),
        ]
    );
}

#[test]
fn wrap_text_unicode_wide_chars() {
    let segments = wrap_text("漢字テスト", 6);
    assert_eq!(
        segments,
        vec![Segment("漢字テ".to_string()), Segment("スト".to_string()),]
    );
}

#[test]
fn wrap_text_zero_width_is_one_empty_segment() {
    assert_eq!(wrap_text("hello", 0), vec![Segment(String::new())]);
}

#[test]
fn wrapped_line_format_line_numbers() {
    let wl = WrappedLine {
        line_nr: Line::unchecked(5),
        segments: vec![
            Segment("first part".to_string()),
            Segment("second part".to_string()),
        ],
    };

    let group = wl.format(&Highlight::Plain, 20);
    assert_eq!(group.row_count(), 2);

    assert!(group.0[0].0.contains("5"));
    let continuation_prefix = "  ┆ │";
    assert!(group.0[1].0.starts_with(continuation_prefix));
}

#[test]
fn wrapped_line_single_segment_has_line_number() {
    let wl = WrappedLine {
        line_nr: Line::unchecked(3),
        segments: vec![Segment("short".to_string())],
    };

    let group = wl.format(&Highlight::Plain, 20);
    assert_eq!(group.row_count(), 1);
    assert!(group.0[0].0.contains("3"));
}

#[test]
fn wrapped_line_is_padded_to_half_width() {
    let wl = WrappedLine::new(Line::unchecked(12), "abc", 8);
    let group = wl.format(&Highlight::Plain, 8);
    assert_eq!(group.0[0].0, " 12 │ abc     ");
}

#[test]
fn usize_numbered_line_shows_index_plus_one() {
    let wl = WrappedLineUsize {
        line_nr: 0,
        segments: vec![Segment("abc".to_string())],
    };
    let group = wl.format_with_usize(&Highlight::Plain, 4);
    assert_eq!(group.0[0].0, "  1 │ abc ");
}

#[test]
fn column_zip_with_symmetric() {
    let half_width = 20;
    let left = Column(vec![
        SourceLineGroup(vec![FormattedRow("   1 │ left line 1      ".to_string())]),
        SourceLineGroup(vec![FormattedRow("   2 │ left line 2      ".to_string())]),
    ]);
    let right = Column(vec![
        SourceLineGroup(vec![FormattedRow("   1 │ right line 1     ".to_string())]),
        SourceLineGroup(vec![FormattedRow("   2 │ right line 2     ".to_string())]),
    ]);

    let result = left.zip_with(right, half_width);
    assert_eq!(result.len(), 2);
}

#[test]
fn column_zip_with_asymmetric_wrapping() {
    let half_width = 20;
    let left = Column(vec![
        SourceLineGroup(vec![
            FormattedRow("   1 │ left part 1      ".to_string()),
            FormattedRow("     │ left part 2      ".to_string()),
        ]),
        SourceLineGroup(vec![FormattedRow("   2 │ left line 2      ".to_string())]),
    ]);
    let right = Column(vec![
        SourceLineGroup(vec![FormattedRow("   1 │ right line 1     ".to_string())]),
        SourceLineGroup(vec![FormattedRow("   2 │ right line 2     ".to_string())]),
    ]);

    let result = left.zip_with(right, half_width);
    assert_eq!(result.len(), 3);
}

#[test]
fn column_zip_with_fills_missing_rows_with_blanks() {
    let left = Column(vec![SourceLineGroup(vec![
        FormattedRow("a".to_string()),
        FormattedRow("b".to_string()),
    ])]);
    let right = Column(vec![SourceLineGroup(vec![FormattedRow("c".to_string())])]);
    let result = left.zip_with(right, 2);
    assert_eq!(result, vec!["│ a       │ c       ", "│ b       │     │   "]);
}

#[test]
fn column_row_count() {
    let col = Column(vec![
        SourceLineGroup(vec![
            FormattedRow("a".to_string()),
            FormattedRow("b".to_string()),
        ]),
        SourceLineGroup(vec![FormattedRow("c".to_string())]),
    ]);
    assert_eq!(col.row_count(), 3);
}

#[test]
fn line_widget_shows_number_then_continuation_then_filler() {
    let wl = WrappedLine {
        line_nr: Line::unchecked(7),
        segments: vec![
            Segment("first chunk".to_string()),
            Segment("second chunk".to_string()),
        ],
    };

    let group = wl.format(&Highlight::Plain, 20);
    let blank = FormattedRow::blank(20);

    assert!(
        group.0[0].0.starts_with("  7 │"),
        "expected line number, got: {:?}",
        group.0[0].0
    );
    assert!(
        group.0[1].0.starts_with("  ┆ │"),
        "expected continuation, got: {:?}",
        group.0[1].0
    );
    assert!(
        blank.0.starts_with("    │"),
        "expected filler, got: {:?}",
        blank.0
    );
}

#[test]
fn formatted_row_blank() {
    let row = FormattedRow::blank(20);
    assert!(row.0.contains("│"));
    assert!(row.0.len() >= 20);
}
