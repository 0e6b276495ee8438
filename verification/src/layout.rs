//! Side-by-side terminal layout: text is wrapped into fixed-width rows, the
//! rows are grouped per logical line, and two columns of groups are zipped
//! into printable lines.
use crate::text::{
    all_printable_ascii, is_printable_ascii, ansi_width, bold_spec, byte_len, char_width, decimal, decimal_string, digit, dimmed_spec,
    green_spec, pad_left, pad_right, padded_left, padded_right, paint_bold, paint_dimmed,
    paint_green, paint_red, paint_yellow, push_char, push_spaces, red_spec, sat_sub, spaces,
    str_width, visible_width, width_of_char, width_of_str, yellow_spec,
};
use vstd::prelude::*;

verus! {

// ---------------------------------------------------------------------------
// Styling
// ---------------------------------------------------------------------------

/// A styling applied to a piece of plain text.
///
/// `Wrap` puts the text between an opening and a closing marker; the other
/// styles are the ANSI colours of a terminal.
#[derive(Debug)]
pub enum Highlight {
    Plain,
    Wrap { open: String, close: String },
    Green,
    Red,
    Yellow,
    Dimmed,
    Bold,
}

impl Highlight {
    pub open spec fn spec_apply(&self, s: Seq<char>) -> Seq<char> {
        match self {
            Highlight::Plain => s,
            Highlight::Wrap { open, close } => open@ + s + close@,
            Highlight::Green => green_spec(s),
            Highlight::Red => red_spec(s),
            Highlight::Yellow => yellow_spec(s),
            Highlight::Dimmed => dimmed_spec(s),
            Highlight::Bold => bold_spec(s),
        }
    }

    /// A style that wraps the text between `open` and `close`.
    pub fn wrap(open: &str, close: &str) -> (r: Highlight)
        ensures
            forall|s: Seq<char>| #[trigger] r.spec_apply(s) == open@ + s + close@,
    {
        Highlight::Wrap { open: open.to_owned(), close: close.to_owned() }
    }

    /// Style `s`.
    pub fn apply(&self, s: &str) -> (r: String)
        ensures
            r@ == self.spec_apply(s@),
    {
        match self {
            Highlight::Plain => s.to_owned(),
            Highlight::Wrap { open, close } => {
                let mut r = open.clone();
                r.append(s);
                r.append(close.as_str());
                r
            },
            Highlight::Green => paint_green(s),
            Highlight::Red => paint_red(s),
            Highlight::Yellow => paint_yellow(s),
            Highlight::Dimmed => paint_dimmed(s),
            Highlight::Bold => paint_bold(s),
        }
    }

    /// A copy of this style.
    pub fn copy(&self) -> (r: Highlight)
        ensures
            r == *self,
    {
        match self {
            Highlight::Plain => Highlight::Plain,
            Highlight::Wrap { open, close } => Highlight::Wrap { open: open.clone(), close: close.clone() },
            Highlight::Green => Highlight::Green,
            Highlight::Red => Highlight::Red,
            Highlight::Yellow => Highlight::Yellow,
            Highlight::Dimmed => Highlight::Dimmed,
            Highlight::Bold => Highlight::Bold,
        }
    }
}

// ---------------------------------------------------------------------------
// Wrapping plain text
// ---------------------------------------------------------------------------

/// Sum of the display widths of `cs`.
pub open spec fn chars_width(cs: Seq<char>) -> nat
    decreases cs.len(),
{
    if cs.len() == 0 {
        0
    } else {
        char_width(cs[0]) + chars_width(cs.drop_first())
    }
}

/// Flattening a sequence of one sequence gives that sequence.
pub proof fn lemma_flatten_single<A>(e: Seq<A>)
    ensures
        seq![e].flatten() == e,
{
    assert(seq![e].drop_first() =~= Seq::<Seq<A>>::empty());
    assert(Seq::<Seq<A>>::empty().flatten() == Seq::<A>::empty());
    assert(e + Seq::<A>::empty() =~= e);
}

/// Greedy wrapping of the characters `cs` to width `w`, given the segment
/// `cur` (of width `cur_w`) that is being filled: a character joins the
/// current segment unless that would exceed `w` and the segment is not empty,
/// in which case the segment is closed and the character starts the next one.
pub open spec fn wrap_from(cs: Seq<char>, w: int, cur: Seq<char>, cur_w: int) -> Seq<Seq<char>>
    decreases cs.len(),
{
    if cs.len() == 0 {
        if cur.len() > 0 {
            seq![cur]
        } else {
            seq![]
        }
    } else {
        let c = cs[0];
        if cur_w + char_width(c) > w && cur.len() > 0 {
            seq![cur] + wrap_from(cs.drop_first(), w, seq![c], char_width(c) as int)
        } else {
            wrap_from(cs.drop_first(), w, cur.push(c), cur_w + char_width(c))
        }
    }
}

/// The segments of `text` wrapped to width `w` (an empty text is one empty
/// segment).
pub open spec fn wrap_segments(text: Seq<char>, w: int) -> Seq<Seq<char>> {
    if text.len() == 0 {
        seq![seq![]]
    } else {
        wrap_from(text, w, seq![], 0)
    }
}

/// Wrapping keeps every character, in order: the segments of `wrap_from`
/// concatenate to the current segment followed by the rest of the text.
pub proof fn lemma_wrap_from_flatten(cs: Seq<char>, w: int, cur: Seq<char>, cur_w: int)
    ensures
        wrap_from(cs, w, cur, cur_w).flatten() == cur + cs,
    decreases cs.len(),
{
    if cs.len() == 0 {
        if cur.len() > 0 {
            lemma_flatten_single(cur);
            assert(cur + cs =~= cur);
        } else {
            assert(cur + cs =~= Seq::<char>::empty());
        }
    } else {
        let c = cs[0];
        let rest = cs.drop_first();
        if cur_w + char_width(c) > w && cur.len() > 0 {
            lemma_wrap_from_flatten(rest, w, seq![c], char_width(c) as int);
            let tail = wrap_from(rest, w, seq![c], char_width(c) as int);
            vstd::seq_lib::lemma_flatten_concat(seq![cur], tail);
            lemma_flatten_single(cur);
            assert(cur + (seq![c] + rest) =~= cur + cs);
            assert(cur + Seq::<char>::empty() =~= cur);
        } else {
            lemma_wrap_from_flatten(rest, w, cur.push(c), cur_w + char_width(c));
            assert(cur.push(c) + rest =~= cur + cs);
        }
    }
}

/// Wrapping never loses or reorders text: the segments of any text
/// concatenate back to the text.
pub proof fn lemma_wrap_segments_flatten(text: Seq<char>, w: int)
    ensures
        wrap_segments(text, w).flatten() == text,
{
    if text.len() == 0 {
        lemma_flatten_single(Seq::<char>::empty());
    } else {
        lemma_wrap_from_flatten(text, w, seq![], 0);
        assert(Seq::<char>::empty() + text =~= text);
    }
}

/// The rows that `wrap_plain` produces: each segment padded to `w` characters.
pub open spec fn wrap_plain_rows(text: Seq<char>, w: int) -> Seq<Seq<char>> {
    wrap_segments(text, w).map_values(|seg: Seq<char>| pad_right(seg, w))
}

/// The greedy segments of `text` at width `w` (unpadded).
pub fn wrap_chars(text: &str, max_width: usize) -> (segs: Vec<String>)
    requires
        text@.len() <= usize::MAX / 255,
    ensures
        segs@.map_values(|s: String| s@) == wrap_segments(text@, max_width as int),
{
    let n = text.unicode_len();
    let mut segments: Vec<String> = Vec::new();
    if n == 0 {
        segments.push(String::new());
        assert(segments@.map_values(|s: String| s@) =~= seq![Seq::<char>::empty()]);
        return segments;
    }
    let mut current = String::new();
    let mut current_width: usize = 0;
    let mut i: usize = 0;
    assert(text@.skip(0) =~= text@);
    assert(segments@.map_values(|s: String| s@) =~= Seq::<Seq<char>>::empty());
    assert(Seq::<Seq<char>>::empty() + wrap_from(text@, max_width as int, seq![], 0) =~= wrap_from(text@, max_width as int, seq![], 0));
    while i < n
        invariant
            n == text@.len(),
            n <= usize::MAX / 255,
            current_width <= 255 * i,
            0 < n,
            i <= n,
            current@.len() == 0 ==> current_width == 0,
            i > 0 ==> current@.len() > 0,
            wrap_from(text@, max_width as int, seq![], 0) == segments@.map_values(
                |s: String| s@,
            ) + wrap_from(text@.skip(i as int), max_width as int, current@, current_width as int),
        decreases n - i,
    {
        let ch = text.get_char(i);
        let ch_width = width_of_char(ch);
        let ghost rest = text@.skip(i as int);
        assert(rest[0] == ch);
        assert(rest.drop_first() =~= text@.skip(i + 1));
        if current_width.saturating_add(ch_width) > max_width && current.unicode_len() > 0 {
            let ghost old_segs = segments@.map_values(|s: String| s@);
            let ghost old_cur = current@;
            segments.push(current);
            current = String::new();
            push_char(&mut current, ch);
            current_width = ch_width;
            assert(segments@.map_values(|s: String| s@) =~= old_segs.push(old_cur));
            assert(current@ =~= seq![ch]);
            assert(old_segs + (seq![old_cur] + wrap_from(text@.skip(i + 1), max_width as int, current@, current_width as int))
                =~= old_segs.push(old_cur) + wrap_from(text@.skip(i + 1), max_width as int, current@, current_width as int));
        } else {
            push_char(&mut current, ch);
            assert(current_width + ch_width <= 255 * (i + 1)) by (nonlinear_arith)
                requires current_width <= 255 * i, ch_width <= 255;
            current_width = current_width + ch_width;
        }
        i = i + 1;
    }
    assert(text@.skip(n as int) =~= Seq::<char>::empty());
    let ghost segs_before = segments@.map_values(|s: String| s@);
    let ghost cur_final = current@;
    if current.unicode_len() > 0 {
        segments.push(current);
        assert(segments@.map_values(|s: String| s@) =~= segs_before.push(cur_final));
        assert(segs_before + seq![cur_final] =~= segs_before.push(cur_final));
    } else {
        assert(segs_before + Seq::<Seq<char>>::empty() =~= segs_before);
    }
    segments
}

/// Split plain text into rows that each fit within `max_width` visible
/// columns, each padded with spaces to `max_width` characters.
pub fn wrap_plain(text: &str, max_width: u16) -> (rows: Vec<String>)
    requires
        text@.len() <= usize::MAX / 255,
    ensures
        rows@.map_values(|s: String| s@) == wrap_plain_rows(text@, max_width as int),
{
    let segs = wrap_chars(text, max_width as usize);
    let mut rows: Vec<String> = Vec::new();
    let mut i: usize = 0;
    while i < segs.len()
        invariant
            i <= segs.len(),
            segs@.map_values(|s: String| s@) == wrap_segments(text@, max_width as int),
            rows@.map_values(|s: String| s@) == wrap_plain_rows(text@, max_width as int).take(i as int),
        decreases segs.len() - i,
    {
        let padded = padded_right(segs[i].as_str(), max_width as usize);
        let ghost old_rows = rows@.map_values(|s: String| s@);
        rows.push(padded);
        proof {
            assert(rows@.map_values(|s: String| s@) =~= old_rows.push(padded@));
            let ws = wrap_segments(text@, max_width as int);
            assert(segs@.map_values(|s: String| s@)[i as int] == segs@[i as int]@);
            assert(wrap_plain_rows(text@, max_width as int)[i as int] == pad_right(ws[i as int], max_width as int));
            assert(rows@.map_values(|s: String| s@) =~= wrap_plain_rows(text@, max_width as int).take(i + 1));
        }
        i = i + 1;
    }
    assert(wrap_plain_rows(text@, max_width as int).take(segs.len() as int) =~= wrap_plain_rows(text@, max_width as int));
    rows
}

/// The number of leading characters of `cs` that fit within `w` columns.
pub open spec fn fit_prefix(cs: Seq<char>, w: int) -> nat
    decreases cs.len(),
{
    if cs.len() == 0 || char_width(cs[0]) > w {
        0
    } else {
        1 + fit_prefix(cs.drop_first(), w - char_width(cs[0]))
    }
}

pub proof fn lemma_fit_prefix_bound(cs: Seq<char>, w: int)
    ensures
        fit_prefix(cs, w) <= cs.len(),
    decreases cs.len(),
{
    if cs.len() > 0 && char_width(cs[0]) <= w {
        lemma_fit_prefix_bound(cs.drop_first(), w - char_width(cs[0]));
    }
}

/// Split `text` where `max_width` visible columns are used up: the longest
/// prefix whose characters fit, and the rest.
pub fn split_at_width(text: &str, max_width: u16) -> (r: (&str, &str))
    ensures
        r.0@ == text@.take(fit_prefix(text@, max_width as int) as int),
        r.1@ == text@.skip(fit_prefix(text@, max_width as int) as int),
{
    let n = text.unicode_len();
    let mut width: usize = 0;
    let mut i: usize = 0;
    let mut stopped = false;
    let ghost w = max_width as int;
    assert(text@.skip(0) =~= text@);
    while i < n && !stopped
        invariant
            n == text@.len(),
            i <= n,
            width <= max_width,
            w == max_width as int,
            fit_prefix(text@, w) == i + fit_prefix(text@.skip(i as int), w - width),
            stopped ==> fit_prefix(text@.skip(i as int), w - width) == 0,
        decreases n - i, if stopped { 0int } else { 1int },
    {
        let ch = text.get_char(i);
        let ch_w = width_of_char(ch);
        let ghost rest = text@.skip(i as int);
        assert(rest[0] == ch);
        assert(rest.drop_first() =~= text@.skip(i + 1));
        assert(rest.len() > 0);
        assert(char_width(rest[0]) == ch_w);
        if width + ch_w > max_width as usize {
            assert(fit_prefix(rest, w - width) == 0);
            stopped = true;
        } else {
            assert(fit_prefix(rest, w - width) == 1 + fit_prefix(rest.drop_first(), w - width - ch_w));
            width = width + ch_w;
            i = i + 1;
        }
    }
    proof {
        lemma_fit_prefix_bound(text@, w);
    }
    (text.substring_char(0, i), text.substring_char(i, n))
}

// ---------------------------------------------------------------------------
// Rows, groups and the line-number chrome
// ---------------------------------------------------------------------------

/// A single terminal output row, already padded to its column's width.
#[derive(Debug)]
pub struct FormattedRow(pub String);

/// All display rows produced from one logical line.
#[derive(Debug)]
pub struct LineGroup(pub Vec<FormattedRow>);

impl LineGroup {
    pub open spec fn rows(&self) -> Seq<Seq<char>> {
        self.0@.map_values(|r: FormattedRow| r.0@)
    }
}

impl FormattedRow {
    /// A row of `content_width` spaces.
    pub fn blank(content_width: u16) -> (r: FormattedRow)
        ensures
            r.0@ == spaces(content_width as nat),
    {
        let s = padded_right("", content_width as usize);
        proof {
            reveal_strlit("");
            assert(s@ =~= spaces(content_width as nat));
        }
        FormattedRow(s)
    }
}

/// The decimal digits of `n + 1`, computed without overflow.
pub fn decimal_of_successor(n: usize) -> (r: String)
    ensures
        r@ == decimal(n as nat + 1),
    decreases n,
{
    if n < 9 {
        decimal_string(n + 1)
    } else {
        let q = n / 10;
        let d = n % 10;
        assert(n == 10 * q + d);
        if d < 9 {
            let mut r = decimal_string(q);
            push_char(&mut r, digit(d + 1));
            assert((n + 1) / 10 == q && (n + 1) % 10 == d + 1);
            assert(n as nat + 1 >= 10);
            r
        } else {
            let mut r = decimal_of_successor(q);
            push_char(&mut r, '0');
            assert((n as nat + 1) / 10 == q as nat + 1 && (n as nat + 1) % 10 == 0);
            r
        }
    }
}

/// The slot between the `│` separators: a line number, a continuation mark
/// or nothing.
pub enum LineWidget {
    /// A real line number, stored 0-based and shown as `idx + 1`.
    Nr(usize),
    /// The wrapped continuation of the line above.
    Continuation,
    /// No line number.
    Filler,
}

impl LineWidget {
    pub open spec fn spec_text(&self) -> Seq<char> {
        match self {
            LineWidget::Nr(idx) => pad_left(decimal(*idx as nat + 1), 4) + seq![' '],
            LineWidget::Continuation => seq![' ', ' ', ' ', '┆', ' '],
            LineWidget::Filler => spaces(5),
        }
    }

    /// The widget as it is printed.
    pub fn text(&self) -> (r: String)
        ensures
            r@ == self.spec_text(),
    {
        match self {
            LineWidget::Nr(idx) => {
                let digits = decimal_of_successor(*idx);
                let mut r = padded_left(digits.as_str(), 4);
                push_char(&mut r, ' ');
                r
            },
            LineWidget::Continuation => {
                let mut r = String::new();
                push_spaces(&mut r, 3);
                push_char(&mut r, '┆');
                push_char(&mut r, ' ');
                assert(r@ =~= seq![' ', ' ', ' ', '┆', ' ']);
                r
            },
            LineWidget::Filler => {
                let mut r = String::new();
                push_spaces(&mut r, 5);
                r
            },
        }
    }
}

/// Visible columns that the line-number chrome takes on each row.
pub const CHROME: u16 = 9;

/// The invisible characters of `s`: bytes beyond its visible width.
pub open spec fn byte_extras(s: Seq<char>) -> int {
    sat_sub(byte_len(s), ansi_width(s) as int)
}

pub open spec fn sat_add(a: int, b: int) -> int {
    if a + b > usize::MAX {
        usize::MAX as int
    } else {
        a + b
    }
}

/// `│<widget>│ <value padded to visual_width visible columns> `.
pub open spec fn chrome_row(widget: Seq<char>, value: Seq<char>, visual_width: int) -> Seq<char> {
    seq!['│'] + widget + seq!['│', ' '] + pad_right(
        value,
        sat_add(visual_width, byte_extras(value)),
    ) + seq![' ']
}

/// Bytes of `s` beyond its visible width.
pub fn extras_of(s: &str) -> (r: usize)
    ensures
        r == byte_extras(s@),
{
    let bytes = s.len();
    let visible = visible_width(s);
    if bytes >= visible {
        bytes - visible
    } else {
        0
    }
}

fn format_chrome_row(widget: LineWidget, value: &str, visual_width: usize) -> (r: FormattedRow)
    ensures
        r.0@ == chrome_row(widget.spec_text(), value@, visual_width as int),
{
    let extras = extras_of(value);
    let required = visual_width.saturating_add(extras);
    let mut r = String::new();
    push_char(&mut r, '│');
    let w = widget.text();
    r.append(w.as_str());
    push_char(&mut r, '│');
    push_char(&mut r, ' ');
    let padded = padded_right(value, required);
    r.append(padded.as_str());
    push_char(&mut r, ' ');
    assert(r@ =~= chrome_row(widget.spec_text(), value@, visual_width as int));
    FormattedRow(r)
}


// ---------------------------------------------------------------------------
// Things that can be laid out in a column
// ---------------------------------------------------------------------------

/// A value that can be rendered into rows at a fixed column width.
pub trait Lineable {
    /// Whether rendering at `content_width` terminates without overflow.
    spec fn can_render(&self, content_width: u16) -> bool;

    /// The rows (as characters) that rendering at `content_width` produces.
    spec fn rows_at(&self, content_width: u16) -> Seq<Seq<char>>;

    fn as_line_group(&self, content_width: u16) -> (g: LineGroup)
        requires
            self.can_render(content_width),
        ensures
            g.rows() == self.rows_at(content_width),
    ;
}

/// Plain rows for plain text.
fn plain_group(text: &str, content_width: u16) -> (g: LineGroup)
    requires
        text@.len() <= usize::MAX / 255,
    ensures
        g.rows() == wrap_plain_rows(text@, content_width as int),
{
    let rows = wrap_plain(text, content_width);
    let mut out: Vec<FormattedRow> = Vec::new();
    let mut i: usize = 0;
    while i < rows.len()
        invariant
            i <= rows.len(),
            rows@.map_values(|s: String| s@) == wrap_plain_rows(text@, content_width as int),
            out@.map_values(|r: FormattedRow| r.0@) == wrap_plain_rows(text@, content_width as int).take(i as int),
        decreases rows.len() - i,
    {
        let ghost old_out = out@.map_values(|r: FormattedRow| r.0@);
        out.push(FormattedRow(rows[i].clone()));
        proof {
            assert(rows@.map_values(|s: String| s@)[i as int] == rows@[i as int]@);
            assert(out@.map_values(|r: FormattedRow| r.0@) =~= old_out.push(rows@[i as int]@));
            assert(out@.map_values(|r: FormattedRow| r.0@) =~= wrap_plain_rows(text@, content_width as int).take(i + 1));
        }
        i = i + 1;
    }
    assert(wrap_plain_rows(text@, content_width as int).take(rows.len() as int) =~= wrap_plain_rows(text@, content_width as int));
    LineGroup(out)
}

impl Lineable for String {
    open spec fn can_render(&self, content_width: u16) -> bool {
        self@.len() <= usize::MAX / 255
    }

    open spec fn rows_at(&self, content_width: u16) -> Seq<Seq<char>> {
        wrap_plain_rows(self@, content_width as int)
    }

    fn as_line_group(&self, content_width: u16) -> (g: LineGroup) {
        plain_group(self.as_str(), content_width)
    }
}

impl<'a> Lineable for &'a str {
    open spec fn can_render(&self, content_width: u16) -> bool {
        self@.len() <= usize::MAX / 255
    }

    open spec fn rows_at(&self, content_width: u16) -> Seq<Seq<char>> {
        wrap_plain_rows(self@, content_width as int)
    }

    fn as_line_group(&self, content_width: u16) -> (g: LineGroup) {
        plain_group(*self, content_width)
    }
}

/// Content styled uniformly: the text is wrapped first, then each padded
/// segment is styled.
pub struct Highlighted {
    pub text: String,
    pub highlight: Highlight,
}

impl Highlighted {
    pub fn new(text: &str, highlight: Highlight) -> (r: Highlighted)
        ensures
            r.text@ == text@,
            r.highlight == highlight,
    {
        Highlighted { text: text.to_owned(), highlight }
    }
}

impl Lineable for Highlighted {
    open spec fn can_render(&self, content_width: u16) -> bool {
        self.text@.len() <= usize::MAX / 255
    }

    open spec fn rows_at(&self, content_width: u16) -> Seq<Seq<char>> {
        wrap_plain_rows(self.text@, content_width as int).map_values(
            |seg: Seq<char>| self.highlight.spec_apply(seg),
        )
    }

    fn as_line_group(&self, content_width: u16) -> (g: LineGroup) {
        let rows = wrap_plain(self.text.as_str(), content_width);
        let ghost target = self.rows_at(content_width);
        let mut out: Vec<FormattedRow> = Vec::new();
        let mut i: usize = 0;
        while i < rows.len()
            invariant
                i <= rows.len(),
                target == self.rows_at(content_width),
                rows@.map_values(|s: String| s@) == wrap_plain_rows(self.text@, content_width as int),
                out@.map_values(|r: FormattedRow| r.0@) == target.take(i as int),
            decreases rows.len() - i,
        {
            let ghost old_out = out@.map_values(|r: FormattedRow| r.0@);
            let styled = self.highlight.apply(rows[i].as_str());
            out.push(FormattedRow(styled));
            proof {
                assert(rows@.map_values(|s: String| s@)[i as int] == rows@[i as int]@);
                assert(target[i as int] == self.highlight.spec_apply(rows@[i as int]@));
                assert(out@.map_values(|r: FormattedRow| r.0@) =~= old_out.push(styled@));
                assert(out@.map_values(|r: FormattedRow| r.0@) =~= target.take(i + 1));
            }
            i = i + 1;
        }
        assert(target.take(rows.len() as int) =~= target);
        LineGroup(out)
    }
}

/// Content made of spans that each carry their own style.
pub struct InlineParts {
    pub parts: Vec<(String, Highlight)>,
}

/// Pad `s` to `w` visible columns: the fill counts characters, so the
/// invisible bytes of `s` are added to the field width.
pub open spec fn pad_visible(s: Seq<char>, w: int) -> Seq<char> {
    pad_right(s, sat_add(w, byte_extras(s)))
}

/// The spans of inline content as text and style.
pub open spec fn spans_view(parts: Seq<(String, Highlight)>) -> Seq<(Seq<char>, Highlight)> {
    parts.map_values(|p: (String, Highlight)| (p.0@, p.1))
}

/// The text of part `pi`, or nothing past the end.
pub open spec fn part_text(parts: Seq<(Seq<char>, Highlight)>, pi: int) -> Seq<char> {
    if 0 <= pi < parts.len() {
        parts[pi].0
    } else {
        seq![]
    }
}

/// Filling fixed-width rows with styled spans.
///
/// State: part `pi` with `rem` still to place, the row `cur` being filled
/// (of visible width `cur_w`) and the finished rows `acc`. Each step places
/// the longest prefix of `rem` that fits in the space left on the row,
/// styled with the part's style; a full row is closed when text remains.
/// `None` where the rendering loop would not finish (a character wider than
/// the space that can be made for it) or would overflow.
pub open spec fn inline_go(
    parts: Seq<(Seq<char>, Highlight)>,
    w: int,
    pi: int,
    rem: Seq<char>,
    cur: Seq<char>,
    cur_w: int,
    acc: Seq<Seq<char>>,
) -> Option<Seq<Seq<char>>>
    decreases (if 0 <= pi < parts.len() { parts.len() - pi } else { 0 }), rem.len(), (if cur_w > 0 { 1int } else { 0int }),
{
    if w <= 0 {
        Some(acc)
    } else if pi < 0 || pi >= parts.len() {
        Some(if cur.len() > 0 || acc.len() == 0 { acc.push(pad_visible(cur, w)) } else { acc })
    } else if rem.len() == 0 {
        inline_go(parts, w, pi + 1, part_text(parts, pi + 1), cur, cur_w, acc)
    } else {
        let avail = sat_sub(w, cur_w);
        let k = fit_prefix(rem, avail);
        let fits = rem.take(k as int);
        let rest = rem.skip(k as int);
        if k > 0 && cur_w + str_width(fits) > usize::MAX {
            None
        } else {
            let cur2 = if k > 0 { cur + parts[pi].1.spec_apply(fits) } else { cur };
            let w2 = if k > 0 { cur_w + str_width(fits) } else { cur_w };
            proof {
                lemma_fit_prefix_bound(rem, avail);
            }
            if w2 >= w && rest.len() > 0 {
                inline_go(parts, w, pi, rest, seq![], 0, acc.push(pad_visible(cur2, w)))
            } else if k == 0 {
                None
            } else {
                inline_go(parts, w, pi, rest, cur2, w2, acc)
            }
        }
    }
}

/// The rows of `parts` at width `w` (`None` where rendering would not
/// finish). At width 0 nothing fits, and the group is one empty row.
pub open spec fn inline_rows(parts: Seq<(Seq<char>, Highlight)>, w: int) -> Option<Seq<Seq<char>>> {
    if w == 0 {
        Some(seq![seq![]])
    } else {
        inline_go(parts, w, 0, part_text(parts, 0), seq![], 0, seq![])
    }
}

/// Over printable ASCII each character takes one column, so the longest
/// prefix that fits in `a` columns has `a` characters, or all of them.
proof fn lemma_fit_ascii(cs: Seq<char>, a: int)
    requires
        all_printable_ascii(cs),
        a >= 0,
    ensures
        fit_prefix(cs, a) == if cs.len() <= a { cs.len() as int } else { a },
    decreases cs.len(),
{
    reveal(char_width);
    if cs.len() > 0 {
        assert(is_printable_ascii(cs[0]));
        if a >= 1 {
            assert(all_printable_ascii(cs.drop_first())) by {
                assert forall|i: int| 0 <= i < cs.drop_first().len() implies #[trigger] is_printable_ascii(
                    cs.drop_first()[i],
                ) by {
                    assert(cs.drop_first()[i] == cs[i + 1]);
                }
            }
            lemma_fit_ascii(cs.drop_first(), a - 1);
        }
    }
}

/// Filling rows with spans of printable ASCII always finishes: with room
/// left a row takes at least one more character, and a full row is closed.
pub proof fn lemma_inline_ascii_renders(
    parts: Seq<(Seq<char>, Highlight)>,
    w: int,
    pi: int,
    rem: Seq<char>,
    cur: Seq<char>,
    cur_w: int,
    acc: Seq<Seq<char>>,
)
    requires
        1 <= w <= u16::MAX,
        0 <= cur_w <= w,
        all_printable_ascii(rem),
        forall|j: int| 0 <= j < parts.len() ==> all_printable_ascii(#[trigger] parts[j].0),
    ensures
        inline_go(parts, w, pi, rem, cur, cur_w, acc) is Some,
    decreases (if 0 <= pi < parts.len() { parts.len() - pi } else { 0 }), rem.len(), (if cur_w > 0 { 1int } else { 0int }),
{
    if pi < 0 || pi >= parts.len() {
    } else if rem.len() == 0 {
        if pi + 1 < parts.len() {
            assert(all_printable_ascii(parts[pi + 1].0));
        }
        lemma_inline_ascii_renders(parts, w, pi + 1, part_text(parts, pi + 1), cur, cur_w, acc);
    } else {
        let avail = sat_sub(w, cur_w);
        lemma_fit_ascii(rem, avail);
        let k = fit_prefix(rem, avail);
        let fits = rem.take(k as int);
        let rest = rem.skip(k as int);
        assert(all_printable_ascii(fits)) by {
            assert forall|i: int| 0 <= i < fits.len() implies #[trigger] is_printable_ascii(fits[i]) by {
                assert(fits[i] == rem[i]);
            }
        }
        assert(all_printable_ascii(rest)) by {
            assert forall|i: int| 0 <= i < rest.len() implies #[trigger] is_printable_ascii(rest[i]) by {
                assert(rest[i] == rem[i + k]);
            }
        }
        assert(str_width(fits) == k) by {
            reveal(str_width);
        }
        let cur2 = if k > 0 { cur + parts[pi].1.spec_apply(fits) } else { cur };
        let w2 = if k > 0 { cur_w + str_width(fits) } else { cur_w };
        if w2 >= w && rest.len() > 0 {
            lemma_inline_ascii_renders(parts, w, pi, rest, seq![], 0, acc.push(pad_visible(cur2, w)));
        } else {
            lemma_inline_ascii_renders(parts, w, pi, rest, cur2, w2, acc);
        }
    }
}

/// Filling rows always ends with at least one row.
proof fn lemma_inline_go_rows(
    parts: Seq<(Seq<char>, Highlight)>,
    w: int,
    pi: int,
    rem: Seq<char>,
    cur: Seq<char>,
    cur_w: int,
    acc: Seq<Seq<char>>,
)
    requires
        w > 0,
    ensures
        inline_go(parts, w, pi, rem, cur, cur_w, acc) matches Some(rows) ==> rows.len() >= 1,
    decreases (if 0 <= pi < parts.len() { parts.len() - pi } else { 0 }), rem.len(), (if cur_w > 0 { 1int } else { 0int }),
{
    if pi < 0 || pi >= parts.len() {
    } else if rem.len() == 0 {
        lemma_inline_go_rows(parts, w, pi + 1, part_text(parts, pi + 1), cur, cur_w, acc);
    } else {
        let avail = sat_sub(w, cur_w);
        lemma_fit_prefix_bound(rem, avail);
        let k = fit_prefix(rem, avail);
        let fits = rem.take(k as int);
        let rest = rem.skip(k as int);
        if !(k > 0 && cur_w + str_width(fits) > usize::MAX) {
            let cur2 = if k > 0 { cur + parts[pi].1.spec_apply(fits) } else { cur };
            let w2 = if k > 0 { cur_w + str_width(fits) } else { cur_w };
            if w2 >= w && rest.len() > 0 {
                lemma_inline_go_rows(parts, w, pi, rest, seq![], 0, acc.push(pad_visible(cur2, w)));
            } else if k > 0 {
                lemma_inline_go_rows(parts, w, pi, rest, cur2, w2, acc);
            }
        }
    }
}

/// Inline content that renders gives at least one row, at any width.
pub proof fn lemma_inline_rows_nonempty(parts: Seq<(Seq<char>, Highlight)>, w: u16)
    ensures
        inline_rows(parts, w as int) matches Some(rows) ==> rows.len() >= 1,
{
    if w > 0 {
        lemma_inline_go_rows(parts, w as int, 0, part_text(parts, 0), seq![], 0, seq![]);
    }
}

/// Inline content made of printable ASCII renders at every width.
pub proof fn lemma_inline_rows_ascii(parts: Seq<(Seq<char>, Highlight)>, w: u16)
    requires
        forall|j: int| 0 <= j < parts.len() ==> all_printable_ascii(#[trigger] parts[j].0),
    ensures
        inline_rows(parts, w as int) is Some,
{
    if w > 0 {
        if parts.len() > 0 {
            assert(all_printable_ascii(parts[0].0));
        }
        lemma_inline_ascii_renders(parts, w as int, 0, part_text(parts, 0), seq![], 0, seq![]);
    }
}

/// `s` padded to `width` visible columns.
fn pad(original: &str, width: u16) -> (r: String)
    ensures
        r@ == pad_visible(original@, width as int),
{
    let extras = extras_of(original);
    padded_right(original, (width as usize).saturating_add(extras))
}

impl InlineParts {
    pub fn new() -> (r: InlineParts)
        ensures
            r.parts@.len() == 0,
    {
        InlineParts { parts: Vec::new() }
    }

    /// Append a span with its style.
    pub fn push(&mut self, text: &str, highlight: Highlight) -> (r: &InlineParts)
        ensures
            final(self).parts@.len() == old(self).parts@.len() + 1,
            final(self).parts@.drop_last() == old(self).parts@,
            final(self).parts@.last().0@ == text@,
            final(self).parts@.last().1 == highlight,
            *r == *final(self),
    {
        self.parts.push((text.to_owned(), highlight));
        assert(self.parts@.drop_last() =~= old(self).parts@);
        self
    }
}

impl Lineable for InlineParts {
    open spec fn can_render(&self, content_width: u16) -> bool {
        inline_rows(spans_view(self.parts@), content_width as int) is Some
    }

    open spec fn rows_at(&self, content_width: u16) -> Seq<Seq<char>> {
        inline_rows(spans_view(self.parts@), content_width as int)->0
    }

    fn as_line_group(&self, width: u16) -> (g: LineGroup) {
        if width == 0 {
            let mut one: Vec<FormattedRow> = Vec::new();
            one.push(FormattedRow(String::new()));
            assert(one@.map_values(|r: FormattedRow| r.0@) =~= seq![Seq::<char>::empty()]);
            return LineGroup(one);
        }
        let ghost parts = spans_view(self.parts@);
        let ghost w = width as int;
        let ghost result = inline_rows(parts, w);
        let width_usize = width as usize;
        let mut segments: Vec<FormattedRow> = Vec::new();
        let mut current = String::new();
        let mut current_width: usize = 0;
        let mut pi: usize = 0;
        let n_parts = self.parts.len();
        assert(segments@.map_values(|r: FormattedRow| r.0@) =~= Seq::<Seq<char>>::empty());
        while pi < n_parts
            invariant
                n_parts == parts.len(),
                parts == spans_view(self.parts@),
                w == width as int,
                width_usize == width as usize,
                w > 0,
                pi <= n_parts,
                result is Some,
                result == inline_rows(parts, w),
                inline_go(parts, w, pi as int, part_text(parts, pi as int), current@, current_width as int,
                    segments@.map_values(|r: FormattedRow| r.0@)) == result,
            decreases n_parts - pi,
        {
            let text = &self.parts[pi].0;
            let highlight = &self.parts[pi].1;
            assert(parts[pi as int] == (text@, *highlight));
            let mut remaining: &str = text.as_str();
            while remaining.unicode_len() > 0
                invariant
                    n_parts == parts.len(),
                    parts == spans_view(self.parts@),
                    w == width as int,
                    width_usize == width as usize,
                    w > 0,
                    pi < n_parts,
                    *highlight == parts[pi as int].1,
                    result is Some,
                    inline_go(parts, w, pi as int, remaining@, current@, current_width as int,
                        segments@.map_values(|r: FormattedRow| r.0@)) == result,
                decreases remaining@.len(), if current_width > 0 { 1int } else { 0int },
            {
                let remaining_available_space = width_usize.saturating_sub(current_width);
                let (fits, rest) = split_at_width(remaining, remaining_available_space as u16);
                let ghost k = fit_prefix(remaining@, sat_sub(w, current_width as int));
                proof {
                    lemma_fit_prefix_bound(remaining@, sat_sub(w, current_width as int));
                }
                let nfits = fits.unicode_len();
                if nfits > 0 {
                    let styled = highlight.apply(fits);
                    current.append(styled.as_str());
                    let fw = width_of_str(fits);
                    current_width = current_width + fw;
                }
                remaining = rest;
                if current_width >= width_usize && remaining.unicode_len() > 0 {
                    let ghost old_segs = segments@.map_values(|r: FormattedRow| r.0@);
                    let padded = pad(current.as_str(), width);
                    segments.push(FormattedRow(padded));
                    assert(segments@.map_values(|r: FormattedRow| r.0@) =~= old_segs.push(padded@));
                    current = String::new();
                    current_width = 0;
                }
            }
            pi = pi + 1;
        }
        let ghost segs = segments@.map_values(|r: FormattedRow| r.0@);
        if current.unicode_len() > 0 || segments.len() == 0 {
            let padded = pad(current.as_str(), width);
            segments.push(FormattedRow(padded));
            assert(segments@.map_values(|r: FormattedRow| r.0@) =~= segs.push(padded@));
        }
        LineGroup(segments)
    }
}

/// What a numbered line displays after its chrome.
pub enum LineContent {
    Text(String),
    Highlighted(Highlighted),
    Inline(InlineParts),
}

impl Lineable for LineContent {
    open spec fn can_render(&self, content_width: u16) -> bool {
        match self {
            LineContent::Text(t) => t.can_render(content_width),
            LineContent::Highlighted(h) => h.can_render(content_width),
            LineContent::Inline(p) => p.can_render(content_width),
        }
    }

    open spec fn rows_at(&self, content_width: u16) -> Seq<Seq<char>> {
        match self {
            LineContent::Text(t) => t.rows_at(content_width),
            LineContent::Highlighted(h) => h.rows_at(content_width),
            LineContent::Inline(p) => p.rows_at(content_width),
        }
    }

    fn as_line_group(&self, content_width: u16) -> (g: LineGroup) {
        match self {
            LineContent::Text(t) => t.as_line_group(content_width),
            LineContent::Highlighted(h) => h.as_line_group(content_width),
            LineContent::Inline(p) => p.as_line_group(content_width),
        }
    }
}

/// Content decorated with a line-number prefix (`│ nr │`), or a blank
/// placeholder of the same chrome.
pub enum PrefixedLine {
    /// A content line; `nr` is 0-based and shown as `nr + 1`.
    Numbered { nr: usize, content: LineContent },
    /// A blank placeholder used to align the two sides.
    Filler,
}

/// The width left for content once the chrome is taken off.
pub open spec fn inner_width(content_width: u16) -> u16 {
    sat_sub(content_width as int, CHROME as int) as u16
}

/// The rows of a numbered line: the first row carries the number, later rows
/// the continuation mark.
pub open spec fn numbered_rows(nr: usize, inner: Seq<Seq<char>>, actual: int) -> Seq<Seq<char>> {
    Seq::new(
        inner.len(),
        |i: int|
            chrome_row(
                if i == 0 { LineWidget::Nr(nr).spec_text() } else { LineWidget::Continuation.spec_text() },
                inner[i],
                actual,
            ),
    )
}

impl PrefixedLine {
    /// A numbered line showing `content`.
    pub fn numbered(nr: usize, content: LineContent) -> (r: PrefixedLine)
        ensures
            r == (PrefixedLine::Numbered { nr, content }),
    {
        PrefixedLine::Numbered { nr, content }
    }
}

impl Lineable for PrefixedLine {
    open spec fn can_render(&self, content_width: u16) -> bool {
        match self {
            PrefixedLine::Numbered { content, .. } => content.can_render(inner_width(content_width)),
            PrefixedLine::Filler => true,
        }
    }

    open spec fn rows_at(&self, content_width: u16) -> Seq<Seq<char>> {
        let actual = inner_width(content_width);
        match self {
            PrefixedLine::Numbered { nr, content } => numbered_rows(*nr, content.rows_at(actual), actual as int),
            PrefixedLine::Filler => seq![chrome_row(LineWidget::Filler.spec_text(), seq![], actual as int)],
        }
    }

    fn as_line_group(&self, content_width: u16) -> (g: LineGroup) {
        let actual_width_u16 = content_width.saturating_sub(CHROME);
        let actual_width = actual_width_u16 as usize;
        match self {
            PrefixedLine::Numbered { nr, content } => {
                let inner = content.as_line_group(actual_width_u16);
                let ghost target = self.rows_at(content_width);
                let mut rows: Vec<FormattedRow> = Vec::new();
                let mut i: usize = 0;
                while i < inner.0.len()
                    invariant
                        i <= inner.0.len(),
                        inner.rows() == content.rows_at(actual_width_u16),
                        target == numbered_rows(*nr, inner.rows(), actual_width as int),
                        rows@.map_values(|r: FormattedRow| r.0@) == target.take(i as int),
                    decreases inner.0.len() - i,
                {
                    let widget = if i == 0 { LineWidget::Nr(*nr) } else { LineWidget::Continuation };
                    let ghost old_rows = rows@.map_values(|r: FormattedRow| r.0@);
                    let row = format_chrome_row(widget, inner.0[i].0.as_str(), actual_width);
                    rows.push(row);
                    proof {
                        assert(inner.rows()[i as int] == inner.0@[i as int].0@);
                        assert(rows@.map_values(|r: FormattedRow| r.0@) =~= old_rows.push(target[i as int]));
                        assert(rows@.map_values(|r: FormattedRow| r.0@) =~= target.take(i + 1));
                    }
                    i = i + 1;
                }
                assert(target.take(inner.0.len() as int) =~= target);
                LineGroup(rows)
            },
            PrefixedLine::Filler => {
                let row = format_chrome_row(LineWidget::Filler, "", actual_width);
                let mut rows: Vec<FormattedRow> = Vec::new();
                rows.push(row);
                proof {
                    reveal_strlit("");
                    assert(rows@.map_values(|r: FormattedRow| r.0@) =~= self.rows_at(content_width));
                }
                LineGroup(rows)
            },
        }
    }
}


// ---------------------------------------------------------------------------
// Columns
// ---------------------------------------------------------------------------

/// The rows of each group of a column.
pub open spec fn groups_rows(groups: Seq<LineGroup>) -> Seq<Seq<Seq<char>>> {
    groups.map_values(|g: LineGroup| g.rows())
}

/// The total number of rows over all groups.
pub open spec fn total_rows(groups: Seq<Seq<Seq<char>>>) -> int
    decreases groups.len(),
{
    if groups.len() == 0 {
        0
    } else {
        total_rows(groups.drop_last()) + groups.last().len()
    }
}

/// One side of a two-column view: a sequence of groups of rows.
pub struct Column {
    /// Visible columns available for content.
    pub content_width: u16,
    pub groups: Vec<LineGroup>,
}

impl Column {
    pub open spec fn rows(&self) -> Seq<Seq<Seq<char>>> {
        groups_rows(self.groups@)
    }

    /// An empty column of the given content width.
    pub fn new(content_width: u16) -> (r: Column)
        ensures
            r.content_width == content_width,
            r.rows() == Seq::<Seq<Seq<char>>>::empty(),
    {
        let r = Column { content_width, groups: Vec::new() };
        assert(r.rows() =~= Seq::<Seq<Seq<char>>>::empty());
        r
    }

    /// Append a line at the bottom.
    pub fn push<L: Lineable>(&mut self, line: L)
        requires
            line.can_render(old(self).content_width),
        ensures
            final(self).content_width == old(self).content_width,
            final(self).rows() == old(self).rows().push(line.rows_at(old(self).content_width)),
    {
        let group = line.as_line_group(self.content_width);
        let ghost g = group.rows();
        self.groups.push(group);
        assert(self.rows() =~= old(self).rows().push(g));
    }

    /// Insert a line at the top.
    pub fn prepend<L: Lineable>(&mut self, line: L)
        requires
            line.can_render(old(self).content_width),
        ensures
            final(self).content_width == old(self).content_width,
            final(self).rows() == seq![line.rows_at(old(self).content_width)] + old(self).rows(),
    {
        let group = line.as_line_group(self.content_width);
        let ghost g = group.rows();
        self.groups.insert(0, group);
        assert(self.rows() =~= seq![g] + old(self).rows());
    }

    /// Append `count` blank rows, each a group of its own.
    pub fn append_blank(&mut self, count: usize)
        ensures
            final(self).content_width == old(self).content_width,
            final(self).rows() == old(self).rows() + Seq::new(
                count as nat,
                |i: int| seq![spaces(old(self).content_width as nat)],
            ),
    {
        let mut i: usize = 0;
        while i < count
            invariant
                i <= count,
                self.content_width == old(self).content_width,
                self.rows() == old(self).rows() + Seq::new(
                    i as nat,
                    |j: int| seq![spaces(old(self).content_width as nat)],
                ),
            decreases count - i,
        {
            let row = FormattedRow::blank(self.content_width);
            let mut v: Vec<FormattedRow> = Vec::new();
            v.push(row);
            let group = LineGroup(v);
            assert(group.rows() =~= seq![spaces(old(self).content_width as nat)]);
            let ghost prev = self.rows();
            self.groups.push(group);
            assert(self.rows() =~= prev.push(seq![spaces(old(self).content_width as nat)]));
            i = i + 1;
            assert(self.rows() =~= old(self).rows() + Seq::new(
                i as nat,
                |j: int| seq![spaces(old(self).content_width as nat)],
            ));
        }
    }

    /// Insert `count` blank rows at the top, each a group of its own.
    pub fn prepend_blank(&mut self, count: usize)
        ensures
            final(self).content_width == old(self).content_width,
            final(self).rows() == Seq::new(
                count as nat,
                |i: int| seq![spaces(old(self).content_width as nat)],
            ) + old(self).rows(),
    {
        let mut fresh = Column::new(self.content_width);
        fresh.append_blank(count);
        let mut old_groups: Vec<LineGroup> = Vec::new();
        std::mem::swap(&mut old_groups, &mut self.groups);
        let mut groups = fresh.groups;
        groups.append(&mut old_groups);
        self.groups = groups;
        assert(self.rows() =~= Seq::new(
            count as nat,
            |i: int| seq![spaces(old(self).content_width as nat)],
        ) + old(self).rows());
    }

    /// Total number of display rows over all groups (saturating at
    /// `usize::MAX`).
    pub fn row_count(&self) -> (r: usize)
        ensures
            r == if total_rows(self.rows()) > usize::MAX {
                usize::MAX as int
            } else {
                total_rows(self.rows())
            },
    {
        let mut total: usize = 0;
        let mut i: usize = 0;
        let ghost rows = self.rows();
        while i < self.groups.len()
            invariant
                i <= self.groups.len(),
                rows == self.rows(),
                total == if total_rows(rows.take(i as int)) > usize::MAX {
                    usize::MAX as int
                } else {
                    total_rows(rows.take(i as int))
                },
                total_rows(rows.take(i as int)) >= 0,
            decreases self.groups.len() - i,
        {
            proof {
                assert(rows.take(i + 1).drop_last() =~= rows.take(i as int));
                assert(rows[i as int] == self.groups@[i as int].rows());
                lemma_total_rows_nonneg(rows.take(i as int));
            }
            total = total.saturating_add(self.groups[i].0.len());
            i = i + 1;
        }
        assert(rows.take(self.groups.len() as int) =~= rows);
        total
    }
}

pub proof fn lemma_total_rows_nonneg(groups: Seq<Seq<Seq<char>>>)
    ensures
        total_rows(groups) >= 0,
    decreases groups.len(),
{
    if groups.len() > 0 {
        lemma_total_rows_nonneg(groups.drop_last());
    }
}

/// The `i`-th row of a group, or nothing past its end.
pub open spec fn cell(rows: Seq<Seq<char>>, i: int) -> Seq<char> {
    if 0 <= i < rows.len() {
        rows[i]
    } else {
        seq![]
    }
}

/// A row padded to `w` visible columns, measuring invisible characters by
/// characters (not bytes).
pub open spec fn pad_zip(s: Seq<char>, w: int) -> Seq<char> {
    pad_right(s, sat_add(w, sat_sub(s.len() as int, ansi_width(s) as int)))
}

/// The printed lines of one pair of groups: as many as the longer group
/// has rows, the shorter side padded with empty cells.
pub open spec fn zip_group(l: Seq<Seq<char>>, r: Seq<Seq<char>>, w: int) -> Seq<Seq<char>> {
    Seq::new(
        if l.len() >= r.len() { l.len() } else { r.len() },
        |i: int| pad_zip(cell(l, i), w) + pad_zip(cell(r, i), w),
    )
}

/// The printed lines of two columns: groups are paired in order, up to the
/// shorter column, and the lines of each pair follow one another.
pub open spec fn zip_columns(l: Seq<Seq<Seq<char>>>, r: Seq<Seq<Seq<char>>>, w: int) -> Seq<Seq<char>> {
    Seq::new(
        if l.len() <= r.len() { l.len() } else { r.len() },
        |g: int| zip_group(l[g], r[g], w),
    ).flatten()
}

/// A pair of columns sharing one content width: half the terminal width.
#[derive(Debug)]
pub struct ColumnPair {
    pub content_width: u16,
}

/// Cell `i` of a group, padded for zipping.
fn zip_cell(rows: &Vec<FormattedRow>, i: usize, width: usize) -> (r: String)
    ensures
        r@ == pad_zip(cell(rows@.map_values(|r: FormattedRow| r.0@), i as int), width as int),
{
    let ghost view = rows@.map_values(|r: FormattedRow| r.0@);
    let text: &str = if i < rows.len() {
        rows[i].0.as_str()
    } else {
        ""
    };
    proof {
        reveal_strlit("");
        if i < rows.len() {
            assert(view[i as int] == rows@[i as int].0@);
        }
    }
    let n = text.unicode_len();
    let visible = visible_width(text);
    let extras = if n >= visible { n - visible } else { 0 };
    padded_right(text, width.saturating_add(extras))
}

impl ColumnPair {
    /// A pair for a terminal of the given width.
    pub fn new(terminal_width: u16) -> (r: ColumnPair)
        ensures
            r.content_width == terminal_width / 2,
    {
        ColumnPair { content_width: terminal_width / 2 }
    }

    /// A fresh column of this pair's width.
    pub fn column(&self) -> (r: Column)
        ensures
            r.content_width == self.content_width,
            r.rows() == Seq::<Seq<Seq<char>>>::empty(),
    {
        Column::new(self.content_width)
    }

    /// Interleave two columns, which hold as many groups each, into
    /// printable lines.
    pub fn zip(&self, left: Column, right: Column) -> (lines: Vec<String>)
        requires
            left.groups@.len() == right.groups@.len(),
        ensures
            lines@.map_values(|s: String| s@) == zip_columns(
                left.rows(),
                right.rows(),
                self.content_width as int,
            ),
    {
        let content_width = self.content_width as usize;
        let ghost lr = left.rows();
        let ghost rr = right.rows();
        let min_groups = if left.groups.len() <= right.groups.len() {
            left.groups.len()
        } else {
            right.groups.len()
        };
        let ghost per_group = Seq::new(min_groups as nat, |g: int| zip_group(lr[g], rr[g], content_width as int));
        let mut result: Vec<String> = Vec::new();
        let mut g: usize = 0;
        assert(per_group.take(0).flatten() =~= Seq::<Seq<char>>::empty()) by {
            assert(per_group.take(0) =~= Seq::<Seq<Seq<char>>>::empty());
        }
        assert(result@.map_values(|s: String| s@) =~= Seq::<Seq<char>>::empty());
        while g < min_groups
            invariant
                g <= min_groups,
                min_groups <= left.groups.len(),
                min_groups <= right.groups.len(),
                lr == left.rows(),
                rr == right.rows(),
                content_width == self.content_width as usize,
                per_group == Seq::new(min_groups as nat, |g: int| zip_group(lr[g], rr[g], content_width as int)),
                result@.map_values(|s: String| s@) == per_group.take(g as int).flatten(),
            decreases min_groups - g,
        {
            let left_rows = &left.groups[g].0;
            let right_rows = &right.groups[g].0;
            let max_rows = if left_rows.len() >= right_rows.len() {
                left_rows.len()
            } else {
                right_rows.len()
            };
            let ghost before = result@.map_values(|s: String| s@);
            let ghost lg = left_rows@.map_values(|r: FormattedRow| r.0@);
            let ghost rg = right_rows@.map_values(|r: FormattedRow| r.0@);
            assert(lr[g as int] == lg);
            assert(rr[g as int] == rg);
            let mut i: usize = 0;
            while i < max_rows
                invariant
                    i <= max_rows,
                    max_rows == if lg.len() >= rg.len() { lg.len() } else { rg.len() },
                    lg == left_rows@.map_values(|r: FormattedRow| r.0@),
                    rg == right_rows@.map_values(|r: FormattedRow| r.0@),
                    result@.map_values(|s: String| s@) == before + zip_group(lg, rg, content_width as int).take(i as int),
                decreases max_rows - i,
            {
                let mut line = zip_cell(left_rows, i, content_width);
                let r = zip_cell(right_rows, i, content_width);
                line.append(r.as_str());
                let ghost prev = result@.map_values(|s: String| s@);
                result.push(line);
                assert(result@.map_values(|s: String| s@) =~= prev.push(line@));
                assert(zip_group(lg, rg, content_width as int).take(i + 1) =~= zip_group(lg, rg, content_width as int).take(i as int).push(line@));
                i = i + 1;
            }
            proof {
                assert(zip_group(lg, rg, content_width as int).take(max_rows as int) =~= zip_group(lg, rg, content_width as int));
                assert(per_group[g as int] == zip_group(lg, rg, content_width as int));
                assert(per_group.take(g + 1) =~= per_group.take(g as int) + seq![per_group[g as int]]);
                vstd::seq_lib::lemma_flatten_concat(per_group.take(g as int), seq![per_group[g as int]]);
                lemma_flatten_single(per_group[g as int]);
            }
            g = g + 1;
        }
        assert(per_group.take(min_groups as int) =~= per_group);
        result
    }
}

} // verus!
