//! Wrapping source lines into rows of a snippet column.
use crate::inline_diff::{parts_view, InlinePart};
use crate::layout::{byte_extras, extras_of, lemma_total_rows_nonneg, sat_add, total_rows, wrap_chars, wrap_segments, Highlight};
use crate::line::Line;
use crate::snippet::{LineWidget, Theme};
use crate::text::{ansi_width, byte_len, pad_right, padded_right, push_char, sat_sub, spaces, visible_width};
use vstd::prelude::*;

verus! {

/// A plain text chunk that fits within the column width.
#[derive(Debug, Clone, PartialEq, Eq)]
pub struct Segment(pub String);

/// A source line wrapped into one or more segments.
#[derive(Debug, Clone)]
pub struct WrappedLine {
    pub line_nr: Line,
    pub segments: Vec<Segment>,
}

/// A fully formatted row: line widget, styled content and padding.
#[derive(Debug, Clone, PartialEq, Eq)]
pub struct FormattedRow(pub String);

/// The rows produced from one source line.
#[derive(Debug, Clone)]
pub struct SourceLineGroup(pub Vec<FormattedRow>);

/// One side of a snippet: a sequence of source line groups.
#[derive(Debug, Clone)]
pub struct Column(pub Vec<SourceLineGroup>);

pub open spec fn segments_view(segs: Seq<Segment>) -> Seq<Seq<char>> {
    segs.map_values(|s: Segment| s.0@)
}

impl SourceLineGroup {
    pub open spec fn rows(&self) -> Seq<Seq<char>> {
        self.0@.map_values(|r: FormattedRow| r.0@)
    }

    /// Number of rows this group takes.
    pub fn row_count(&self) -> (r: usize)
        ensures
            r == self.0@.len(),
    {
        self.0.len()
    }
}

impl Column {
    pub open spec fn rows(&self) -> Seq<Seq<Seq<char>>> {
        self.0@.map_values(|g: SourceLineGroup| g.rows())
    }

    /// Total number of rows over all groups (saturating at `usize::MAX`).
    pub fn row_count(&self) -> (r: usize)
        ensures
            r == if total_rows(self.rows()) > usize::MAX {
                usize::MAX as int
            } else {
                total_rows(self.rows())
            },
    {
        let mut total: usize = 0;
        let mut i: usize = 0;
        let ghost rows = self.rows();
        while i < self.0.len()
            invariant
                i <= self.0.len(),
                rows == self.rows(),
                total == if total_rows(rows.take(i as int)) > usize::MAX {
                    usize::MAX as int
                } else {
                    total_rows(rows.take(i as int))
                },
            decreases self.0.len() - i,
        {
            proof {
                assert(rows.take(i + 1).drop_last() =~= rows.take(i as int));
                assert(rows[i as int] == self.0@[i as int].rows());
                lemma_total_rows_nonneg(rows.take(i as int));
            }
            total = total.saturating_add(self.0[i].row_count());
            i = i + 1;
        }
        assert(rows.take(self.0.len() as int) =~= rows);
        total
    }
}

/// The segments of `text` at `max_width`: one empty segment for width 0 or
/// an empty text, the greedy wrapping otherwise.
pub open spec fn wrap_text_spec(text: Seq<char>, max_width: int) -> Seq<Seq<char>> {
    if max_width == 0 {
        seq![seq![]]
    } else {
        wrap_segments(text, max_width)
    }
}

/// Split plain text into segments that each fit within `max_width` visible
/// columns.
pub fn wrap_text(text: &str, max_width: usize) -> (segs: Vec<Segment>)
    requires
        text@.len() <= usize::MAX / 255,
    ensures
        segments_view(segs@) == wrap_text_spec(text@, max_width as int),
{
    if max_width == 0 {
        let mut v: Vec<Segment> = Vec::new();
        v.push(Segment(String::new()));
        assert(segments_view(v@) =~= seq![Seq::<char>::empty()]);
        return v;
    }
    let chunks = wrap_chars(text, max_width);
    let mut segs: Vec<Segment> = Vec::new();
    let mut i: usize = 0;
    while i < chunks.len()
        invariant
            i <= chunks.len(),
            chunks@.map_values(|s: String| s@) == wrap_segments(text@, max_width as int),
            segments_view(segs@) == wrap_segments(text@, max_width as int).take(i as int),
        decreases chunks.len() - i,
    {
        let ghost prev = segments_view(segs@);
        segs.push(Segment(chunks[i].clone()));
        proof {
            assert(chunks@.map_values(|s: String| s@)[i as int] == chunks@[i as int]@);
            assert(segments_view(segs@) =~= prev.push(chunks@[i as int]@));
            assert(segments_view(segs@) =~= wrap_segments(text@, max_width as int).take(i + 1));
        }
        i = i + 1;
    }
    assert(wrap_segments(text@, max_width as int).take(chunks.len() as int) =~= wrap_segments(
        text@,
        max_width as int,
    ));
    segs
}

/// A styled row: the widget, `│ `, and the styled text padded to `width`
/// visible columns.
pub open spec fn styled_row(widget: LineWidget, style: Highlight, text: Seq<char>, width: int) -> Seq<char> {
    let styled = style.spec_apply(text);
    widget.spec_text() + seq!['│', ' '] + pad_right(
        styled,
        width + sat_sub(byte_len(styled), ansi_width(styled) as int),
    )
}

/// The rows of a wrapped line numbered by `first`: the first row carries
/// the number, the others the continuation mark.
pub open spec fn styled_rows(first: LineWidget, segs: Seq<Seq<char>>, style: Highlight, width: int) -> Seq<Seq<char>> {
    Seq::new(
        segs.len(),
        |i: int| styled_row(if i == 0 { first } else { LineWidget::Continuation }, style, segs[i], width),
    )
}

/// Format the segments behind a widget; `width` must leave room for the
/// invisible bytes of each styled segment.
fn format_segments(first: LineWidget, segments: &Vec<Segment>, style: &Highlight, width: usize) -> (g: SourceLineGroup)
    requires
        forall|i: int| 0 <= i < segments@.len() ==> width + sat_sub(
            byte_len(#[trigger] style.spec_apply(segments@[i].0@)),
            ansi_width(style.spec_apply(segments@[i].0@)) as int,
        ) <= usize::MAX,
    ensures
        g.rows() == styled_rows(first, segments_view(segments@), *style, width as int),
{
    let ghost target = styled_rows(first, segments_view(segments@), *style, width as int);
    let mut rows: Vec<FormattedRow> = Vec::new();
    let mut i: usize = 0;
    while i < segments.len()
        invariant
            i <= segments.len(),
            target == styled_rows(first, segments_view(segments@), *style, width as int),
            forall|i: int| 0 <= i < segments@.len() ==> width + sat_sub(
                byte_len(#[trigger] style.spec_apply(segments@[i].0@)),
                ansi_width(style.spec_apply(segments@[i].0@)) as int,
            ) <= usize::MAX,
            rows@.map_values(|r: FormattedRow| r.0@) == target.take(i as int),
        decreases segments.len() - i,
    {
        let styled = style.apply(segments[i].0.as_str());
        let bytes = styled.as_str().len();
        let visible = visible_width(styled.as_str());
        let extras = if bytes >= visible { bytes - visible } else { 0 };
        let widget = if i == 0 { first } else { LineWidget::Continuation };
        let mut row = widget.text();
        push_char(&mut row, '│');
        push_char(&mut row, ' ');
        let padded = padded_right(styled.as_str(), width + extras);
        row.append(padded.as_str());
        let ghost prev = rows@.map_values(|r: FormattedRow| r.0@);
        rows.push(FormattedRow(row));
        proof {
            assert(segments_view(segments@)[i as int] == segments@[i as int].0@);
            assert(row@ =~= target[i as int]);
            assert(rows@.map_values(|r: FormattedRow| r.0@) =~= prev.push(row@));
            assert(rows@.map_values(|r: FormattedRow| r.0@) =~= target.take(i + 1));
        }
        i = i + 1;
    }
    assert(target.take(segments.len() as int) =~= target);
    SourceLineGroup(rows)
}

/// Whether padding every styled segment to `width` stays within `usize`.
pub open spec fn fits_padding(segs: Seq<Segment>, style: Highlight, width: int) -> bool {
    forall|i: int| 0 <= i < segs.len() ==> width + sat_sub(
        byte_len(#[trigger] style.spec_apply(segs[i].0@)),
        ansi_width(style.spec_apply(segs[i].0@)) as int,
    ) <= usize::MAX
}

impl WrappedLine {
    /// Wrap the text of a source line.
    pub fn new(line_nr: Line, text: &str, max_width: usize) -> (w: WrappedLine)
        requires
            text@.len() <= usize::MAX / 255,
        ensures
            w.line_nr == line_nr,
            segments_view(w.segments@) == wrap_text_spec(text@, max_width as int),
    {
        WrappedLine { line_nr, segments: wrap_text(text, max_width) }
    }

    /// Style the segments into rows; the first shows the line number.
    pub fn format(self, style: &Highlight, half_width: usize) -> (g: SourceLineGroup)
        requires
            fits_padding(self.segments@, *style, half_width as int),
        ensures
            g.rows() == styled_rows(
                LineWidget::Nr((self.line_nr.num() - 1) as usize),
                segments_view(self.segments@),
                *style,
                half_width as int,
            ),
    {
        format_segments(LineWidget::from_line(self.line_nr), &self.segments, style, half_width)
    }
}

/// A wrapped line numbered by a 0-based index.
#[derive(Debug, Clone)]
pub struct WrappedLineUsize {
    pub line_nr: usize,
    pub segments: Vec<Segment>,
}

impl WrappedLineUsize {
    /// Style the segments into rows; the first shows `line_nr + 1`.
    pub fn format_with_usize(self, style: &Highlight, width: usize) -> (g: SourceLineGroup)
        requires
            fits_padding(self.segments@, *style, width as int),
        ensures
            g.rows() == styled_rows(
                LineWidget::Nr(self.line_nr),
                segments_view(self.segments@),
                *style,
                width as int,
            ),
    {
        format_segments(LineWidget::Nr(self.line_nr), &self.segments, style, width)
    }
}

/// `    │ ` followed by `half_width` spaces.
pub open spec fn blank_row(half_width: int) -> Seq<char> {
    LineWidget::Filler.spec_text() + seq!['│', ' '] + spaces(half_width as nat)
}

impl FormattedRow {
    /// A blank row, for gaps.
    pub fn blank(half_width: usize) -> (r: FormattedRow)
        ensures
            r.0@ == blank_row(half_width as int),
    {
        let mut s = LineWidget::Filler.text();
        push_char(&mut s, '│');
        push_char(&mut s, ' ');
        let pad = padded_right("", half_width);
        proof {
            reveal_strlit("");
            assert(pad@ =~= spaces(half_width as nat));
        }
        s.append(pad.as_str());
        FormattedRow(s)
    }
}

/// Row `i` of a group, or the blank row past its end.
pub open spec fn cell_or_blank(rows: Seq<Seq<char>>, i: int, half_width: int) -> Seq<char> {
    if 0 <= i < rows.len() {
        rows[i]
    } else {
        blank_row(half_width)
    }
}

/// The printed lines of two snippet columns: groups paired in order up to
/// the shorter column, each pair giving as many lines as its longer group,
/// `│ left│ right` with both sides padded to `half_width + 6` characters.
pub open spec fn zip_with_spec(l: Seq<Seq<Seq<char>>>, r: Seq<Seq<Seq<char>>>, half_width: int) -> Seq<Seq<char>> {
    Seq::new(
        if l.len() <= r.len() { l.len() } else { r.len() },
        |g: int|
            Seq::new(
                if l[g].len() >= r[g].len() { l[g].len() } else { r[g].len() },
                |i: int|
                    seq!['│', ' '] + pad_right(cell_or_blank(l[g], i, half_width), half_width + 6)
                        + seq!['│', ' '] + pad_right(cell_or_blank(r[g], i, half_width), half_width + 6),
            ),
    ).flatten()
}

impl Column {
    /// Zip two columns side by side.
    pub fn zip_with(self, other: Column, half_width: usize) -> (lines: Vec<String>)
        requires
            half_width <= usize::MAX - 6,
        ensures
            lines@.map_values(|s: String| s@) == zip_with_spec(self.rows(), other.rows(), half_width as int),
    {
        let ghost lr = self.rows();
        let ghost rr = other.rows();
        let width = half_width + 6;
        let min_groups = if self.0.len() <= other.0.len() {
            self.0.len()
        } else {
            other.0.len()
        };
        let ghost per_group = Seq::new(
            min_groups as nat,
            |g: int|
                Seq::new(
                    if lr[g].len() >= rr[g].len() { lr[g].len() } else { rr[g].len() },
                    |i: int|
                        seq!['│', ' '] + pad_right(cell_or_blank(lr[g], i, half_width as int), half_width + 6)
                            + seq!['│', ' '] + pad_right(cell_or_blank(rr[g], i, half_width as int), half_width + 6),
                ),
        );
        let mut result: Vec<String> = Vec::new();
        let mut g: usize = 0;
        assert(per_group.take(0) =~= Seq::<Seq<Seq<char>>>::empty());
        assert(result@.map_values(|s: String| s@) =~= Seq::<Seq<char>>::empty());
        while g < min_groups
            invariant
                g <= min_groups,
                min_groups <= self.0.len(),
                min_groups <= other.0.len(),
                lr == self.rows(),
                rr == other.rows(),
                width == half_width + 6,
                per_group.len() == min_groups,
                forall|k: int| 0 <= k < min_groups ==> #[trigger] per_group[k] == Seq::new(
                    if lr[k].len() >= rr[k].len() { lr[k].len() } else { rr[k].len() },
                    |i: int|
                        seq!['│', ' '] + pad_right(cell_or_blank(lr[k], i, half_width as int), half_width + 6)
                            + seq!['│', ' '] + pad_right(cell_or_blank(rr[k], i, half_width as int), half_width + 6),
                ),
                result@.map_values(|s: String| s@) == per_group.take(g as int).flatten(),
            decreases min_groups - g,
        {
            let left_rows = &self.0[g].0;
            let right_rows = &other.0[g].0;
            let max_rows = if left_rows.len() >= right_rows.len() {
                left_rows.len()
            } else {
                right_rows.len()
            };
            let blank = FormattedRow::blank(half_width);
            let ghost before = result@.map_values(|s: String| s@);
            let ghost lg = lr[g as int];
            let ghost rg = rr[g as int];
            let ghost cur = per_group[g as int];
            assert(lg == left_rows@.map_values(|r: FormattedRow| r.0@));
            assert(rg == right_rows@.map_values(|r: FormattedRow| r.0@));
            let mut i: usize = 0;
            while i < max_rows
                invariant
                    i <= max_rows,
                    max_rows == cur.len(),
                    lg == left_rows@.map_values(|r: FormattedRow| r.0@),
                    rg == right_rows@.map_values(|r: FormattedRow| r.0@),
                    blank.0@ == blank_row(half_width as int),
                    width == half_width + 6,
                    cur == Seq::new(
                        if lg.len() >= rg.len() { lg.len() } else { rg.len() },
                        |i: int|
                            seq!['│', ' '] + pad_right(cell_or_blank(lg, i, half_width as int), half_width + 6)
                                + seq!['│', ' '] + pad_right(cell_or_blank(rg, i, half_width as int), half_width + 6),
                    ),
                    result@.map_values(|s: String| s@) == before + cur.take(i as int),
                decreases max_rows - i,
            {
                let left: &str = if i < left_rows.len() {
                    left_rows[i].0.as_str()
                } else {
                    blank.0.as_str()
                };
                let right: &str = if i < right_rows.len() {
                    right_rows[i].0.as_str()
                } else {
                    blank.0.as_str()
                };
                let mut line = String::new();
                push_char(&mut line, '│');
                push_char(&mut line, ' ');
                let lp = padded_right(left, width);
                line.append(lp.as_str());
                push_char(&mut line, '│');
                push_char(&mut line, ' ');
                let rp = padded_right(right, width);
                line.append(rp.as_str());
                proof {
                    if i < left_rows.len() {
                        assert(lg[i as int] == left_rows@[i as int].0@);
                    }
                    if i < right_rows.len() {
                        assert(rg[i as int] == right_rows@[i as int].0@);
                    }
                    assert(line@ =~= cur[i as int]);
                }
                let ghost prev = result@.map_values(|s: String| s@);
                result.push(line);
                assert(result@.map_values(|s: String| s@) =~= prev.push(line@));
                assert(cur.take(i + 1) =~= cur.take(i as int).push(line@));
                i = i + 1;
            }
            proof {
                assert(cur.take(max_rows as int) =~= cur);
                assert(per_group.take(g + 1) =~= per_group.take(g as int) + seq![cur]);
                vstd::seq_lib::lemma_flatten_concat(per_group.take(g as int), seq![cur]);
                crate::layout::lemma_flatten_single(cur);
            }
            g = g + 1;
        }
        assert(per_group.take(min_groups as int) =~= per_group);
        assert(per_group =~= Seq::new(
            min_groups as nat,
            |g: int|
                Seq::new(
                    if lr[g].len() >= rr[g].len() { lr[g].len() } else { rr[g].len() },
                    |i: int|
                        seq!['│', ' '] + pad_right(cell_or_blank(lr[g], i, half_width as int), half_width + 6)
                            + seq!['│', ' '] + pad_right(cell_or_blank(rr[g], i, half_width as int), half_width + 6),
                ),
        ));
        result
    }
}

// ---------------------------------------------------------------------------
// Formatting one source line
// ---------------------------------------------------------------------------

/// A bound on the length of texts and markers, far from any machine limit.
pub open spec fn text_limit() -> int {
    (usize::MAX / 1024) as int
}

/// Whether the markers of a style are within [`text_limit`].
pub open spec fn highlight_fits(h: Highlight) -> bool {
    match h {
        Highlight::Wrap { open, close } => open@.len() + close@.len() <= text_limit(),
        _ => true,
    }
}

pub proof fn lemma_flatten_elem_len<A>(ss: Seq<Seq<A>>, i: int)
    requires
        0 <= i < ss.len(),
    ensures
        ss[i].len() <= ss.flatten().len(),
    decreases ss.len(),
{
    if i > 0 {
        lemma_flatten_elem_len(ss.drop_first(), i - 1);
    }
}

pub proof fn lemma_encode_len(s: Seq<char>)
    ensures
        vstd::utf8::encode_utf8(s).len() <= 4 * s.len(),
    decreases s.len(),
{
    if s.len() > 0 {
        lemma_encode_len(s.drop_first());
    }
}

/// A styled text is no longer than its text and the style's markers.
pub proof fn lemma_styled_len(h: Highlight, s: Seq<char>)
    requires
        highlight_fits(h),
    ensures
        h.spec_apply(s).len() <= s.len() + text_limit() + 16,
{
    reveal_strlit("32");
    reveal_strlit("31");
    reveal_strlit("33");
    reveal_strlit("39");
    reveal_strlit("2");
    reveal_strlit("1");
    reveal_strlit("0");
}

/// The rows of one source line: numbered `nr + 1`, wrapped at `width`,
/// styled.
pub open spec fn line_rows(nr: usize, text: Seq<char>, style: Highlight, width: int) -> Seq<Seq<char>> {
    styled_rows(LineWidget::Nr(nr), wrap_text_spec(text, width), style, width)
}

/// Formats one source line, shown as line `nr + 1`.
pub fn format_line(nr: usize, text: &str, style: &Highlight, width: usize) -> (g: SourceLineGroup)
    requires
        text@.len() <= text_limit(),
        width <= text_limit(),
        highlight_fits(*style),
    ensures
        g.rows() == line_rows(nr, text@, *style, width as int),
{
    let segs = wrap_text(text, width);
    proof {
        let sv = segments_view(segs@);
        assert forall|i: int| 0 <= i < segs@.len() implies width + sat_sub(
            byte_len(#[trigger] style.spec_apply(segs@[i].0@)),
            ansi_width(style.spec_apply(segs@[i].0@)) as int,
        ) <= usize::MAX by {
            let seg = segs@[i].0@;
            assert(sv[i] == seg);
            if width == 0 {
                assert(sv =~= seq![Seq::<char>::empty()]);
            } else {
                crate::layout::lemma_wrap_segments_flatten(text@, width as int);
                lemma_flatten_elem_len(sv, i);
            }
            let styled = style.spec_apply(seg);
            lemma_styled_len(*style, seg);
            lemma_encode_len(styled);
        }
    }
    let w = WrappedLineUsize { line_nr: nr, segments: segs };
    w.format_with_usize(style, width)
}

// ---------------------------------------------------------------------------
// A changed line with its differing characters emphasised
// ---------------------------------------------------------------------------

/// A piece of text in a style; nothing where the text is empty.
pub open spec fn styled_piece(h: Highlight, s: Seq<char>) -> Seq<char> {
    if s.len() == 0 {
        seq![]
    } else {
        h.spec_apply(s)
    }
}

/// The end of the run of spaces that starts at `i`.
pub open spec fn space_end(s: Seq<char>, i: int) -> int
    decreases s.len() - i,
{
    if 0 <= i < s.len() && s[i] == ' ' {
        space_end(s, i + 1)
    } else {
        i
    }
}

pub proof fn lemma_space_end(s: Seq<char>, i: int)
    requires
        0 <= i <= s.len(),
    ensures
        i <= space_end(s, i) <= s.len(),
    decreases s.len() - i,
{
    if i < s.len() && s[i] == ' ' {
        lemma_space_end(s, i + 1);
    }
}

/// A YAML prefix (`  key: ` or `  - `) as its indentation, its key and
/// its last two characters, the separator.
pub open spec fn prefix_pieces(p: Seq<char>) -> (Seq<char>, Seq<char>, Seq<char>) {
    let body_end = if p.len() >= 2 { p.len() - 2 } else { 0 };
    let k = if space_end(p, 0) <= body_end { space_end(p, 0) } else { body_end };
    (p.take(k), p.subrange(k, body_end), p.skip(body_end))
}

/// The parts in turn, the emphasised ones in `changed`, the others in
/// `dimmed`.
pub open spec fn parts_text(parts: Seq<(Seq<char>, bool)>, changed: Highlight, dimmed: Highlight) -> Seq<char>
    decreases parts.len(),
{
    if parts.len() == 0 {
        seq![]
    } else {
        parts_text(parts.drop_last(), changed, dimmed) + styled_piece(
            if parts.last().1 { changed } else { dimmed },
            parts.last().0,
        )
    }
}

/// A changed line: the indentation and the separator of its prefix dimmed,
/// its key in the changed style, then the parts of its value.
pub open spec fn inline_text(prefix: Seq<char>, parts: Seq<(Seq<char>, bool)>, changed: Highlight, dimmed: Highlight) -> Seq<char> {
    let (indent, key, sep) = prefix_pieces(prefix);
    styled_piece(dimmed, indent) + styled_piece(changed, key) + styled_piece(dimmed, sep) + parts_text(parts, changed, dimmed)
}

/// A row holding already styled text, padded to `width` visible columns.
pub open spec fn padded_row(widget: LineWidget, styled: Seq<char>, width: int) -> Seq<char> {
    widget.spec_text() + seq!['│', ' '] + pad_right(styled, sat_add(width, byte_extras(styled)))
}

/// `s` in the style `h`, appended to `out` where `s` is not empty.
fn push_piece(out: &mut String, h: &Highlight, s: &str)
    ensures
        final(out)@ == old(out)@ + styled_piece(*h, s@),
{
    if s.unicode_len() > 0 {
        let t = h.apply(s);
        out.append(t.as_str());
    } else {
        assert(old(out)@ + styled_piece(*h, s@) =~= old(out)@);
    }
}

fn space_end_exec(s: &str) -> (r: usize)
    ensures
        r == space_end(s@, 0),
{
    let n = s.unicode_len();
    let mut i: usize = 0;
    while i < n && s.get_char(i) == ' '
        invariant
            i <= n,
            n == s@.len(),
            space_end(s@, 0) == space_end(s@, i as int),
        decreases n - i,
    {
        i = i + 1;
    }
    i
}

/// The row of a changed line whose value differs character by character:
/// shown as line `line_nr + 1`, in one row, as [`inline_text`] states.
pub fn format_with_inline_highlights(line_nr: usize, prefix: &str, parts: &Vec<InlinePart>, theme: &Theme, width: usize) -> (g: SourceLineGroup)
    ensures
        g.rows() == seq![
            padded_row(
                LineWidget::Nr(line_nr),
                inline_text(prefix@, parts_view(parts@), theme.changed, theme.dimmed),
                width as int,
            ),
        ],
{
    let n = prefix.unicode_len();
    let body_end = if n >= 2 { n - 2 } else { 0 };
    let se = space_end_exec(prefix);
    proof {
        lemma_space_end(prefix@, 0);
    }
    let k = if se <= body_end { se } else { body_end };
    let mut styled = String::new();
    push_piece(&mut styled, &theme.dimmed, prefix.substring_char(0, k));
    push_piece(&mut styled, &theme.changed, prefix.substring_char(k, body_end));
    push_piece(&mut styled, &theme.dimmed, prefix.substring_char(body_end, n));
    let ghost head = styled@;
    let ghost pv = parts_view(parts@);
    proof {
        assert(prefix@.subrange(0, k as int) =~= prefix@.take(k as int));
        assert(prefix@.subrange(body_end as int, n as int) =~= prefix@.skip(body_end as int));
        assert(pv.take(0) =~= Seq::<(Seq<char>, bool)>::empty());
        assert(head + parts_text(pv.take(0), theme.changed, theme.dimmed) =~= head);
    }
    let mut i: usize = 0;
    while i < parts.len()
        invariant
            i <= parts@.len(),
            pv == parts_view(parts@),
            styled@ == head + parts_text(pv.take(i as int), theme.changed, theme.dimmed),
        decreases parts.len() - i,
    {
        let h = if parts[i].emphasized { &theme.changed } else { &theme.dimmed };
        push_piece(&mut styled, h, parts[i].text.as_str());
        proof {
            assert(pv.take(i + 1).drop_last() =~= pv.take(i as int));
            assert(pv.take(i + 1).last() == pv[i as int]);
        }
        i = i + 1;
    }
    assert(pv.take(parts.len() as int) =~= pv);
    let ghost text = inline_text(prefix@, pv, theme.changed, theme.dimmed);
    assert(styled@ =~= text);
    let extras = extras_of(styled.as_str());
    let required = width.saturating_add(extras);
    let mut row = LineWidget::Nr(line_nr).text();
    push_char(&mut row, '│');
    push_char(&mut row, ' ');
    let padded = padded_right(styled.as_str(), required);
    row.append(padded.as_str());
    assert(row@ =~= padded_row(LineWidget::Nr(line_nr), text, width as int));
    let mut rows: Vec<FormattedRow> = Vec::new();
    rows.push(FormattedRow(row));
    let g = SourceLineGroup(rows);
    assert(g.rows() =~= seq![
        padded_row(
            LineWidget::Nr(line_nr),
            inline_text(prefix@, parts_view(parts@), theme.changed, theme.dimmed),
            width as int,
        ),
    ]);
    g
}

} // verus!
