//! Rendering differences as side-by-side snippets of the two documents.
use crate::diff::{first_key, item_height, Difference, DifferenceV, Item, ItemV};
use crate::layout::decimal_of_successor;
use crate::layout::{wrap_plain_rows, zip_columns, ColumnPair, Highlight};
use crate::line::Line;
use crate::node::{node_at, node_in};
use crate::path::{jq_text, Path, Segment, SegmentV};
use crate::inline_diff::{char_changes, compute_inline_diff, extract_yaml_prefix, inline_parts, yaml_prefix, InlinePart, parts_view};
use crate::source::{lines_of, skip_separators, strings_view, text_lines, YamlSource};
use crate::text::{decimal, pad_left, padded_left, push_char, push_spaces, sat_sub, spaces};
use crate::wrapping::{
    zip_with_spec, blank_row, format_line, format_with_inline_highlights, highlight_fits, inline_text, line_rows, padded_row, text_limit,
    Column, FormattedRow, SourceLineGroup,
};
use crate::yaml::{lemma_entries_view, lemma_nodes_view, lemma_view_unfold, entries_view, nodes_view, DataV, Node, NodeV, YamlData};
use vstd::prelude::*;

verus! {

/// The styles used for the parts of a rendered difference.
pub struct Theme {
    pub added: Highlight,
    pub removed: Highlight,
    pub changed: Highlight,
    pub dimmed: Highlight,
    pub header: Highlight,
}

impl Theme {
    /// Terminal colours.
    pub fn colored() -> (t: Theme)
        ensures
            t.added == Highlight::Green,
            t.removed == Highlight::Red,
            t.changed == Highlight::Yellow,
            t.dimmed == Highlight::Dimmed,
            t.header == Highlight::Bold,
    {
        Theme {
            added: Highlight::Green,
            removed: Highlight::Red,
            changed: Highlight::Yellow,
            dimmed: Highlight::Dimmed,
            header: Highlight::Bold,
        }
    }

    /// Readable markers, `[green]…[/]` and the like.
    pub fn markers() -> (t: Theme)
        ensures
            forall|s: Seq<char>| #[trigger] t.added.spec_apply(s) == "[green]"@ + s + "[/]"@,
            forall|s: Seq<char>| #[trigger] t.removed.spec_apply(s) == "[red]"@ + s + "[/]"@,
            forall|s: Seq<char>| #[trigger] t.changed.spec_apply(s) == "[yellow]"@ + s + "[/]"@,
            forall|s: Seq<char>| #[trigger] t.dimmed.spec_apply(s) == "[dim]"@ + s + "[/]"@,
            forall|s: Seq<char>| #[trigger] t.header.spec_apply(s) == "[bold]"@ + s + "[/]"@,
    {
        Theme {
            added: Highlight::wrap("[green]", "[/]"),
            removed: Highlight::wrap("[red]", "[/]"),
            changed: Highlight::wrap("[yellow]", "[/]"),
            dimmed: Highlight::wrap("[dim]", "[/]"),
            header: Highlight::wrap("[bold]", "[/]"),
        }
    }

    /// No styling at all.
    pub fn plain() -> (t: Theme)
        ensures
            t.added == Highlight::Plain,
            t.removed == Highlight::Plain,
            t.changed == Highlight::Plain,
            t.dimmed == Highlight::Plain,
            t.header == Highlight::Plain,
    {
        Theme {
            added: Highlight::Plain,
            removed: Highlight::Plain,
            changed: Highlight::Plain,
            dimmed: Highlight::Plain,
            header: Highlight::Plain,
        }
    }

    /// Colours when enabled, no styling otherwise.
    pub fn for_color(color: Color) -> (t: Theme)
        ensures
            color == Color::Enabled ==> t.added == Highlight::Green && t.removed == Highlight::Red
                && t.changed == Highlight::Yellow && t.dimmed == Highlight::Dimmed && t.header
                == Highlight::Bold,
            color == Color::Disabled ==> t.added == Highlight::Plain && t.removed
                == Highlight::Plain && t.changed == Highlight::Plain && t.dimmed == Highlight::Plain
                && t.header == Highlight::Plain,
    {
        match color {
            Color::Enabled => Theme::colored(),
            Color::Disabled => Theme::plain(),
        }
    }

    pub fn added(&self, s: &str) -> (r: String)
        ensures
            r@ == self.added.spec_apply(s@),
    {
        self.added.apply(s)
    }

    pub fn removed(&self, s: &str) -> (r: String)
        ensures
            r@ == self.removed.spec_apply(s@),
    {
        self.removed.apply(s)
    }

    pub fn changed(&self, s: &str) -> (r: String)
        ensures
            r@ == self.changed.spec_apply(s@),
    {
        self.changed.apply(s)
    }

    pub fn dimmed(&self, s: &str) -> (r: String)
        ensures
            r@ == self.dimmed.spec_apply(s@),
    {
        self.dimmed.apply(s)
    }

    pub fn header(&self, s: &str) -> (r: String)
        ensures
            r@ == self.header.spec_apply(s@),
    {
        self.header.apply(s)
    }

    /// A copy of this theme.
    pub fn copy(&self) -> (t: Theme)
        ensures
            t == *self,
    {
        Theme {
            added: self.added.copy(),
            removed: self.removed.copy(),
            changed: self.changed.copy(),
            dimmed: self.dimmed.copy(),
            header: self.header.copy(),
        }
    }
}

/// Whether output is coloured.
#[derive(Debug, Clone, Copy, PartialEq, Eq)]
pub enum Color {
    Enabled,
    Disabled,
}

/// Options for rendering differences.
pub struct RenderContext {
    /// Width of the terminal.
    pub max_width: u16,
    /// Lines of context shown before and after a change.
    pub visual_context: usize,
    pub theme: Theme,
}

/// Visible columns of chrome over both sides: `│ `, a 4-wide line widget and
/// `│ ` on each side.
pub const SIDE_CHROME: u16 = 16;

impl RenderContext {
    /// Colours, and five lines of context.
    pub fn new(max_width: u16) -> (r: RenderContext)
        ensures
            r.max_width == max_width,
            r.visual_context == 5,
            r.theme.added == Highlight::Green,
            r.theme.removed == Highlight::Red,
            r.theme.changed == Highlight::Yellow,
            r.theme.dimmed == Highlight::Dimmed,
            r.theme.header == Highlight::Bold,
    {
        RenderContext { max_width, visual_context: 5, theme: Theme::colored() }
    }

    pub open spec fn spec_half_width(&self) -> int {
        (self.max_width - SIDE_CHROME) / 2
    }

    /// Content width of each side.
    pub fn half_width(&self) -> (r: usize)
        requires
            self.max_width >= SIDE_CHROME,
        ensures
            r == self.spec_half_width(),
    {
        ((self.max_width - SIDE_CHROME) / 2) as usize
    }
}

/// The slot before a snippet's `│`: a line number, a continuation mark or
/// nothing.
#[derive(Debug, Clone, Copy, PartialEq, Eq)]
pub enum LineWidget {
    /// A real line number, stored 0-based and shown as `idx + 1`.
    Nr(usize),
    Continuation,
    Filler,
}

impl LineWidget {
    pub open spec fn spec_text(&self) -> Seq<char> {
        match self {
            LineWidget::Nr(idx) => pad_left(decimal(*idx as nat + 1), 3) + seq![' '],
            LineWidget::Continuation => seq![' ', ' ', '┆', ' '],
            LineWidget::Filler => spaces(4),
        }
    }

    /// The widget of a line: its number shown as is.
    pub fn from_line(line: Line) -> (w: LineWidget)
        ensures
            w == LineWidget::Nr((line.num() - 1) as usize),
    {
        LineWidget::Nr(line.get() - 1)
    }

    /// The widget as it is printed.
    pub fn text(&self) -> (r: String)
        ensures
            r@ == self.spec_text(),
    {
        match self {
            LineWidget::Nr(idx) => {
                let digits = decimal_of_successor(*idx);
                let mut r = padded_left(digits.as_str(), 3);
                push_char(&mut r, ' ');
                r
            },
            LineWidget::Continuation => {
                let mut r = String::new();
                push_spaces(&mut r, 2);
                push_char(&mut r, '┆');
                push_char(&mut r, ' ');
                assert(r@ =~= seq![' ', ' ', '┆', ' ']);
                r
            },
            LineWidget::Filler => {
                let mut r = String::new();
                push_spaces(&mut r, 4);
                r
            },
        }
    }
}

// ---------------------------------------------------------------------------
// Snippets of a document
// ---------------------------------------------------------------------------

/// The lines `from..=to` (counted from 1) of a document's text.
pub struct Snippet<'s> {
    lines: &'s [String],
    from: Line,
    to: Line,
}

/// Why lines cannot make a snippet.
#[derive(Debug, Clone, Copy, PartialEq, Eq, Structural)]
pub enum SnippetError {
    /// `to` does not come after `from`.
    ToNotAfterFrom,
    /// `to` lies beyond the last line.
    OutOfBounds,
}

/// Lines `from..=to`, each with its number.
pub open spec fn numbered_lines(lines: Seq<Seq<char>>, from: int, to: int) -> Seq<(int, Seq<char>)> {
    Seq::new(if to >= from { (to - from + 1) as nat } else { 0 }, |k: int| (from + k, lines[from + k - 1]))
}

impl<'s> Snippet<'s> {
    #[verifier::type_invariant]
    spec fn within(self) -> bool {
        &&& self.to.num() <= self.lines@.len()
        &&& self.lines@.len() > 0
    }

    pub closed spec fn spec_from(&self) -> int {
        self.from.num()
    }

    pub closed spec fn spec_to(&self) -> int {
        self.to.num()
    }

    pub closed spec fn spec_lines(&self) -> Seq<Seq<char>> {
        strings_view(self.lines@)
    }

    /// The lines `from..=to`, where `to` comes after `from` and lies
    /// within the lines.
    pub fn try_new(lines: &'s [String], from: Line, to: Line) -> (r: Result<Snippet<'s>, SnippetError>)
        ensures
            match r {
                Ok(s) => s.spec_lines() == strings_view(lines@) && s.spec_from() == from.num() && s.spec_to() == to.num()
                    && from.num() < to.num() <= lines@.len(),
                Err(SnippetError::ToNotAfterFrom) => to.num() <= from.num(),
                Err(SnippetError::OutOfBounds) => from.num() < to.num() && to.num() > lines@.len(),
            },
    {
        if to.get() <= from.get() {
            return Err(SnippetError::ToNotAfterFrom);
        }
        if to.get() > lines.len() {
            return Err(SnippetError::OutOfBounds);
        }
        Ok(Snippet { lines, from, to })
    }

    /// The lines `from..=to`, with `to` lowered to the last line where it
    /// lies beyond.
    pub fn new_clamped(lines: &'s [String], from: Line, to: Line) -> (r: Snippet<'s>)
        requires
            lines@.len() > 0,
        ensures
            r.spec_lines() == strings_view(lines@),
            r.spec_from() == from.num(),
            r.spec_to() == if to.num() <= lines@.len() { to.num() } else { lines@.len() as int },
    {
        let last = Line::unchecked(lines.len());
        let to = last.min(to);
        Snippet { lines, from, to }
    }

    /// The numbered lines of the snippet.
    pub fn iter(&self) -> (r: Vec<(Line, String)>)
        ensures
            self.spec_from() >= 1,
            self.spec_to() <= self.spec_lines().len(),
            r@.map_values(|e: (Line, String)| (e.0.num(), e.1@)) == numbered_lines(
                self.spec_lines(),
                self.spec_from(),
                self.spec_to(),
            ),
    {
        proof {
            use_type_invariant(self);
        }
        let ghost target = numbered_lines(self.spec_lines(), self.spec_from(), self.spec_to());
        let mut out: Vec<(Line, String)> = Vec::new();
        let from = self.from.get();
        let to = self.to.get();
        let count = if to >= from { to - from + 1 } else { 0 };
        let mut k: usize = 0;
        while k < count
            invariant
                k <= count,
                from == self.from.num(),
                from >= 1,
                to == self.to.num(),
                to <= self.lines@.len(),
                count == (if to >= from { to - from + 1 } else { 0 }),
                target == numbered_lines(self.spec_lines(), self.spec_from(), self.spec_to()),
                out@.len() == k,
                forall|j: int| 0 <= j < out@.len() ==> (#[trigger] out@[j]).0.num() == target[j].0 && out@[j].1@ == target[j].1,
            decreases count - k,
        {
            let current = from + k;
            let text = self.lines[current - 1].clone();
            out.push((Line::unchecked(current), text));
            k = k + 1;
        }
        assert(out@.map_values(|e: (Line, String)| (e.0.num(), e.1@)) =~= target);
        out
    }

    /// The lines up to `split_at`, and those after it.
    pub fn split(&self, split_at: Line) -> (r: (Snippet<'s>, Snippet<'s>))
        ensures
            r.0.spec_lines() == self.spec_lines(),
            r.1.spec_lines() == self.spec_lines(),
            r.0.spec_from() == self.spec_from(),
            r.0.spec_to() == if split_at.num() <= self.spec_lines().len() { split_at.num() } else { self.spec_lines().len() as int },
            r.1.spec_from() == if split_at.num() + 1 > usize::MAX { usize::MAX as int } else { split_at.num() + 1 },
            r.1.spec_to() == self.spec_to(),
    {
        proof {
            use_type_invariant(self);
        }
        let left = Snippet::new_clamped(self.lines, self.from, split_at);
        let right = Snippet::new_clamped(self.lines, split_at.add(1), self.to);
        (left, right)
    }
}

// ---------------------------------------------------------------------------
// Where a gap goes in the other document
// ---------------------------------------------------------------------------

pub open spec fn opt_path_push(pp: Seq<SegmentV>, cond: bool, s: SegmentV) -> Option<Seq<SegmentV>> {
    if cond {
        Some(pp.push(s))
    } else {
        None
    }
}

/// The paths of the siblings before and after `head` below the node
/// `parent` at `pp`: neighbouring indices in a sequence (the one after
/// given whenever `head` lies within it), neighbouring keys in a mapping
/// (none where the key is absent). `None` where `head` is no step into
/// `parent`.
pub open spec fn surrounding(parent: NodeV, pp: Seq<SegmentV>, head: SegmentV) -> Option<(Option<Seq<SegmentV>>, Option<Seq<SegmentV>>)> {
    match parent.data {
        DataV::Sequence(children) => match head {
            SegmentV::Index(idx) => Some(
                (
                    opt_path_push(pp, idx > 0, SegmentV::Index((idx - 1) as usize)),
                    opt_path_push(pp, idx < children.len(), SegmentV::Index((idx + 1) as usize)),
                ),
            ),
            _ => None,
        },
        DataV::Mapping(children) => match head {
            SegmentV::Field(k) => match first_key(children, k, children.len() as int) {
                Some(i) => Some(
                    (
                        if i > 0 {
                            Some(pp.push(SegmentV::Field(children[i - 1].key)))
                        } else {
                            None
                        },
                        if i < children.len() - 1 {
                            Some(pp.push(SegmentV::Field(children[i + 1].key)))
                        } else {
                            None
                        },
                    ),
                ),
                None => Some((None, None)),
            },
            _ => None,
        },
        _ => None,
    }
}

/// The siblings before and after `head` below `parent`, as [`surrounding`]
/// states. `parent` must be a sequence or a mapping.
pub fn surrounding_paths(parent: &Node, parent_path: &Path, head: &Segment) -> (r: Option<(Option<Path>, Option<Path>)>)
    requires
        parent@.data is Sequence || parent@.data is Mapping,
    ensures
        match surrounding(parent@, parent_path@, head@) {
            Some((b, a)) => r matches Some((rb, ra)) && (match b {
                Some(p) => rb matches Some(x) && x@ == p,
                None => rb is None,
            }) && (match a {
                Some(p) => ra matches Some(x) && x@ == p,
                None => ra is None,
            }),
            None => r is None,
        },
{
    proof {
        lemma_view_unfold(*parent);
    }
    match &parent.data {
        YamlData::Sequence(children) => {
            proof {
                lemma_nodes_view(children@);
            }
            let idx = match head {
                Segment::Index(i) => *i,
                Segment::Field(_) => {
                    return None;
                },
            };
            let left = if idx > 0 { Some(parent_path.push(Segment::index(idx - 1))) } else { None };
            let right = if idx < children.len() { Some(parent_path.push(Segment::index(idx + 1))) } else { None };
            Some((left, right))
        },
        YamlData::Mapping(children) => {
            proof {
                lemma_entries_view(children@);
            }
            let target = match head {
                Segment::Field(k) => k,
                Segment::Index(_) => {
                    return None;
                },
            };
            let ghost cv = entries_view(children@);
            let n = children.len();
            let mut i: usize = 0;
            assert(parent@.data == DataV::Mapping(cv));
            while i < n
                invariant
                    i <= n,
                    n == children@.len(),
                    cv == entries_view(children@),
                    parent@.data == DataV::Mapping(cv),
                    head@ == SegmentV::Field(target@),
                    cv.len() == n,
                    forall|j: int| 0 <= j < n ==> (#[trigger] cv[j]).key == children@[j].key@,
                    first_key(cv, target@, i as int) is None,
                decreases n - i,
            {
                if crate::yaml::str_eq(children[i].key.as_str(), target.as_str()) {
                    assert(first_key(cv, target@, i + 1) == Some(i as int));
                    proof {
                        crate::diff::lemma_first_key_stable(cv, target@, i + 1, n as int);
                    }
                    let before = if i > 0 {
                        Some(parent_path.push(Segment::field(children[i - 1].key.as_str())))
                    } else {
                        None
                    };
                    let after = if i < n - 1 {
                        Some(parent_path.push(Segment::field(children[i + 1].key.as_str())))
                    } else {
                        None
                    };
                    return Some((before, after));
                }
                i = i + 1;
            }
            Some((None, None))
        },
        _ => None,
    }
}

/// For an element of a sequence, the index one lower, since the other
/// document lacks the element that was added before it.
pub open spec fn adjust(path: Seq<SegmentV>, parent: NodeV) -> Seq<SegmentV> {
    if parent.data is Sequence && path.len() > 0 && path.last() is Index && path.last()->Index_0 > 0 {
        path.drop_last().push(SegmentV::Index((path.last()->Index_0 - 1) as usize))
    } else {
        path
    }
}

/// Moves the path of a sequence element one index down, as [`adjust`]
/// states.
pub fn adjust_path_for_secondary(path: &Path, parent: &Node) -> (r: Path)
    ensures
        r@ == adjust(path@, parent@),
{
    proof {
        lemma_view_unfold(*parent);
    }
    match &parent.data {
        YamlData::Sequence(_) => {
            let segments = path.segments();
            if segments.len() > 0 {
                match &segments[segments.len() - 1] {
                    Segment::Index(idx) => {
                        if *idx > 0 {
                            let parent_path = path.parent();
                            match parent_path {
                                Some(pp) => {
                                    return pp.push(Segment::index(*idx - 1));
                                },
                                None => {},
                            }
                        }
                    },
                    Segment::Field(_) => {},
                }
            }
            path.copy()
        },
        _ => path.copy(),
    }
}

/// A line counted across the file as a line of the document that starts at
/// `start`.
pub open spec fn rel(line: int, start: int) -> int {
    sat_sub(line, start) + 1
}

/// Whether a node is a sequence or a mapping.
pub open spec fn is_container(n: NodeV) -> bool {
    n.data is Sequence || n.data is Mapping
}

/// The line of the other document after which the gap for the node at
/// `path` goes: after the end of the sibling before it (the line before
/// the end, for a sequence or a mapping), else before the start of the
/// sibling after it, else at the start of the parent, else at line 1.
/// `None` where the parent is missing from the primary document or the last
/// step does not lead into it.
pub open spec fn gap_line(pri: NodeV, sec: NodeV, sec_start: int, path: Seq<SegmentV>) -> Option<int> {
    let parent = path.drop_last();
    match node_at(pri, parent) {
        None => None,
        Some(pn) => match surrounding(pn, parent, path.last()) {
            None => None,
            Some((bp, ap)) => {
                let cand = match bp {
                    Some(p) => node_at(sec, p),
                    None => None,
                };
                match cand {
                    Some(before) => Some(rel(before.span.end.line - if is_container(before) { 1int } else { 0int }, sec_start)),
                    None => match ap {
                        Some(after) => match node_at(sec, adjust(after, pn)) {
                            Some(an) => Some(rel(an.span.start.line - 1, sec_start)),
                            None => Some(
                                match node_at(sec, parent) {
                                    Some(p) => rel(p.span.start.line as int, sec_start),
                                    None => 1,
                                },
                            ),
                        },
                        None => Some(1),
                    },
                }
            },
        },
    }
}

/// Whether [`gap_line`] can be computed without leaving the machine's
/// integers: the parent in the primary document, where present, is a
/// sequence or a mapping, and the lines it reads are positive.
pub open spec fn gap_computable(pri: NodeV, sec: NodeV, sec_start: int, path: Seq<SegmentV>) -> bool {
    let parent = path.drop_last();
    match node_at(pri, parent) {
        None => true,
        Some(pn) => is_container(pn) && match surrounding(pn, parent, path.last()) {
            None => true,
            Some((bp, ap)) => {
                let cand = match bp {
                    Some(p) => node_at(sec, p),
                    None => None,
                };
                match cand {
                    Some(before) => before.span.end.line >= 1 && before.span.end.line < usize::MAX,
                    None => match ap {
                        Some(after) => match node_at(sec, adjust(after, pn)) {
                            Some(an) => an.span.start.line >= 1,
                            None => match node_at(sec, parent) {
                                Some(p) => p.span.start.line < usize::MAX || sec_start > 0,
                                None => true,
                            },
                        },
                        None => true,
                    },
                }
            },
        },
    }
}

/// The line of the secondary document after which the gap for the node at
/// `path_to_change` goes, as [`gap_line`] states.
pub fn gap_start(primary_doc: &YamlSource, secondary_doc: &YamlSource, path_to_change: &Path) -> (r: Option<Line>)
    requires
        path_to_change@.len() > 0,
        gap_computable(primary_doc.yaml@, secondary_doc.yaml@, secondary_doc.start as int, path_to_change@),
    ensures
        match gap_line(primary_doc.yaml@, secondary_doc.yaml@, secondary_doc.start as int, path_to_change@) {
            Some(l) => r matches Some(x) && x.num() == l,
            None => r is None,
        },
{
    let parent = match path_to_change.parent() {
        Some(p) => p,
        None => {
            return None;
        },
    };
    let segs = path_to_change.segments();
    let head = &segs[segs.len() - 1];
    assert(head@ == path_to_change@.last());
    let primary_parent_node = match node_in(&primary_doc.yaml, &parent) {
        Some(n) => n,
        None => {
            return None;
        },
    };
    let (before_path, after_path) = match surrounding_paths(primary_parent_node, &parent, head) {
        Some(x) => x,
        None => {
            return None;
        },
    };
    let candidate = match &before_path {
        Some(p) => node_in(&secondary_doc.yaml, p),
        None => None,
    };
    match candidate {
        Some(before) => {
            proof {
                lemma_view_unfold(*before);
            }
            let adjustment: usize = match &before.data {
                YamlData::Sequence(_) => 1,
                YamlData::Mapping(_) => 1,
                _ => 0,
            };
            Some(secondary_doc.relative_line(before.span.end.line - adjustment))
        },
        None => {
            match &after_path {
                Some(after) => {
                    let adjusted = adjust_path_for_secondary(after, primary_parent_node);
                    match node_in(&secondary_doc.yaml, &adjusted) {
                        Some(after_node) => Some(secondary_doc.relative_line(after_node.span.start.line - 1)),
                        None => {
                            match node_in(&secondary_doc.yaml, &parent) {
                                Some(p) => Some(secondary_doc.relative_line(p.span.start.line)),
                                None => Some(Line::one()),
                            }
                        },
                    }
                },
                None => Some(Line::one()),
            }
        },
    }
}

// ---------------------------------------------------------------------------
// The two sides of an added or removed node
// ---------------------------------------------------------------------------

/// The lines of a document as they are shown.
pub open spec fn doc_lines(d: YamlSource) -> Seq<Seq<char>> {
    skip_separators(lines_of(d.content@))
}

/// Whether every line of a document is within [`text_limit`].
pub open spec fn lines_fit(d: YamlSource) -> bool {
    forall|i: int| 0 <= i < doc_lines(d).len() ==> (#[trigger] doc_lines(d)[i]).len() <= text_limit()
}

/// `a + b`, at most `usize::MAX`.
pub open spec fn sat_add(a: int, b: int) -> int {
    if a + b > usize::MAX {
        usize::MAX as int
    } else {
        a + b
    }
}

/// `a - b`, at least line 1.
pub open spec fn line_sub(a: int, b: int) -> int {
    if a <= b {
        1
    } else {
        a - b
    }
}

pub open spec fn min_int(a: int, b: int) -> int {
    if a <= b {
        a
    } else {
        b
    }
}

/// The lines of the file where an item starts (with its key) and ends.
pub open spec fn item_lines(i: ItemV) -> (int, int) {
    match i {
        ItemV::KV(_, ks, v) => (ks.start.line as int, v.span.end.line as int),
        ItemV::ArrayElement(_, v) => (v.span.start.line as int, v.span.end.line as int),
    }
}

/// Lines `from..=to`, each formatted with `hl` where it lies in
/// `cs..ce`, with `un` elsewhere.
pub open spec fn styled_lines(lines: Seq<Seq<char>>, from: int, to: int, cs: int, ce: int, hl: Highlight, un: Highlight, hw: int) -> Seq<Seq<Seq<char>>> {
    let nl = numbered_lines(lines, from, to);
    Seq::new(
        nl.len(),
        |k: int| line_rows((nl[k].0 - 1) as usize, nl[k].1, if cs <= nl[k].0 < ce { hl } else { un }, hw),
    )
}

/// The side that holds the item: the lines of the item highlighted (at
/// least one), with `vc` lines of context around them.
pub open spec fn primary_rows(d: YamlSource, item: ItemV, vc: int, hl: Highlight, un: Highlight, hw: int) -> Seq<Seq<Seq<char>>> {
    let (a, b) = item_lines(item);
    let cs = rel(a, d.start as int);
    let ce = rel(b, d.start as int);
    let lines = doc_lines(d);
    let from = line_sub(cs, vc);
    let to = min_int(min_int(sat_add(ce, vc), d.last_line.num()), lines.len() as int);
    let ce2 = if cs < ce { ce } else { sat_add(ce, 1) };
    styled_lines(lines, from, to, cs, ce2, hl, un, hw)
}

/// Whether the primary side can be rendered: its lines exist and fit, and
/// the item's lines can be counted from the document's start.
pub open spec fn primary_renderable(d: YamlSource, item: ItemV, hl: Highlight, un: Highlight) -> bool {
    let (a, b) = item_lines(item);
    &&& doc_lines(d).len() > 0
    &&& lines_fit(d)
    &&& highlight_fits(hl)
    &&& highlight_fits(un)
    &&& sat_sub(a, d.start as int) < usize::MAX
    &&& sat_sub(b, d.start as int) < usize::MAX
}

fn format_lines(numbered: &Vec<(Line, String)>, cs: usize, ce: usize, hl: &Highlight, un: &Highlight, hw: usize, groups: &mut Vec<SourceLineGroup>)
    requires
        forall|k: int| 0 <= k < numbered@.len() ==> (#[trigger] numbered@[k]).1@.len() <= text_limit(),
        hw <= text_limit(),
        highlight_fits(*hl),
        highlight_fits(*un),
    ensures
        final(groups)@.map_values(|g: SourceLineGroup| g.rows()) == old(groups)@.map_values(|g: SourceLineGroup| g.rows()) + Seq::new(
            numbered@.len(),
            |k: int| line_rows((numbered@[k].0.num() - 1) as usize, numbered@[k].1@, if cs <= numbered@[k].0.num() < ce { *hl } else { *un }, hw as int),
        ),
{
    let ghost before = groups@.map_values(|g: SourceLineGroup| g.rows());
    let ghost target = Seq::new(
        numbered@.len(),
        |k: int| line_rows((numbered@[k].0.num() - 1) as usize, numbered@[k].1@, if cs <= numbered@[k].0.num() < ce { *hl } else { *un }, hw as int),
    );
    let mut k: usize = 0;
    while k < numbered.len()
        invariant
            k <= numbered@.len(),
            forall|j: int| 0 <= j < numbered@.len() ==> (#[trigger] numbered@[j]).1@.len() <= text_limit(),
            hw <= text_limit(),
            highlight_fits(*hl),
            highlight_fits(*un),
            target == Seq::new(
                numbered@.len(),
                |k: int| line_rows((numbered@[k].0.num() - 1) as usize, numbered@[k].1@, if cs <= numbered@[k].0.num() < ce { *hl } else { *un }, hw as int),
            ),
            groups@.map_values(|g: SourceLineGroup| g.rows()) == before + target.take(k as int),
        decreases numbered.len() - k,
    {
        let (nr, text) = (&numbered[k].0, &numbered[k].1);
        let n = nr.get();
        let style = if cs <= n && n < ce { hl } else { un };
        let g = format_line(n - 1, text.as_str(), style, hw);
        let ghost prev = groups@.map_values(|g: SourceLineGroup| g.rows());
        groups.push(g);
        assert(groups@.map_values(|g: SourceLineGroup| g.rows()) =~= prev.push(g.rows()));
        assert(target.take(k + 1) =~= target.take(k as int).push(target[k as int]));
        k = k + 1;
    }
    assert(target.take(numbered@.len() as int) =~= target);
}

/// The side that holds the item, as [`primary_rows`] states.
pub fn render_primary_side(ctx: &RenderContext, primary_doc: &YamlSource, item: &Item, highlighting: &Highlight, unchanged: &Highlight) -> (c: Column)
    requires
        primary_renderable(*primary_doc, item@, *highlighting, *unchanged),
        ctx.max_width >= SIDE_CHROME,
    ensures
        c.rows() == primary_rows(*primary_doc, item@, ctx.visual_context as int, *highlighting, *unchanged, ctx.spec_half_width()),
{
    let lines = primary_doc.lines();
    let (a, b) = match item {
        Item::KV { key_span, value, .. } => (key_span.start.line, value.span.end.line),
        Item::ArrayElement { value, .. } => (value.span.start.line, value.span.end.line),
    };
    let change_start = primary_doc.relative_line(a);
    let change_end = primary_doc.relative_line(b);
    let start = change_start.saturating_sub(ctx.visual_context);
    let end = change_end.add(ctx.visual_context).min(primary_doc.last_line);
    assert(strings_view(lines@).len() == lines@.len());
    let snippet = Snippet::new_clamped(lines.as_slice(), start, end);
    let range_end = if change_start.lt(&change_end) { change_end } else { change_end.add(1) };
    let numbered = snippet.iter();
    let hw = ctx.half_width();
    proof {
        let dl = doc_lines(*primary_doc);
        assert(strings_view(lines@) == dl);
        assert forall|k: int| 0 <= k < numbered@.len() implies (#[trigger] numbered@[k]).1@.len() <= text_limit() by {
            let nv = numbered@.map_values(|e: (Line, String)| (e.0.num(), e.1@));
            assert(nv[k] == (numbered@[k].0.num(), numbered@[k].1@));
            let idx = snippet.spec_from() + k - 1;
            assert(snippet.spec_lines() == dl);
            assert(nv == numbered_lines(dl, snippet.spec_from(), snippet.spec_to()));
            assert(snippet.spec_to() <= dl.len());
            assert(snippet.spec_from() >= 1);
            assert(nv.len() == numbered@.len());
            assert(0 <= idx < dl.len());
            assert(nv[k].1 == dl[idx]);
            assert(dl[idx].len() <= text_limit());
        }
    }
    let mut groups: Vec<SourceLineGroup> = Vec::new();
    format_lines(&numbered, change_start.get(), range_end.get(), highlighting, unchanged, hw, &mut groups);
    let c = Column(groups);
    proof {
        let target = primary_rows(*primary_doc, item@, ctx.visual_context as int, *highlighting, *unchanged, ctx.spec_half_width());
        let nv = numbered@.map_values(|e: (Line, String)| (e.0.num(), e.1@));
        assert(c.rows() =~= target) by {
            assert forall|k: int| 0 <= k < numbered@.len() implies nv[k] == (numbered@[k].0.num(), numbered@[k].1@) by {}
        }
    }
    c
}

/// A group of one blank row.
pub open spec fn blank_group(hw: int) -> Seq<Seq<char>> {
    seq![blank_row(hw)]
}

pub open spec fn blanks(n: int, hw: int) -> Seq<Seq<Seq<char>>> {
    Seq::new(if n >= 0 { n as nat } else { 0 }, |k: int| blank_group(hw))
}

/// The line of the secondary document after which the gap goes, line 1
/// where there is none.
pub open spec fn gap_or_first(pri: YamlSource, sec: YamlSource, path: Seq<SegmentV>) -> int {
    match gap_line(pri.yaml@, sec.yaml@, sec.start as int, path) {
        Some(l) => l,
        None => 1,
    }
}

/// The side that lacks the item: `vc` lines of context around the line
/// after which the gap goes, split there by `gap_size` blank rows.
pub open spec fn secondary_rows(pri: YamlSource, sec: YamlSource, path: Seq<SegmentV>, prc: int, gap_size: int, vc: int, un: Highlight, hw: int) -> Seq<Seq<Seq<char>>> {
    let g = gap_or_first(pri, sec, path);
    let start = line_sub(sat_add(g, 1), vc);
    let end = sat_add(sat_add(g, vc), 1);
    let lines = doc_lines(sec);
    let d = if end >= start { end - start } else { start - end };
    let filler = if d > prc { 0 } else { sat_sub(d, prc) };
    blanks(filler, hw) + styled_lines(lines, start, min_int(g, lines.len() as int), 0, 0, un, un, hw) + blanks(gap_size, hw)
        + styled_lines(lines, sat_add(g, 1), min_int(end, lines.len() as int), 0, 0, un, un, hw)
}

/// Whether the secondary side can be rendered.
pub open spec fn secondary_renderable(pri: YamlSource, sec: YamlSource, path: Seq<SegmentV>, un: Highlight) -> bool {
    &&& path.len() > 0
    &&& gap_computable(pri.yaml@, sec.yaml@, sec.start as int, path)
    &&& doc_lines(sec).len() > 0
    &&& lines_fit(sec)
    &&& highlight_fits(un)
}

fn push_blanks(groups: &mut Vec<SourceLineGroup>, n: usize, hw: usize)
    ensures
        final(groups)@.map_values(|g: SourceLineGroup| g.rows()) == old(groups)@.map_values(|g: SourceLineGroup| g.rows()) + blanks(n as int, hw as int),
{
    let ghost before = groups@.map_values(|g: SourceLineGroup| g.rows());
    let mut k: usize = 0;
    while k < n
        invariant
            k <= n,
            groups@.map_values(|g: SourceLineGroup| g.rows()) == before + blanks(k as int, hw as int),
        decreases n - k,
    {
        let mut rows: Vec<FormattedRow> = Vec::new();
        rows.push(FormattedRow::blank(hw));
        let g = SourceLineGroup(rows);
        assert(g.rows() =~= blank_group(hw as int));
        let ghost prev = groups@.map_values(|g: SourceLineGroup| g.rows());
        groups.push(g);
        assert(groups@.map_values(|g: SourceLineGroup| g.rows()) =~= prev.push(g.rows()));
        assert(blanks(k + 1, hw as int) =~= blanks(k as int, hw as int).push(blank_group(hw as int)));
        k = k + 1;
    }
}

/// Formats the lines of a snippet in one style.
fn push_snippet(groups: &mut Vec<SourceLineGroup>, snippet: &Snippet, un: &Highlight, hw: usize)
    requires
        forall|i: int| 0 <= i < snippet.spec_lines().len() ==> (#[trigger] snippet.spec_lines()[i]).len() <= text_limit(),
        hw <= text_limit(),
        highlight_fits(*un),
    ensures
        final(groups)@.map_values(|g: SourceLineGroup| g.rows()) == old(groups)@.map_values(|g: SourceLineGroup| g.rows())
            + styled_lines(snippet.spec_lines(), snippet.spec_from(), snippet.spec_to(), 0, 0, *un, *un, hw as int),
{
    proof {
        use_type_invariant(snippet);
    }
    let numbered = snippet.iter();
    let ghost nv = numbered@.map_values(|e: (Line, String)| (e.0.num(), e.1@));
    let ghost dl = snippet.spec_lines();
    proof {
        assert forall|k: int| 0 <= k < numbered@.len() implies (#[trigger] numbered@[k]).1@.len() <= text_limit() by {
            assert(nv[k] == (numbered@[k].0.num(), numbered@[k].1@));
            assert(nv.len() == numbered@.len());
            let idx = snippet.spec_from() + k - 1;
            assert(0 <= idx < dl.len());
            assert(nv[k].1 == dl[idx]);
        }
    }
    let ghost before = groups@.map_values(|g: SourceLineGroup| g.rows());
    format_lines(&numbered, 0, 0, un, un, hw, groups);
    proof {
        let target = styled_lines(dl, snippet.spec_from(), snippet.spec_to(), 0, 0, *un, *un, hw as int);
        assert forall|k: int| 0 <= k < numbered@.len() implies nv[k] == (numbered@[k].0.num(), numbered@[k].1@) by {}
        assert(groups@.map_values(|g: SourceLineGroup| g.rows()) =~= before + target);
    }
}

/// The side that lacks the item, as [`secondary_rows`] states.
pub fn render_secondary_side(
    ctx: &RenderContext,
    primary_doc: &YamlSource,
    secondary_doc: &YamlSource,
    path_to_changed_node: &Path,
    primary_row_count: usize,
    gap_size: usize,
    unchanged: &Highlight,
) -> (c: Column)
    requires
        secondary_renderable(*primary_doc, *secondary_doc, path_to_changed_node@, *unchanged),
        ctx.max_width >= SIDE_CHROME,
    ensures
        c.rows() == secondary_rows(
            *primary_doc,
            *secondary_doc,
            path_to_changed_node@,
            primary_row_count as int,
            gap_size as int,
            ctx.visual_context as int,
            *unchanged,
            ctx.spec_half_width(),
        ),
{
    let g = match gap_start(primary_doc, secondary_doc, path_to_changed_node) {
        Some(l) => l,
        None => Line::one(),
    };
    let vc = ctx.visual_context;
    let start = g.add(1).saturating_sub(vc);
    let end = g.add(vc).add(1);
    let lines = secondary_doc.lines();
    assert(strings_view(lines@).len() == lines@.len());
    let s = Snippet::new_clamped(lines.as_slice(), start, end);
    let (before_gap, after_gap) = s.split(g);
    let d = end.distance(&start);
    let filler_len = if d > primary_row_count { 0 } else { d.saturating_sub(primary_row_count) };
    let hw = ctx.half_width();
    let mut groups: Vec<SourceLineGroup> = Vec::new();
    assert(groups@.map_values(|g: SourceLineGroup| g.rows()) =~= Seq::<Seq<Seq<char>>>::empty());
    push_blanks(&mut groups, filler_len, hw);
    push_snippet(&mut groups, &before_gap, unchanged, hw);
    push_blanks(&mut groups, gap_size, hw);
    push_snippet(&mut groups, &after_gap, unchanged, hw);
    let c = Column(groups);
    proof {
        let target = secondary_rows(
            *primary_doc,
            *secondary_doc,
            path_to_changed_node@,
            primary_row_count as int,
            gap_size as int,
            ctx.visual_context as int,
            *unchanged,
            ctx.spec_half_width(),
        );
        assert(g.num() == gap_or_first(*primary_doc, *secondary_doc, path_to_changed_node@));
        assert(c.rows() =~= target);
    }
    c
}

/// The lines joined by line feeds.
pub open spec fn join_lines(ls: Seq<Seq<char>>) -> Seq<char>
    decreases ls.len(),
{
    if ls.len() == 0 {
        seq![]
    } else if ls.len() == 1 {
        ls[0]
    } else {
        join_lines(ls.drop_last()) + seq!['\n'] + ls.last()
    }
}

/// `lines.join("\n")`.
pub fn join(lines: &Vec<String>) -> (r: String)
    ensures
        r@ == join_lines(strings_view(lines@)),
{
    let ghost sv = strings_view(lines@);
    let mut out = String::new();
    let mut i: usize = 0;
    while i < lines.len()
        invariant
            i <= lines@.len(),
            sv == strings_view(lines@),
            out@ == join_lines(sv.take(i as int)),
        decreases lines.len() - i,
    {
        if i > 0 {
            push_char(&mut out, '\n');
        }
        out.append(lines[i].as_str());
        assert(sv.take(i + 1).drop_last() =~= sv.take(i as int));
        assert(out@ =~= join_lines(sv.take(i + 1)));
        i = i + 1;
    }
    assert(sv.take(i as int) =~= sv);
    out
}

/// Whether a removed node or an added one is rendered.
#[derive(Debug, Clone, Copy, PartialEq, Eq, Structural)]
pub enum ChangeType {
    Removal,
    Addition,
}

/// Whether the theme's markers are within [`text_limit`].
pub open spec fn theme_fits(t: Theme) -> bool {
    highlight_fits(t.added) && highlight_fits(t.removed) && highlight_fits(t.changed) && highlight_fits(t.dimmed)
        && highlight_fits(t.header)
}

/// The side-by-side rendering of a node present in one document only: the
/// document holding it, its lines highlighted, beside the other document
/// with a gap where the node would go; the left document on the left.
pub open spec fn change_text(ctx: RenderContext, path: Seq<SegmentV>, item: ItemV, left: YamlSource, right: YamlSource, ct: ChangeType) -> Seq<char> {
    let (larger, gapped) = match ct {
        ChangeType::Removal => (left, right),
        ChangeType::Addition => (right, left),
    };
    let hl = match ct {
        ChangeType::Removal => ctx.theme.removed,
        ChangeType::Addition => ctx.theme.added,
    };
    let hw = ctx.spec_half_width();
    let primary = primary_rows(larger, item, ctx.visual_context as int, hl, ctx.theme.dimmed, hw);
    let prc = crate::layout::total_rows(primary);
    let prc_sat = if prc > usize::MAX { usize::MAX as int } else { prc };
    let secondary = secondary_rows(larger, gapped, path, prc_sat, item_height(item), ctx.visual_context as int, ctx.theme.dimmed, hw);
    join_lines(
        match ct {
            ChangeType::Removal => zip_with_spec(primary, secondary, hw),
            ChangeType::Addition => zip_with_spec(secondary, primary, hw),
        },
    )
}

/// Whether a node present in one document only can be rendered.
pub open spec fn change_renderable(ctx: RenderContext, path: Seq<SegmentV>, item: ItemV, left: YamlSource, right: YamlSource, ct: ChangeType) -> bool {
    let (larger, gapped) = match ct {
        ChangeType::Removal => (left, right),
        ChangeType::Addition => (right, left),
    };
    &&& ctx.max_width >= SIDE_CHROME
    &&& theme_fits(ctx.theme)
    &&& primary_renderable(larger, item, ctx.theme.removed, ctx.theme.dimmed)
    &&& primary_renderable(larger, item, ctx.theme.added, ctx.theme.dimmed)
    &&& secondary_renderable(larger, gapped, path, ctx.theme.dimmed)
}

/// Renders a node present in one document only, as [`change_text`] states.
pub fn render_change(ctx: &RenderContext, path_to_change: &Path, changed: &Item, left_doc: &YamlSource, right_doc: &YamlSource, change_type: ChangeType) -> (r: String)
    requires
        change_renderable(*ctx, path_to_change@, changed@, *left_doc, *right_doc, change_type),
    ensures
        r@ == change_text(*ctx, path_to_change@, changed@, *left_doc, *right_doc, change_type),
{
    let (larger, gapped) = match change_type {
        ChangeType::Removal => (left_doc, right_doc),
        ChangeType::Addition => (right_doc, left_doc),
    };
    let highlighting = match change_type {
        ChangeType::Removal => &ctx.theme.removed,
        ChangeType::Addition => &ctx.theme.added,
    };
    let primary = render_primary_side(ctx, larger, changed, highlighting, &ctx.theme.dimmed);
    let gap_size = changed.height();
    let prc = primary.row_count();
    let secondary = render_secondary_side(ctx, larger, gapped, path_to_change, prc, gap_size, &ctx.theme.dimmed);
    let hw = ctx.half_width();
    let lines = match change_type {
        ChangeType::Removal => primary.zip_with(secondary, hw),
        ChangeType::Addition => secondary.zip_with(primary, hw),
    };
    join(&lines)
}

/// Renders a node of the left document that the right one lacks.
pub fn render_removal(ctx: &RenderContext, path_to_change: &Path, removal: &Item, left_doc: &YamlSource, right_doc: &YamlSource) -> (r: String)
    requires
        change_renderable(*ctx, path_to_change@, removal@, *left_doc, *right_doc, ChangeType::Removal),
    ensures
        r@ == change_text(*ctx, path_to_change@, removal@, *left_doc, *right_doc, ChangeType::Removal),
{
    render_change(ctx, path_to_change, removal, left_doc, right_doc, ChangeType::Removal)
}

/// Renders a node of the right document that the left one lacks.
pub fn render_added(ctx: &RenderContext, path_to_change: &Path, addition: &Item, left_doc: &YamlSource, right_doc: &YamlSource) -> (r: String)
    requires
        change_renderable(*ctx, path_to_change@, addition@, *left_doc, *right_doc, ChangeType::Addition),
    ensures
        r@ == change_text(*ctx, path_to_change@, addition@, *left_doc, *right_doc, ChangeType::Addition),
{
    render_change(ctx, path_to_change, addition, left_doc, right_doc, ChangeType::Addition)
}

// ---------------------------------------------------------------------------
// A changed value, side by side
// ---------------------------------------------------------------------------

/// Lines of context shown before and after a changed value.
pub const CHANGE_CONTEXT: usize = 5;

/// One side of a changed value: its rows, and how many of its lines stand
/// before the changed line and from it on.
pub struct Rendered {
    pub content: Column,
    pub lines_above: usize,
    pub lines_below: usize,
}

/// The line, counted from 0 within a document's text, where a node starts.
pub open spec fn changed_index(d: YamlSource, node: NodeV) -> int {
    node.span.start.line - d.yaml@.span.start.line
}

/// The first line of the snippet around a changed line.
pub open spec fn changed_start(c: int) -> int {
    sat_sub(c, CHANGE_CONTEXT as int)
}

/// The end (exclusive) of the snippet around a changed line.
pub open spec fn changed_end(c: int, n: int) -> int {
    min_int(c + CHANGE_CONTEXT, n)
}

/// The rows of one side of a changed value: the lines around the changed
/// one dimmed; the changed line itself with its differing characters
/// emphasised where `parts` are given, else whole in the changed style.
pub open spec fn changed_rows(d: YamlSource, node: NodeV, parts: Option<Seq<(Seq<char>, bool)>>, theme: Theme, width: int) -> Seq<Seq<Seq<char>>> {
    let lines = lines_of(d.content@);
    let c = changed_index(d, node);
    let start = changed_start(c);
    let end = changed_end(c, lines.len() as int);
    Seq::new(
        sat_sub(end, start) as nat,
        |k: int|
            {
                let nr = start + k;
                if nr == c {
                    match parts {
                        Some(p) => seq![
                            padded_row(
                                LineWidget::Nr(nr as usize),
                                inline_text(yaml_prefix(lines[nr]), p, theme.changed, theme.dimmed),
                                width,
                            ),
                        ],
                        None => line_rows(nr as usize, lines[nr], theme.changed, width),
                    }
                } else {
                    line_rows(nr as usize, lines[nr], theme.dimmed, width)
                }
            },
    )
}

/// Whether one side of a changed value can be rendered: the node starts
/// within the document's text, and the lines and the styles are within
/// [`text_limit`].
pub open spec fn changed_renderable(d: YamlSource, node: NodeV, theme: Theme, width: int) -> bool {
    let lines = lines_of(d.content@);
    &&& d.yaml@.span.start.line <= node.span.start.line
    &&& changed_index(d, node) <= lines.len()
    &&& changed_index(d, node) + CHANGE_CONTEXT <= usize::MAX
    &&& forall|i: int| 0 <= i < lines.len() ==> (#[trigger] lines[i]).len() <= text_limit()
    &&& width <= text_limit()
    &&& theme_fits(theme)
}

/// One side of a changed value, as [`changed_rows`] states, with the
/// number of lines before the changed line and from it on.
pub fn render_changed_snippet(ctx: &RenderContext, source: &YamlSource, changed_yaml: &Node, inline_parts: &Option<Vec<InlinePart>>) -> (r: Rendered)
    requires
        changed_renderable(*source, changed_yaml@, ctx.theme, ctx.max_width as int),
    ensures
        r.content.rows() == changed_rows(
            *source,
            changed_yaml@,
            match inline_parts {
                Some(p) => Some(parts_view(p@)),
                None => None,
            },
            ctx.theme,
            ctx.max_width as int,
        ),
        r.lines_above == changed_index(*source, changed_yaml@) - changed_start(changed_index(*source, changed_yaml@)),
        r.lines_below == changed_end(changed_index(*source, changed_yaml@), lines_of(source.content@).len() as int)
            - changed_index(*source, changed_yaml@),
{
    let ghost pv = match inline_parts {
        Some(p) => Some(parts_view(p@)),
        None => None,
    };
    let start_line_of_document = source.yaml.span.start.line;
    let lines = text_lines(source.content.as_str());
    let ghost ls = lines_of(source.content@);
    assert(strings_view(lines@).len() == lines@.len());
    let changed_line = changed_yaml.span.start.line - start_line_of_document;
    let start = changed_line.saturating_sub(CHANGE_CONTEXT);
    let end = if changed_line + CHANGE_CONTEXT <= lines.len() { changed_line + CHANGE_CONTEXT } else { lines.len() };
    let width = ctx.max_width as usize;
    let ghost target = changed_rows(*source, changed_yaml@, pv, ctx.theme, width as int);
    let mut groups: Vec<SourceLineGroup> = Vec::new();
    let mut nr = start;
    while nr < end
        invariant
            start <= nr <= end <= lines@.len(),
            start == changed_start(changed_line as int),
            end == changed_end(changed_line as int, ls.len() as int),
            changed_line == changed_index(*source, changed_yaml@),
            strings_view(lines@) == ls,
            ls == lines_of(source.content@),
            width == ctx.max_width,
            changed_renderable(*source, changed_yaml@, ctx.theme, ctx.max_width as int),
            pv == match inline_parts {
                Some(p) => Some(parts_view(p@)),
                None => None,
            },
            target == changed_rows(*source, changed_yaml@, pv, ctx.theme, width as int),
            groups@.map_values(|g: SourceLineGroup| g.rows()) == target.take(nr - start),
        decreases end - nr,
    {
        let line = lines[nr].as_str();
        assert(line@ == ls[nr as int]);
        assert(line@.len() <= text_limit());
        let g = if nr == changed_line {
            match inline_parts {
                Some(parts) => {
                    let prefix = extract_yaml_prefix(line);
                    format_with_inline_highlights(nr, prefix, parts, &ctx.theme, width)
                },
                None => format_line(nr, line, &ctx.theme.changed, width),
            }
        } else {
            format_line(nr, line, &ctx.theme.dimmed, width)
        };
        let ghost prev = groups@.map_values(|g: SourceLineGroup| g.rows());
        groups.push(g);
        proof {
            assert(g.rows() == target[nr - start]);
            assert(groups@.map_values(|g: SourceLineGroup| g.rows()) =~= prev.push(g.rows()));
            assert(target.take(nr + 1 - start) =~= target.take(nr - start).push(target[nr - start]));
        }
        nr = nr + 1;
    }
    assert(target.take(end - start) =~= target);
    Rendered { content: Column(groups), lines_above: changed_line - start, lines_below: end - changed_line }
}

/// The inline parts of the two sides of a changed value: computed where
/// both values are strings, none otherwise.
pub open spec fn pair_parts(left: NodeV, right: NodeV) -> (Option<Seq<(Seq<char>, bool)>>, Option<Seq<(Seq<char>, bool)>>) {
    match (left.data, right.data) {
        (DataV::String(l), DataV::String(r)) => {
            let (a, b) = inline_parts(char_changes(l, r));
            (Some(a), Some(b))
        },
        _ => (None, None),
    }
}

/// Both sides of a changed value, as [`changed_rows`] states, with the
/// parts of [`pair_parts`].
pub fn render_changed_pair(ctx: &RenderContext, left: &Node, left_doc: &YamlSource, right: &Node, right_doc: &YamlSource) -> (r: (Rendered, Rendered))
    requires
        changed_renderable(*left_doc, left@, ctx.theme, ctx.max_width as int),
        changed_renderable(*right_doc, right@, ctx.theme, ctx.max_width as int),
    ensures
        r.0.content.rows() == changed_rows(*left_doc, left@, pair_parts(left@, right@).0, ctx.theme, ctx.max_width as int),
        r.1.content.rows() == changed_rows(*right_doc, right@, pair_parts(left@, right@).1, ctx.theme, ctx.max_width as int),
        r.0.lines_above == changed_index(*left_doc, left@) - changed_start(changed_index(*left_doc, left@)),
        r.0.lines_below == changed_end(changed_index(*left_doc, left@), lines_of(left_doc.content@).len() as int)
            - changed_index(*left_doc, left@),
        r.1.lines_above == changed_index(*right_doc, right@) - changed_start(changed_index(*right_doc, right@)),
        r.1.lines_below == changed_end(changed_index(*right_doc, right@), lines_of(right_doc.content@).len() as int)
            - changed_index(*right_doc, right@),
{
    let (left_parts, right_parts) = match (&left.data, &right.data) {
        (YamlData::String(l), YamlData::String(r)) => {
            let (a, b) = compute_inline_diff(l.as_str(), r.as_str());
            (Some(a), Some(b))
        },
        _ => (None, None),
    };
    let l = render_changed_snippet(ctx, left_doc, left, &left_parts);
    let r = render_changed_snippet(ctx, right_doc, right, &right_parts);
    (l, r)
}

/// `a` and `b` apart.
pub open spec fn abs_diff(a: int, b: int) -> int {
    if a >= b {
        a - b
    } else {
        b - a
    }
}

/// `Changed: <path>:` with the path in the header style, or `Changed:` for
/// the document itself.
pub open spec fn changed_title(path: Seq<SegmentV>, header: Highlight) -> Seq<char> {
    let word = seq!['C', 'h', 'a', 'n', 'g', 'e', 'd', ':'];
    if path.len() == 0 {
        word
    } else {
        word + seq![' '] + header.spec_apply(jq_text(path)) + seq![':']
    }
}

/// The width of each side of a changed value.
pub open spec fn changed_width(ctx: RenderContext) -> int {
    (ctx.max_width - SIDE_CHROME) / 2
}

/// The lines of a side before its changed line.
pub open spec fn lines_above(d: YamlSource, node: NodeV) -> int {
    changed_index(d, node) - changed_start(changed_index(d, node))
}

/// The lines of a side from its changed line on.
pub open spec fn lines_below(d: YamlSource, node: NodeV) -> int {
    changed_end(changed_index(d, node), lines_of(d.content@).len() as int) - changed_index(d, node)
}

/// The two columns of a changed value: the rows of each side, the side
/// with fewer lines before the changed line filled with blank rows at the
/// top, and the one with fewer from it on at the bottom.
pub open spec fn difference_columns(ctx: RenderContext, left: NodeV, left_doc: YamlSource, right: NodeV, right_doc: YamlSource) -> (Seq<Seq<Seq<char>>>, Seq<Seq<Seq<char>>>) {
    let w = changed_width(ctx);
    let (lp, rp) = pair_parts(left, right);
    let lrows = changed_rows(left_doc, left, lp, ctx.theme, w);
    let rrows = changed_rows(right_doc, right, rp, ctx.theme, w);
    let la = lines_above(left_doc, left);
    let ra = lines_above(right_doc, right);
    let lb = lines_below(left_doc, left);
    let rb = lines_below(right_doc, right);
    let above = abs_diff(la, ra);
    let below = abs_diff(lb, rb);
    let (l1, r1) = if la < ra {
        (blanks(above, w) + lrows, rrows)
    } else {
        (lrows, blanks(above, w) + rrows)
    };
    if lb < rb {
        (l1 + blanks(below, w), r1)
    } else {
        (l1, r1 + blanks(below, w))
    }
}

/// A changed value side by side: the title, then the two columns of
/// [`difference_columns`] zipped.
pub open spec fn difference_text(ctx: RenderContext, path: Seq<SegmentV>, left: NodeV, left_doc: YamlSource, right: NodeV, right_doc: YamlSource) -> Seq<char> {
    let (l2, r2) = difference_columns(ctx, left, left_doc, right, right_doc);
    changed_title(path, ctx.theme.header) + seq!['\n'] + join_lines(zip_with_spec(l2, r2, changed_width(ctx)))
}

/// The changed lines of a changed value stand level: both columns hold
/// the same number of groups, and the group of each side's changed line
/// stands at the same place in both.
pub proof fn lemma_changed_lines_level(ctx: RenderContext, left: NodeV, left_doc: YamlSource, right: NodeV, right_doc: YamlSource)
    requires
        difference_renderable(ctx, left, left_doc, right, right_doc),
        changed_index(left_doc, left) < lines_of(left_doc.content@).len(),
        changed_index(right_doc, right) < lines_of(right_doc.content@).len(),
    ensures
        ({
            let (l2, r2) = difference_columns(ctx, left, left_doc, right, right_doc);
            let la = lines_above(left_doc, left);
            let ra = lines_above(right_doc, right);
            let m = if la >= ra { la } else { ra };
            let w = changed_width(ctx);
            let (lp, rp) = pair_parts(left, right);
            &&& l2.len() == r2.len()
            &&& l2[m] == changed_rows(left_doc, left, lp, ctx.theme, w)[la]
            &&& r2[m] == changed_rows(right_doc, right, rp, ctx.theme, w)[ra]
        }),
{
    let w = changed_width(ctx);
    let (lp, rp) = pair_parts(left, right);
    let lrows = changed_rows(left_doc, left, lp, ctx.theme, w);
    let rrows = changed_rows(right_doc, right, rp, ctx.theme, w);
    let la = lines_above(left_doc, left);
    let ra = lines_above(right_doc, right);
    let lb = lines_below(left_doc, left);
    let rb = lines_below(right_doc, right);
    assert(lrows.len() == la + lb);
    assert(rrows.len() == ra + rb);
    let above = abs_diff(la, ra);
    if la < ra {
        assert((blanks(above, w) + lrows)[ra] == lrows[la]);
    } else {
        assert((blanks(above, w) + rrows)[la] == rrows[ra]);
    }
}

/// Whether a changed value can be rendered.
pub open spec fn difference_renderable(ctx: RenderContext, left: NodeV, left_doc: YamlSource, right: NodeV, right_doc: YamlSource) -> bool {
    &&& ctx.max_width >= SIDE_CHROME
    &&& changed_renderable(left_doc, left, ctx.theme, changed_width(ctx))
    &&& changed_renderable(right_doc, right, ctx.theme, changed_width(ctx))
}

/// The groups of `n` blank rows before those of `groups`.
fn blanks_before(groups: Vec<SourceLineGroup>, n: usize, hw: usize) -> (r: Vec<SourceLineGroup>)
    ensures
        r@.map_values(|g: SourceLineGroup| g.rows()) == blanks(n as int, hw as int) + groups@.map_values(
            |g: SourceLineGroup| g.rows(),
        ),
{
    let mut out: Vec<SourceLineGroup> = Vec::new();
    assert(out@.map_values(|g: SourceLineGroup| g.rows()) =~= Seq::<Seq<Seq<char>>>::empty());
    push_blanks(&mut out, n, hw);
    let ghost head = out@.map_values(|g: SourceLineGroup| g.rows());
    let ghost gs = groups@.map_values(|g: SourceLineGroup| g.rows());
    let mut rest = groups;
    out.append(&mut rest);
    assert(out@.map_values(|g: SourceLineGroup| g.rows()) =~= head + gs);
    out
}

/// Renders a changed value side by side, as [`difference_text`] states.
pub fn render_difference(ctx: &RenderContext, path_to_change: &Path, left: &Node, left_doc: &YamlSource, right: &Node, right_doc: &YamlSource) -> (r: String)
    requires
        difference_renderable(*ctx, left@, *left_doc, right@, *right_doc),
    ensures
        r@ == difference_text(*ctx, path_to_change@, left@, *left_doc, right@, *right_doc),
{
    let mut title = String::new();
    push_char(&mut title, 'C');
    push_char(&mut title, 'h');
    push_char(&mut title, 'a');
    push_char(&mut title, 'n');
    push_char(&mut title, 'g');
    push_char(&mut title, 'e');
    push_char(&mut title, 'd');
    push_char(&mut title, ':');
    if path_to_change.len() > 0 {
        push_char(&mut title, ' ');
        let jq = path_to_change.jq_like();
        let h = ctx.theme.header(jq.as_str());
        title.append(h.as_str());
        push_char(&mut title, ':');
    }
    assert(title@ =~= changed_title(path_to_change@, ctx.theme.header));
    let max_width = (ctx.max_width - SIDE_CHROME) / 2;
    let smaller_context = RenderContext { max_width, visual_context: 5, theme: ctx.theme.copy() };
    let (l, r) = render_changed_pair(&smaller_context, left, left_doc, right, right_doc);
    let above_filler = if l.lines_above >= r.lines_above { l.lines_above - r.lines_above } else { r.lines_above - l.lines_above };
    let below_filler = if l.lines_below >= r.lines_below { l.lines_below - r.lines_below } else { r.lines_below - l.lines_below };
    let half_width = max_width as usize;
    let mut left_groups = l.content.0;
    let mut right_groups = r.content.0;
    if l.lines_above < r.lines_above {
        left_groups = blanks_before(left_groups, above_filler, half_width);
    } else {
        right_groups = blanks_before(right_groups, above_filler, half_width);
    }
    if l.lines_below < r.lines_below {
        push_blanks(&mut left_groups, below_filler, half_width);
    } else {
        push_blanks(&mut right_groups, below_filler, half_width);
    }
    let left_col = Column(left_groups);
    let right_col = Column(right_groups);
    let hw = ctx.half_width();
    let lines = left_col.zip_with(right_col, hw);
    let body = join(&lines);
    let mut out = title;
    push_char(&mut out, '\n');
    out.append(body.as_str());
    out
}

// ---------------------------------------------------------------------------
// All differences of a pair of documents
// ---------------------------------------------------------------------------

/// `Moved: from <path>` with the path in the changed style.
pub open spec fn moved_from_text(path: Seq<SegmentV>, changed: Highlight) -> Seq<char> {
    seq!['M', 'o', 'v', 'e', 'd', ':', ' ', 'f', 'r', 'o', 'm', ' '] + changed.spec_apply(jq_text(path))
}

/// `to <path>:` with the path in the changed style.
pub open spec fn moved_to_text(path: Seq<SegmentV>, changed: Highlight) -> Seq<char> {
    seq!['t', 'o', ' '] + changed.spec_apply(jq_text(path)) + seq![':']
}

/// The lines of a moved element: where it was on the left, where it is on
/// the right, in a pair of columns as wide as the terminal.
pub open spec fn moved_lines(ctx: RenderContext, from: Seq<SegmentV>, to: Seq<SegmentV>) -> Seq<Seq<char>> {
    let w = (ctx.max_width / 2) as int;
    zip_columns(
        seq![wrap_plain_rows(moved_from_text(from, ctx.theme.changed), w)],
        seq![wrap_plain_rows(moved_to_text(to, ctx.theme.changed), w)],
        w,
    )
}

/// Each line followed by a line feed.
pub open spec fn lines_text(ls: Seq<Seq<char>>) -> Seq<char>
    decreases ls.len(),
{
    if ls.len() == 0 {
        seq![]
    } else {
        lines_text(ls.drop_last()) + ls.last() + seq!['\n']
    }
}

/// The rendering of one difference, followed by an empty line.
pub open spec fn difference_piece(ctx: RenderContext, d: DifferenceV, left_doc: YamlSource, right_doc: YamlSource) -> Seq<char> {
    let body = match d {
        DifferenceV::Added(p, item) => seq!['A', 'd', 'd', 'e', 'd', ':', ' '] + ctx.theme.header.spec_apply(jq_text(p))
            + seq![':', '\n'] + change_text(ctx, p, item, left_doc, right_doc, ChangeType::Addition) + seq!['\n'],
        DifferenceV::Removed(p, item) => seq!['R', 'e', 'm', 'o', 'v', 'e', 'd', ':', ' '] + jq_text(p) + seq![':', '\n']
            + change_text(ctx, p, item, left_doc, right_doc, ChangeType::Removal) + seq!['\n'],
        DifferenceV::Changed(p, l, r) => difference_text(ctx, p, l, left_doc, r, right_doc) + seq!['\n'],
        DifferenceV::Moved(from, to) => lines_text(moved_lines(ctx, from, to)),
    };
    body + seq!['\n']
}

/// Whether one difference can be rendered.
pub open spec fn piece_renderable(ctx: RenderContext, d: DifferenceV, left_doc: YamlSource, right_doc: YamlSource) -> bool {
    match d {
        DifferenceV::Added(p, item) => change_renderable(ctx, p, item, left_doc, right_doc, ChangeType::Addition),
        DifferenceV::Removed(p, item) => change_renderable(ctx, p, item, left_doc, right_doc, ChangeType::Removal),
        DifferenceV::Changed(_, l, r) => difference_renderable(ctx, l, left_doc, r, right_doc),
        DifferenceV::Moved(from, to) => moved_from_text(from, ctx.theme.changed).len() <= usize::MAX / 255
            && moved_to_text(to, ctx.theme.changed).len() <= usize::MAX / 255,
    }
}

/// The renderings of the differences, in order.
pub open spec fn render_text(ctx: RenderContext, ds: Seq<DifferenceV>, left_doc: YamlSource, right_doc: YamlSource) -> Seq<char>
    decreases ds.len(),
{
    if ds.len() == 0 {
        seq![]
    } else {
        render_text(ctx, ds.drop_last(), left_doc, right_doc) + difference_piece(ctx, ds.last(), left_doc, right_doc)
    }
}

/// The lines of a moved element, as [`moved_lines`] states, each followed
/// by a line feed.
fn render_moved(ctx: &RenderContext, original_path: &Path, new_path: &Path) -> (r: String)
    requires
        moved_from_text(original_path@, ctx.theme.changed).len() <= usize::MAX / 255,
        moved_to_text(new_path@, ctx.theme.changed).len() <= usize::MAX / 255,
    ensures
        r@ == lines_text(moved_lines(*ctx, original_path@, new_path@)),
{
    let pair = ColumnPair::new(ctx.max_width);
    let mut left = pair.column();
    let mut right = pair.column();
    let mut from = String::new();
    push_char(&mut from, 'M');
    push_char(&mut from, 'o');
    push_char(&mut from, 'v');
    push_char(&mut from, 'e');
    push_char(&mut from, 'd');
    push_char(&mut from, ':');
    push_char(&mut from, ' ');
    push_char(&mut from, 'f');
    push_char(&mut from, 'r');
    push_char(&mut from, 'o');
    push_char(&mut from, 'm');
    push_char(&mut from, ' ');
    let o = ctx.theme.changed(original_path.jq_like().as_str());
    from.append(o.as_str());
    assert(from@ =~= moved_from_text(original_path@, ctx.theme.changed));
    let mut to = String::new();
    push_char(&mut to, 't');
    push_char(&mut to, 'o');
    push_char(&mut to, ' ');
    let n = ctx.theme.changed(new_path.jq_like().as_str());
    to.append(n.as_str());
    push_char(&mut to, ':');
    assert(to@ =~= moved_to_text(new_path@, ctx.theme.changed));
    left.push(from);
    right.push(to);
    assert(left.rows() =~= seq![wrap_plain_rows(moved_from_text(original_path@, ctx.theme.changed), (ctx.max_width / 2) as int)]);
    assert(right.rows() =~= seq![wrap_plain_rows(moved_to_text(new_path@, ctx.theme.changed), (ctx.max_width / 2) as int)]);
    let lines = pair.zip(left, right);
    let ghost lv = lines@.map_values(|s: String| s@);
    let mut out = String::new();
    let mut i: usize = 0;
    while i < lines.len()
        invariant
            i <= lines@.len(),
            lv == lines@.map_values(|s: String| s@),
            out@ == lines_text(lv.take(i as int)),
        decreases lines.len() - i,
    {
        out.append(lines[i].as_str());
        push_char(&mut out, '\n');
        assert(lv.take(i + 1).drop_last() =~= lv.take(i as int));
        assert(out@ =~= lines_text(lv.take(i + 1)));
        i = i + 1;
    }
    assert(lv.take(lines.len() as int) =~= lv);
    out
}

/// One difference, as [`difference_piece`] states.
#[verifier::spinoff_prover]
#[verifier::rlimit(50)]
fn render_one(ctx: &RenderContext, d: &Difference, left_doc: &YamlSource, right_doc: &YamlSource) -> (r: String)
    requires
        piece_renderable(*ctx, d@, *left_doc, *right_doc),
    ensures
        r@ == difference_piece(*ctx, d@, *left_doc, *right_doc),
{
    let mut buf = String::new();
    match d {
        Difference::Added { path, value } => {
            buf.append("Added: ");
            proof {
                reveal_strlit("Added: ");
            }
            let p = ctx.theme.header(path.jq_like().as_str());
            buf.append(p.as_str());
            push_char(&mut buf, ':');
            push_char(&mut buf, '\n');
            let added = render_added(ctx, path, value, left_doc, right_doc);
            buf.append(added.as_str());
            push_char(&mut buf, '\n');
        },
        Difference::Removed { path, value } => {
            buf.append("Removed: ");
            proof {
                reveal_strlit("Removed: ");
            }
            let p = path.jq_like();
            buf.append(p.as_str());
            push_char(&mut buf, ':');
            push_char(&mut buf, '\n');
            let output = render_removal(ctx, path, value, left_doc, right_doc);
            buf.append(output.as_str());
            push_char(&mut buf, '\n');
        },
        Difference::Changed { path, left, right } => {
            let combined = render_difference(ctx, path, left, left_doc, right, right_doc);
            buf.append(combined.as_str());
            push_char(&mut buf, '\n');
        },
        Difference::Moved { original_path, new_path } => {
            let moved = render_moved(ctx, original_path, new_path);
            buf.append(moved.as_str());
        },
    }
    push_char(&mut buf, '\n');
    assert(buf@ =~= difference_piece(*ctx, d@, *left_doc, *right_doc));
    buf
}

/// All differences between two documents, each rendered as
/// [`difference_piece`] states, one after the other.
pub fn render(ctx: &RenderContext, left_doc: &YamlSource, right_doc: &YamlSource, differences: &Vec<Difference>) -> (r: String)
    requires
        forall|i: int| 0 <= i < differences@.len() ==> piece_renderable(*ctx, #[trigger] differences@[i]@, *left_doc, *right_doc),
    ensures
        r@ == render_text(*ctx, differences@.map_values(|d: Difference| d@), *left_doc, *right_doc),
{
    let ghost ds = differences@.map_values(|d: Difference| d@);
    let mut buf = String::new();
    let mut i: usize = 0;
    while i < differences.len()
        invariant
            i <= differences@.len(),
            ds == differences@.map_values(|d: Difference| d@),
            forall|i: int| 0 <= i < differences@.len() ==> piece_renderable(*ctx, #[trigger] differences@[i]@, *left_doc, *right_doc),
            buf@ == render_text(*ctx, ds.take(i as int), *left_doc, *right_doc),
        decreases differences.len() - i,
    {
        assert(ds[i as int] == differences@[i as int]@);
        let piece = render_one(ctx, &differences[i], left_doc, right_doc);
        buf.append(piece.as_str());
        assert(ds.take(i + 1).drop_last() =~= ds.take(i as int));
        i = i + 1;
    }
    assert(ds.take(differences.len() as int) =~= ds);
    buf
}

// ---------------------------------------------------------------------------
// Whether a difference can be rendered
// ---------------------------------------------------------------------------

/// Whether a style's markers are within [`text_limit`], as
/// [`highlight_fits`] states.
pub fn highlight_fits_check(h: &Highlight) -> (r: bool)
    ensures
        r == highlight_fits(*h),
{
    match h {
        Highlight::Wrap { open, close } => {
            let a = open.as_str().unicode_len();
            let b = close.as_str().unicode_len();
            a <= usize::MAX / 1024 && b <= usize::MAX / 1024 - a
        },
        _ => true,
    }
}

/// Whether a theme's markers are within [`text_limit`], as [`theme_fits`]
/// states.
pub fn theme_fits_check(t: &Theme) -> (r: bool)
    ensures
        r == theme_fits(*t),
{
    highlight_fits_check(&t.added) && highlight_fits_check(&t.removed) && highlight_fits_check(&t.changed)
        && highlight_fits_check(&t.dimmed) && highlight_fits_check(&t.header)
}

/// Whether every line is within [`text_limit`].
fn all_within_limit(lines: &Vec<String>) -> (r: bool)
    ensures
        r == forall|i: int| 0 <= i < lines@.len() ==> (#[trigger] strings_view(lines@)[i]).len() <= text_limit(),
{
    let ghost sv = strings_view(lines@);
    let mut i: usize = 0;
    while i < lines.len()
        invariant
            i <= lines@.len(),
            sv == strings_view(lines@),
            forall|j: int| 0 <= j < i ==> (#[trigger] sv[j]).len() <= text_limit(),
        decreases lines.len() - i,
    {
        assert(sv[i as int] == lines@[i as int]@);
        if lines[i].as_str().unicode_len() > usize::MAX / 1024 {
            return false;
        }
        i = i + 1;
    }
    true
}

/// Whether a document has lines, each within [`text_limit`].
fn doc_lines_fit(d: &YamlSource) -> (r: bool)
    ensures
        r == (doc_lines(*d).len() > 0 && lines_fit(*d)),
{
    let lines = d.lines();
    assert(strings_view(lines@).len() == lines@.len());
    lines.len() > 0 && all_within_limit(&lines)
}

/// Whether [`gap_line`] can be computed, as [`gap_computable`] states.
pub fn gap_computable_check(primary_doc: &YamlSource, secondary_doc: &YamlSource, path_to_change: &Path) -> (r: bool)
    requires
        path_to_change@.len() > 0,
    ensures
        r == gap_computable(primary_doc.yaml@, secondary_doc.yaml@, secondary_doc.start as int, path_to_change@),
{
    let parent = match path_to_change.parent() {
        Some(p) => p,
        None => {
            return true;
        },
    };
    let segs = path_to_change.segments();
    let head = &segs[segs.len() - 1];
    assert(head@ == path_to_change@.last());
    let pn = match node_in(&primary_doc.yaml, &parent) {
        Some(n) => n,
        None => {
            return true;
        },
    };
    proof {
        lemma_view_unfold(*pn);
    }
    let container = match &pn.data {
        YamlData::Sequence(_) => true,
        YamlData::Mapping(_) => true,
        _ => false,
    };
    if !container {
        return false;
    }
    let (before_path, after_path) = match surrounding_paths(pn, &parent, head) {
        Some(x) => x,
        None => {
            return true;
        },
    };
    let candidate = match &before_path {
        Some(p) => node_in(&secondary_doc.yaml, p),
        None => None,
    };
    match candidate {
        Some(before) => before.span.end.line >= 1 && before.span.end.line < usize::MAX,
        None => match &after_path {
            Some(after) => {
                let adjusted = adjust_path_for_secondary(after, pn);
                match node_in(&secondary_doc.yaml, &adjusted) {
                    Some(an) => an.span.start.line >= 1,
                    None => match node_in(&secondary_doc.yaml, &parent) {
                        Some(p) => p.span.start.line < usize::MAX || secondary_doc.start > 0,
                        None => true,
                    },
                }
            },
            None => true,
        },
    }
}

/// Whether a line counted across the file can be counted from a
/// document's start.
fn countable(line: usize, start: usize) -> (r: bool)
    ensures
        r == (sat_sub(line as int, start as int) < usize::MAX),
{
    line < start || line - start < usize::MAX
}

/// Whether a node present in one document only can be rendered, as
/// [`change_renderable`] states.
pub fn change_renders(ctx: &RenderContext, path: &Path, item: &Item, left: &YamlSource, right: &YamlSource, ct: ChangeType) -> (r: bool)
    ensures
        r == change_renderable(*ctx, path@, item@, *left, *right, ct),
{
    let (larger, gapped) = match ct {
        ChangeType::Removal => (left, right),
        ChangeType::Addition => (right, left),
    };
    let (a, b) = match item {
        Item::KV { key_span, value, .. } => (key_span.start.line, value.span.end.line),
        Item::ArrayElement { value, .. } => (value.span.start.line, value.span.end.line),
    };
    if ctx.max_width < SIDE_CHROME || !theme_fits_check(&ctx.theme) {
        return false;
    }
    if !doc_lines_fit(larger) || !countable(a, larger.start) || !countable(b, larger.start) {
        return false;
    }
    if path.len() == 0 {
        return false;
    }
    gap_computable_check(larger, gapped, path) && doc_lines_fit(gapped)
}

/// Whether one side of a changed value can be rendered, as
/// [`changed_renderable`] states.
pub fn changed_renders(d: &YamlSource, node: &Node, theme: &Theme, width: usize) -> (r: bool)
    ensures
        r == changed_renderable(*d, node@, *theme, width as int),
{
    let lines = text_lines(d.content.as_str());
    assert(strings_view(lines@).len() == lines@.len());
    let s = d.yaml.span.start.line;
    let n = node.span.start.line;
    if n < s {
        return false;
    }
    let c = n - s;
    c <= lines.len() && c <= usize::MAX - CHANGE_CONTEXT && all_within_limit(&lines) && width <= usize::MAX / 1024
        && theme_fits_check(theme)
}

/// Whether one difference can be rendered, as [`piece_renderable`] states.
pub fn can_render(ctx: &RenderContext, d: &Difference, left_doc: &YamlSource, right_doc: &YamlSource) -> (r: bool)
    ensures
        r == piece_renderable(*ctx, d@, *left_doc, *right_doc),
{
    match d {
        Difference::Added { path, value } => change_renders(ctx, path, value, left_doc, right_doc, ChangeType::Addition),
        Difference::Removed { path, value } => change_renders(ctx, path, value, left_doc, right_doc, ChangeType::Removal),
        Difference::Changed { left, right, .. } => {
            if ctx.max_width < SIDE_CHROME {
                return false;
            }
            let w = ((ctx.max_width - SIDE_CHROME) / 2) as usize;
            changed_renders(left_doc, left, &ctx.theme, w) && changed_renders(right_doc, right, &ctx.theme, w)
        },
        Difference::Moved { original_path, new_path } => {
            let o = ctx.theme.changed(original_path.jq_like().as_str());
            let n = ctx.theme.changed(new_path.jq_like().as_str());
            let ol = o.as_str().unicode_len();
            let nl = n.as_str().unicode_len();
            proof {
                assert(moved_from_text(original_path@, ctx.theme.changed).len() == 12 + ol);
                assert(moved_to_text(new_path@, ctx.theme.changed).len() == 4 + nl);
            }
            ol <= usize::MAX / 255 - 12 && nl <= usize::MAX / 255 - 4
        },
    }
}

} // verus!
