//! The report on all differences between the documents of two sets of
//! files.
use crate::diff::{difference_path, diffs_view, Difference, DifferenceV};
use crate::layout::{
    inline_rows, lemma_inline_rows_ascii, spans_view, wrap_plain_rows, zip_columns, ColumnPair, Highlight, Highlighted,
    InlineParts,
};
use crate::multidoc::{
    entry_view, fields_view, Fields, doc_diffs_view, key_table_rows, lemma_sort_docs_permutes, sort_doc_differences, sort_docs, table_text, DocDifference,
    DocDifferenceV,
};
use crate::path::{pattern_matches, IgnorePath, MatchElementV, Path, SegmentV};
use crate::snippet::{can_render, piece_renderable, render, render_text, RenderContext, Theme};
use crate::source::{lines_of, YamlSource};
use crate::text::{
    all_printable_ascii, decimal, decimal_string, green_spec, paint_green, paint_red, push_char, red_spec, spaces,
};
use vstd::prelude::*;

verus! {

// ---------------------------------------------------------------------------
// Indenting a block of text
// ---------------------------------------------------------------------------

/// The lines joined by line feeds, each non-empty one behind `n` spaces.
pub open spec fn indent_lines(ls: Seq<Seq<char>>, n: nat) -> Seq<char>
    decreases ls.len(),
{
    if ls.len() == 0 {
        seq![]
    } else {
        let l = ls.last();
        let shown = if l.len() == 0 { l } else { spaces(n) + l };
        if ls.len() == 1 {
            shown
        } else {
            indent_lines(ls.drop_last(), n) + seq!['\n'] + shown
        }
    }
}

/// `s` with each non-empty line behind `n` spaces, and its final line feed
/// kept.
pub open spec fn indented(n: nat, s: Seq<char>) -> Seq<char> {
    indent_lines(lines_of(s), n) + if s.len() > 0 && s.last() == '\n' {
        seq!['\n']
    } else {
        seq![]
    }
}

/// `indent::indent_all_by`: each line of `s` from `str::lines` that is not
/// empty gets `n` spaces in front, the lines are joined by line feeds, and a
/// final line feed of `s` is kept, as the crate's source shows.
#[verifier::external_body]
fn indent_all_by(n: usize, s: &str) -> (r: String)
    ensures
        r@ == indented(n as nat, s@),
{
    indent::indent_all_by(n, s)
}

// ---------------------------------------------------------------------------
// Which differences are shown
// ---------------------------------------------------------------------------

pub open spec fn patterns_view(s: Seq<IgnorePath>) -> Seq<Seq<MatchElementV>> {
    s.map_values(|p: IgnorePath| p@)
}

/// Whether one of the patterns selects the path.
pub open spec fn ignored(ignore: Seq<Seq<MatchElementV>>, p: Seq<SegmentV>) -> bool {
    exists|i: int| 0 <= i < ignore.len() && pattern_matches(#[trigger] ignore[i], p)
}

/// Whether a difference is shown: no pattern selects its path, and it is
/// no moved element where those are left out.
pub open spec fn keeps(d: DifferenceV, ignore_moved: bool, ignore: Seq<Seq<MatchElementV>>) -> bool {
    !ignored(ignore, difference_path(d)) && !(ignore_moved && d is Moved)
}

/// The differences that are shown, in order.
pub open spec fn kept(ds: Seq<DifferenceV>, ignore_moved: bool, ignore: Seq<Seq<MatchElementV>>) -> Seq<DifferenceV>
    decreases ds.len(),
{
    if ds.len() == 0 {
        seq![]
    } else {
        let rest = kept(ds.drop_last(), ignore_moved, ignore);
        if keeps(ds.last(), ignore_moved, ignore) {
            rest.push(ds.last())
        } else {
            rest
        }
    }
}

/// Whether one of the patterns selects the path, as [`ignored`] states.
pub fn is_ignored(ignore: &[IgnorePath], path: &Path) -> (r: bool)
    ensures
        r == ignored(patterns_view(ignore@), path@),
{
    let ghost pv = patterns_view(ignore@);
    let mut i: usize = 0;
    while i < ignore.len()
        invariant
            i <= ignore@.len(),
            pv == patterns_view(ignore@),
            forall|j: int| 0 <= j < i ==> !pattern_matches(#[trigger] pv[j], path@),
        decreases ignore.len() - i,
    {
        assert(pv[i as int] == ignore@[i as int]@);
        if ignore[i].matches(path) {
            return true;
        }
        i = i + 1;
    }
    false
}

/// The differences that are shown, as [`kept`] states.
pub fn filter_differences(differences: &Vec<Difference>, ignore_moved: bool, ignore: &[IgnorePath]) -> (r: Vec<Difference>)
    ensures
        diffs_view(r@) == kept(diffs_view(differences@), ignore_moved, patterns_view(ignore@)),
{
    let ghost ds = diffs_view(differences@);
    let ghost pv = patterns_view(ignore@);
    let mut out: Vec<Difference> = Vec::new();
    let mut i: usize = 0;
    assert(diffs_view(out@) =~= kept(ds.take(0), ignore_moved, pv));
    while i < differences.len()
        invariant
            i <= differences@.len(),
            ds == diffs_view(differences@),
            pv == patterns_view(ignore@),
            diffs_view(out@) == kept(ds.take(i as int), ignore_moved, pv),
        decreases differences.len() - i,
    {
        let d = &differences[i];
        assert(ds[i as int] == d@);
        let moved = match d {
            Difference::Moved { .. } => true,
            _ => false,
        };
        let skip = is_ignored(ignore, d.path()) || (ignore_moved && moved);
        assert(ds.take(i + 1).drop_last() =~= ds.take(i as int));
        if !skip {
            let ghost before = diffs_view(out@);
            out.push(d.copy());
            assert(diffs_view(out@) =~= before.push(d@));
        }
        i = i + 1;
    }
    assert(ds.take(differences.len() as int) =~= ds);
    out
}

// ---------------------------------------------------------------------------
// The report
// ---------------------------------------------------------------------------

/// How changed documents are rendered: in colour, as wide as the terminal.
pub open spec fn report_context(max_width: u16) -> RenderContext {
    RenderContext {
        max_width,
        visual_context: 5,
        theme: Theme {
            added: Highlight::Green,
            removed: Highlight::Red,
            changed: Highlight::Yellow,
            dimmed: Highlight::Dimmed,
            header: Highlight::Bold,
        },
    }
}

/// The report on one difference between the documents: an additional or a
/// missing document as a heading and its key as an indented table; a
/// changed document as a heading, its key, and its differences that are
/// shown.
pub open spec fn doc_report(
    lefts: Seq<YamlSource>,
    rights: Seq<YamlSource>,
    d: DocDifferenceV,
    ignore_moved: bool,
    ignore: Seq<Seq<MatchElementV>>,
    max_width: u16,
) -> Seq<char> {
    match d {
        DocDifferenceV::Addition(k, _) => green_spec("Additional document:"@) + seq!['\n'] + indented(
            4,
            table_text(key_table_rows(k.fields)),
        ) + seq!['\n'],
        DocDifferenceV::Missing(k, _) => red_spec("Missing document:"@) + seq!['\n'] + indented(
            4,
            table_text(key_table_rows(k.fields)),
        ) + seq!['\n'],
        DocDifferenceV::Changed(k, l, r, ds) => "Changed document:\n"@ + indented(4, table_text(key_table_rows(k.fields)))
            + seq!['\n'] + render_text(report_context(max_width), kept(ds, ignore_moved, ignore), lefts[l], rights[r]),
    }
}

/// The reports on the differences, one after the other.
pub open spec fn doc_reports(
    lefts: Seq<YamlSource>,
    rights: Seq<YamlSource>,
    s: Seq<DocDifferenceV>,
    ignore_moved: bool,
    ignore: Seq<Seq<MatchElementV>>,
    max_width: u16,
) -> Seq<char>
    decreases s.len(),
{
    if s.len() == 0 {
        seq![]
    } else {
        doc_reports(lefts, rights, s.drop_last(), ignore_moved, ignore, max_width) + doc_report(
            lefts,
            rights,
            s.last(),
            ignore_moved,
            ignore,
            max_width,
        )
    }
}

/// The whole report: a note where nothing differs, then the differences in
/// the order of [`sort_docs`].
pub open spec fn report_text(
    lefts: Seq<YamlSource>,
    rights: Seq<YamlSource>,
    ds: Seq<DocDifferenceV>,
    ignore_moved: bool,
    ignore: Seq<Seq<MatchElementV>>,
    max_width: u16,
) -> Seq<char> {
    (if ds.len() == 0 {
        "No differences found\n"@
    } else {
        seq![]
    }) + doc_reports(lefts, rights, sort_docs(ds), ignore_moved, ignore, max_width)
}

/// Whether each of the differences can be rendered.
pub open spec fn all_renderable(ctx: RenderContext, ds: Seq<DifferenceV>, left: YamlSource, right: YamlSource) -> bool {
    forall|j: int| 0 <= j < ds.len() ==> piece_renderable(ctx, #[trigger] ds[j], left, right)
}

/// Whether the report on one difference can be made: a changed document
/// names documents that exist, and each of its differences that is shown
/// can be rendered.
pub open spec fn doc_renderable(
    lefts: Seq<YamlSource>,
    rights: Seq<YamlSource>,
    d: DocDifferenceV,
    ignore_moved: bool,
    ignore: Seq<Seq<MatchElementV>>,
    max_width: u16,
) -> bool {
    match d {
        DocDifferenceV::Changed(_, l, r, ds) => {
            &&& 0 <= l < lefts.len()
            &&& 0 <= r < rights.len()
            &&& all_renderable(report_context(max_width), kept(ds, ignore_moved, ignore), lefts[l], rights[r])
        },
        _ => true,
    }
}

/// Whether the whole report can be made.
pub open spec fn report_renderable(
    lefts: Seq<YamlSource>,
    rights: Seq<YamlSource>,
    ds: Seq<DocDifferenceV>,
    ignore_moved: bool,
    ignore: Seq<Seq<MatchElementV>>,
    max_width: u16,
) -> bool {
    forall|i: int| 0 <= i < ds.len() ==> doc_renderable(lefts, rights, #[trigger] ds[i], ignore_moved, ignore, max_width)
}

/// Whether the report on one difference can be made, as
/// [`doc_renderable`] states.
fn doc_renders(
    lefts: &[YamlSource],
    rights: &[YamlSource],
    d: &DocDifference,
    ignore_moved: bool,
    ignore: &[IgnorePath],
    max_width: u16,
) -> (r: bool)
    ensures
        r == doc_renderable(lefts@, rights@, d@, ignore_moved, patterns_view(ignore@), max_width),
{
    match d {
        DocDifference::Changed { key, left_doc_idx, right_doc_idx, differences } => {
            if *left_doc_idx >= lefts.len() || *right_doc_idx >= rights.len() {
                return false;
            }
            let shown = filter_differences(differences, ignore_moved, ignore);
            let ctx = RenderContext::new(max_width);
            assert(ctx == report_context(max_width));
            let ghost ks = diffs_view(shown@);
            let l = &lefts[*left_doc_idx];
            let r = &rights[*right_doc_idx];
            let mut j: usize = 0;
            while j < shown.len()
                invariant
                    j <= shown@.len(),
                    ks == diffs_view(shown@),
                    ks == kept(diffs_view(differences@), ignore_moved, patterns_view(ignore@)),
                    *l == lefts@[*left_doc_idx as int],
                    *r == rights@[*right_doc_idx as int],
                    d@ == DocDifferenceV::Changed(
                        key@,
                        *left_doc_idx as int,
                        *right_doc_idx as int,
                        diffs_view(differences@),
                    ),
                    ctx == report_context(max_width),
                    forall|k: int| 0 <= k < j ==> piece_renderable(ctx, #[trigger] ks[k], *l, *r),
                decreases shown.len() - j,
            {
                assert(ks[j as int] == shown@[j as int]@);
                if !can_render(&ctx, &shown[j], l, r) {
                    assert(!piece_renderable(ctx, ks[j as int], *l, *r));
                    return false;
                }
                j = j + 1;
            }
            true
        },
        _ => true,
    }
}

/// Whether the whole report can be made, as [`report_renderable`] states.
pub fn report_renders(
    lefts: &[YamlSource],
    rights: &[YamlSource],
    differences: &Vec<DocDifference>,
    ignore_moved: bool,
    ignore: &[IgnorePath],
    max_width: u16,
) -> (r: bool)
    ensures
        r == report_renderable(lefts@, rights@, doc_diffs_view(differences@), ignore_moved, patterns_view(ignore@), max_width),
{
    let ghost ds = doc_diffs_view(differences@);
    let mut i: usize = 0;
    while i < differences.len()
        invariant
            i <= differences@.len(),
            ds == doc_diffs_view(differences@),
            forall|k: int|
                0 <= k < i ==> doc_renderable(lefts@, rights@, #[trigger] ds[k], ignore_moved, patterns_view(ignore@), max_width),
        decreases differences.len() - i,
    {
        assert(ds[i as int] == differences@[i as int]@);
        if !doc_renders(lefts, rights, &differences[i], ignore_moved, ignore, max_width) {
            return false;
        }
        i = i + 1;
    }
    true
}

/// The report on one difference, as [`doc_report`] states.
fn render_doc_difference(
    lefts: &[YamlSource],
    rights: &[YamlSource],
    d: &DocDifference,
    ignore_moved: bool,
    ignore: &[IgnorePath],
    max_width: u16,
) -> (r: String)
    requires
        doc_renderable(lefts@, rights@, d@, ignore_moved, patterns_view(ignore@), max_width),
    ensures
        r@ == doc_report(lefts@, rights@, d@, ignore_moved, patterns_view(ignore@), max_width),
{
    let mut out = String::new();
    match d {
        DocDifference::Addition(a) => {
            let m = paint_green("Additional document:");
            out.append(m.as_str());
            push_char(&mut out, '\n');
            let key = indent_all_by(4, a.key.pretty_print().as_str());
            out.append(key.as_str());
            push_char(&mut out, '\n');
        },
        DocDifference::Missing(m) => {
            let h = paint_red("Missing document:");
            out.append(h.as_str());
            push_char(&mut out, '\n');
            let key = indent_all_by(4, m.key.pretty_print().as_str());
            out.append(key.as_str());
            push_char(&mut out, '\n');
        },
        DocDifference::Changed { key, left_doc_idx, right_doc_idx, differences } => {
            let shown = filter_differences(differences, ignore_moved, ignore);
            out.append("Changed document:\n");
            let k = indent_all_by(4, key.pretty_print().as_str());
            out.append(k.as_str());
            push_char(&mut out, '\n');
            let ctx = RenderContext::new(max_width);
            assert(ctx == report_context(max_width));
            let l = &lefts[*left_doc_idx];
            let r = &rights[*right_doc_idx];
            proof {
                let ks = diffs_view(shown@);
                assert(d@ == DocDifferenceV::Changed(
                    key@,
                    *left_doc_idx as int,
                    *right_doc_idx as int,
                    diffs_view(differences@),
                ));
                assert(all_renderable(ctx, ks, *l, *r));
                assert forall|i: int| 0 <= i < shown@.len() implies piece_renderable(
                    ctx,
                    #[trigger] shown@[i]@,
                    *l,
                    *r,
                ) by {
                    assert(ks[i] == shown@[i]@);
                }
            }
            let body = render(&ctx, l, r, &shown);
            out.append(body.as_str());
        },
    }
    assert(out@ =~= doc_report(lefts@, rights@, d@, ignore_moved, patterns_view(ignore@), max_width));
    out
}

/// The report on all differences between the documents, as [`report_text`]
/// states: sorted, each document difference reported in turn.
pub fn render_multidoc_diff(
    left: &[YamlSource],
    right: &[YamlSource],
    differences: Vec<DocDifference>,
    ignore_moved: bool,
    ignore: &[IgnorePath],
    max_width: u16,
) -> (r: String)
    requires
        report_renderable(left@, right@, doc_diffs_view(differences@), ignore_moved, patterns_view(ignore@), max_width),
    ensures
        r@ == report_text(left@, right@, doc_diffs_view(differences@), ignore_moved, patterns_view(ignore@), max_width),
{
    broadcast use vstd::seq_lib::group_to_multiset_ensures;

    let ghost all = doc_diffs_view(differences@);
    let mut out = String::new();
    if differences.len() == 0 {
        out.append("No differences found\n");
    }
    assert(out@ =~= if all.len() == 0 {
        "No differences found\n"@
    } else {
        seq![]
    });
    let ghost head = out@;
    let sorted = sort_doc_differences(differences);
    let ghost sv = doc_diffs_view(sorted@);
    proof {
        lemma_sort_docs_permutes(all);
        assert forall|i: int| 0 <= i < sv.len() implies doc_renderable(
            left@,
            right@,
            #[trigger] sv[i],
            ignore_moved,
            patterns_view(ignore@),
            max_width,
        ) by {
            assert(sv.to_multiset().count(sv[i]) > 0);
            assert(all.contains(sv[i]));
        }
    }
    let mut i: usize = 0;
    while i < sorted.len()
        invariant
            i <= sorted@.len(),
            sv == doc_diffs_view(sorted@),
            sv == sort_docs(all),
            forall|k: int|
                0 <= k < sv.len() ==> doc_renderable(left@, right@, #[trigger] sv[k], ignore_moved, patterns_view(ignore@), max_width),
            out@ == head + doc_reports(left@, right@, sv.take(i as int), ignore_moved, patterns_view(ignore@), max_width),
        decreases sorted.len() - i,
    {
        assert(sv[i as int] == sorted@[i as int]@);
        let piece = render_doc_difference(left, right, &sorted[i], ignore_moved, ignore, max_width);
        out.append(piece.as_str());
        assert(sv.take(i + 1).drop_last() =~= sv.take(i as int));
        i = i + 1;
    }
    assert(sv.take(sorted.len() as int) =~= sv);
    out
}

// ---------------------------------------------------------------------------
// The frame above a changed document
// ---------------------------------------------------------------------------

/// How a document is named: its file, a colon and its index in the file.
pub open spec fn doc_ref_text(file: Seq<char>, idx: usize) -> Seq<char> {
    file + seq![':'] + decimal(idx as nat)
}

/// The line that shows a field: `key -> value`.
pub open spec fn field_line(key: Seq<char>, value: Seq<char>) -> Seq<char> {
    key + seq![' ', '-', '>', ' '] + value
}

/// Whether a field has a value, and its line is within what can be
/// wrapped. (A field without a value leaves the two sides of the frame
/// with different numbers of lines, which they may not have.)
pub open spec fn field_fits(e: (Seq<char>, Option<Seq<char>>)) -> bool {
    match e.1 {
        Some(v) => field_line(e.0, v).len() <= usize::MAX / 255,
        None => false,
    }
}

/// Where every field has a value, each gives one group.
proof fn lemma_valued_field_rows_len(fs: Seq<(Seq<char>, Option<Seq<char>>)>, style: Highlight, cw: u16)
    requires
        forall|i: int| 0 <= i < fs.len() ==> field_fits(#[trigger] fs[i]),
    ensures
        valued_field_rows(fs, style, cw).len() == fs.len(),
    decreases fs.len(),
{
    if fs.len() > 0 {
        assert(field_fits(fs[fs.len() - 1]));
        assert forall|i: int| 0 <= i < fs.drop_last().len() implies field_fits(#[trigger] fs.drop_last()[i]) by {
            assert(fs.drop_last()[i] == fs[i]);
        }
        lemma_valued_field_rows_len(fs.drop_last(), style, cw);
    }
}

/// The rows of the fields that have a value, each field a group of its own
/// in the given style.
pub open spec fn valued_field_rows(fs: Seq<(Seq<char>, Option<Seq<char>>)>, style: Highlight, cw: u16) -> Seq<Seq<Seq<char>>>
    decreases fs.len(),
{
    if fs.len() == 0 {
        seq![]
    } else {
        let before = valued_field_rows(fs.drop_last(), style, cw);
        match fs.last().1 {
            Some(v) => before.push(
                wrap_plain_rows(field_line(fs.last().0, v), cw as int).map_values(|seg: Seq<char>| style.spec_apply(seg)),
            ),
            None => before,
        }
    }
}

/// The title of the frame, as inline content in the header style.
pub open spec fn header_title(theme: Theme) -> Seq<(Seq<char>, Highlight)> {
    seq![(seq!['C', 'h', 'a', 'n', 'g', 'e', 'd', ' ', 'd', 'o', 'c', 'u', 'm', 'e', 'n', 't'], theme.header)]
}

/// `n` groups of one blank row each.
pub open spec fn blank_groups(n: nat, cw: u16) -> Seq<Seq<Seq<char>>> {
    Seq::new(n, |i: int| seq![spaces(cw as nat)])
}

/// A rule of `n` heavy horizontal lines.
pub open spec fn heavy_rule(n: nat) -> Seq<char> {
    Seq::new(n, |i: int| '━')
}

/// The frame above a changed document, for a terminal of `max_width`
/// columns less one for the frame: the title and the left document's name
/// on the left, the right document's name on the right, then each field
/// with a value; every line closed by ` ┃`, a rule above and below, and
/// every line in the changed style.
pub open spec fn header_lines(
    left_ref: Seq<char>,
    right_ref: Seq<char>,
    fs: Seq<(Seq<char>, Option<Seq<char>>)>,
    max_width: u16,
    theme: Theme,
) -> Seq<Seq<char>> {
    let usable = max_width - 1;
    let cw = (usable / 2) as u16;
    let left = seq![inline_rows(header_title(theme), cw as int)->0, wrap_plain_rows(left_ref, cw as int)]
        + valued_field_rows(fs, theme.dimmed, cw);
    let right = seq![seq![spaces(cw as nat)], wrap_plain_rows(right_ref, cw as int)] + blank_groups(fs.len(), cw);
    let rule = heavy_rule(usable as nat);
    let framed = seq![rule.push('┓')] + zip_columns(left, right, cw as int).map_values(
        |l: Seq<char>| l + seq![' ', '┃'],
    ) + seq![rule.push('┛')];
    framed.map_values(|l: Seq<char>| theme.changed.spec_apply(l))
}

/// The name of a document, as [`doc_ref_text`] states.
fn doc_ref(d: &(String, usize)) -> (r: String)
    ensures
        r@ == doc_ref_text(d.0@, d.1),
{
    let mut s = d.0.clone();
    push_char(&mut s, ':');
    let n = decimal_string(d.1);
    s.append(n.as_str());
    s
}

/// A rule of `n` heavy horizontal lines, as [`heavy_rule`] states.
fn heavy_rule_string(n: u16) -> (r: String)
    ensures
        r@ == heavy_rule(n as nat),
{
    let mut s = String::new();
    let mut i: u16 = 0;
    while i < n
        invariant
            i <= n,
            s@ == heavy_rule(i as nat),
        decreases n - i,
    {
        push_char(&mut s, '━');
        i = i + 1;
        assert(s@ =~= heavy_rule(i as nat));
    }
    s
}

/// The frame above a changed document, as [`header_lines`] states: `l`
/// and `r` name the two documents by file and index, and every field has a
/// value.
pub fn changed_header(l: &(String, usize), r: &(String, usize), fields: Fields, max_width: u16, theme: &Theme) -> (lines: Vec<String>)
    requires
        max_width >= 1,
        doc_ref_text(l.0@, l.1).len() <= usize::MAX / 255,
        doc_ref_text(r.0@, r.1).len() <= usize::MAX / 255,
        forall|i: int| 0 <= i < fields@.len() ==> field_fits(#[trigger] fields@[i]),
    ensures
        lines@.map_values(|s: String| s@) == header_lines(
            doc_ref_text(l.0@, l.1),
            doc_ref_text(r.0@, r.1),
            fields@,
            max_width,
            *theme,
        ),
{
    let usable_width = max_width - 1;
    let header_pair = ColumnPair::new(usable_width);
    let cw = header_pair.content_width;
    let mut left = header_pair.column();
    let mut right = header_pair.column();
    let mut inline_style = InlineParts::new();
    inline_style.push("Changed document", theme.header.copy());
    proof {
        reveal_strlit("Changed document");
        assert(inline_style.parts@.len() == 1);
        assert(inline_style.parts@[0] == inline_style.parts@.last());
        assert(inline_style.parts@[0].0@ =~= header_title(*theme)[0].0);
        assert(spans_view(inline_style.parts@)[0] == header_title(*theme)[0]);
        assert(spans_view(inline_style.parts@) =~= header_title(*theme));
        assert(all_printable_ascii(header_title(*theme)[0].0));
        lemma_inline_rows_ascii(header_title(*theme), cw);
    }
    left.push(inline_style);
    right.append_blank(1);
    let left_ref = doc_ref(l);
    let right_ref = doc_ref(r);
    left.push(left_ref);
    right.push(right_ref);

    let entries = fields.as_ref();
    let ghost fs = fields@;
    let ghost left_top = left.rows();
    let mut i: usize = 0;
    while i < entries.len()
        invariant
            i <= entries@.len(),
            fs == fields_view(entries@),
            fs.len() == entries@.len(),
            left.content_width == cw,
            left.rows() == left_top + valued_field_rows(fs.take(i as int), theme.dimmed, cw),
            forall|j: int| 0 <= j < fs.len() ==> field_fits(#[trigger] fs[j]),
        decreases entries.len() - i,
    {
        assert(fs.take(i + 1).drop_last() =~= fs.take(i as int));
        assert(fs[i as int] == entry_view(entries@[i as int]));
        match &entries[i].1 {
            Some(v) => {
                let mut text = entries[i].0.clone();
                text.append(" -> ");
                text.append(v.as_str());
                proof {
                    reveal_strlit(" -> ");
                    assert(text@ =~= field_line(fs[i as int].0, fs[i as int].1->0));
                }
                left.push(Highlighted::new(text.as_str(), theme.dimmed.copy()));
                assert(left.rows() =~= left_top + valued_field_rows(fs.take(i + 1), theme.dimmed, cw));
            },
            None => {
                assert(left.rows() =~= left_top + valued_field_rows(fs.take(i + 1), theme.dimmed, cw));
            },
        }
        i = i + 1;
    }
    assert(fs.take(entries.len() as int) =~= fs);
    right.append_blank(entries.len());
    proof {
        assert(blank_groups(1, cw) =~= Seq::new(1, |i: int| seq![spaces(cw as nat)]));
        assert(right.rows() =~= seq![seq![spaces(cw as nat)], wrap_plain_rows(doc_ref_text(r.0@, r.1), cw as int)]
            + blank_groups(fs.len(), cw));
        assert(left.rows() =~= seq![inline_rows(header_title(*theme), cw as int)->0, wrap_plain_rows(doc_ref_text(l.0@, l.1), cw as int)]
            + valued_field_rows(fs, theme.dimmed, cw));
    }
    proof {
        lemma_valued_field_rows_len(fs, theme.dimmed, cw);
        assert(left.groups@.len() == left.rows().len());
        assert(right.groups@.len() == right.rows().len());
    }
    let ghost expected_left = left.rows();
    let ghost expected_right = right.rows();
    let zipped = header_pair.zip(left, right);
    let ghost body = zip_columns(expected_left, expected_right, cw as int);
    let rule = heavy_rule_string(usable_width);
    let mut top = rule.clone();
    push_char(&mut top, '┓');
    let mut lines: Vec<String> = Vec::new();
    lines.push(theme.changed(top.as_str()));
    let mut k: usize = 0;
    while k < zipped.len()
        invariant
            k <= zipped@.len(),
            zipped@.map_values(|s: String| s@) == body,
            lines@.map_values(|s: String| s@) == (seq![heavy_rule(usable_width as nat).push('┓')] + body.take(k as int).map_values(
                |l: Seq<char>| l + seq![' ', '┃'],
            )).map_values(|l: Seq<char>| theme.changed.spec_apply(l)),
        decreases zipped.len() - k,
    {
        let mut line = zipped[k].clone();
        push_char(&mut line, ' ');
        push_char(&mut line, '┃');
        let ghost before = lines@.map_values(|s: String| s@);
        let styled = theme.changed(line.as_str());
        lines.push(styled);
        proof {
            let g = |l: Seq<char>| l + seq![' ', '┃'];
            let h = |l: Seq<char>| theme.changed.spec_apply(l);
            let top_line = seq![heavy_rule(usable_width as nat).push('┓')];
            assert(body[k as int] == zipped@[k as int]@);
            assert(line@ =~= g(body[k as int]));
            assert(body.take(k + 1).map_values(g) =~= body.take(k as int).map_values(g).push(g(body[k as int])));
            assert(top_line + body.take(k + 1).map_values(g) =~= (top_line + body.take(k as int).map_values(g)).push(g(body[k as int])));
            assert((top_line + body.take(k + 1).map_values(g)).map_values(h) =~= (top_line + body.take(k as int).map_values(g)).map_values(h).push(h(g(body[k as int]))));
            assert(lines@.map_values(|s: String| s@) =~= before.push(styled@));
        }
        k = k + 1;
    }
    let mut bottom = rule;
    push_char(&mut bottom, '┛');
    let ghost before = lines@.map_values(|s: String| s@);
    let styled = theme.changed(bottom.as_str());
    lines.push(styled);
    proof {
        assert(body.take(zipped@.len() as int) =~= body);
        assert(lines@.map_values(|s: String| s@) =~= before.push(styled@));
    }
    lines
}

} // verus!
