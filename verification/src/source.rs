//! The documents of a YAML file, each with its text and where it stands.
use crate::line::Line;
use crate::text::{push_char, sat_sub};
use crate::yaml::{copy_node, nodes_view, parse_yaml, yaml_documents, Node, NodeV, YamlError, YamlErrorV};
use vstd::prelude::*;

verus! {

// ---------------------------------------------------------------------------
// Text: splitting, trimming, lines
// ---------------------------------------------------------------------------

/// Whether a character is white space, as `char::is_whitespace` says.
pub uninterp spec fn white_space(c: char) -> bool;

/// `char::is_whitespace`. The contract names the result and states what
/// the documentation gives for ASCII: tab, line feed, vertical tab, form
/// feed, carriage return and space are white space, no other ASCII
/// character is.
#[verifier::external_body]
pub(crate) fn is_white_space(c: char) -> (r: bool)
    ensures
        r == white_space(c),
        c <= '\x7f' ==> (r <==> (c == '\t' || c == '\n' || c == '\x0b' || c == '\x0c' || c == '\r' || c == ' ')),
{
    c.is_whitespace()
}

/// Whether `---` starts at `i`.
pub open spec fn dash_at(s: Seq<char>, i: int) -> bool {
    0 <= i && i + 3 <= s.len() && s[i] == '-' && s[i + 1] == '-' && s[i + 2] == '-'
}

/// The first position from `i` on where `---` starts.
pub open spec fn first_dash(s: Seq<char>, i: int) -> Option<int>
    decreases s.len() - i,
{
    if i < 0 || i + 3 > s.len() {
        None
    } else if dash_at(s, i) {
        Some(i)
    } else {
        first_dash(s, i + 1)
    }
}

/// The pieces of `s` between the occurrences of `---`, found from the left
/// and not overlapping, as `str::split("---")` gives them.
pub open spec fn split_dashes(s: Seq<char>) -> Seq<Seq<char>>
    decreases s.len(),
{
    match first_dash(s, 0) {
        Some(i) => if 0 <= i && i + 3 <= s.len() {
            seq![s.take(i)] + split_dashes(s.skip(i + 3))
        } else {
            seq![s]
        },
        None => seq![s],
    }
}

/// The characters of each string.
pub open spec fn strings_view(v: Seq<String>) -> Seq<Seq<char>> {
    v.map_values(|t: String| t@)
}

/// The number of leading white space characters from `i` on.
pub open spec fn white_end(s: Seq<char>, i: int) -> int
    decreases s.len() - i,
{
    if 0 <= i < s.len() && white_space(s[i]) {
        white_end(s, i + 1)
    } else {
        i
    }
}

/// `s` without its leading white space, as `str::trim_start` gives it.
pub open spec fn trim_start(s: Seq<char>) -> Seq<char> {
    s.skip(white_end(s, 0))
}

/// The non-empty pieces among `ps`, each without leading white space.
pub open spec fn document_pieces(ps: Seq<Seq<char>>) -> Seq<Seq<char>>
    decreases ps.len(),
{
    if ps.len() == 0 {
        seq![]
    } else {
        (if ps[0].len() > 0 {
            seq![trim_start(ps[0])]
        } else {
            seq![]
        }) + document_pieces(ps.skip(1))
    }
}

/// The non-empty pieces between `---` separators, each without leading
/// white space: the text of each document.
pub open spec fn raw_documents(s: Seq<char>) -> Seq<Seq<char>> {
    document_pieces(split_dashes(s))
}

/// The first position from `i` on of a line feed.
pub open spec fn first_newline(s: Seq<char>, i: int) -> Option<int>
    decreases s.len() - i,
{
    if i < 0 || i >= s.len() {
        None
    } else if s[i] == '\n' {
        Some(i)
    } else {
        first_newline(s, i + 1)
    }
}

/// A line that ended with a line feed, without a carriage return before it.
pub open spec fn strip_cr(l: Seq<char>) -> Seq<char> {
    if l.len() > 0 && l.last() == '\r' {
        l.drop_last()
    } else {
        l
    }
}

/// The lines of `s`, as `str::lines` gives them: split at each line feed
/// (and a carriage return just before it), with no empty last line after a
/// final line feed.
pub open spec fn lines_of(s: Seq<char>) -> Seq<Seq<char>>
    decreases s.len(),
{
    if s.len() == 0 {
        seq![]
    } else {
        match first_newline(s, 0) {
            Some(i) => if 0 <= i < s.len() {
                seq![strip_cr(s.take(i))] + lines_of(s.skip(i + 1))
            } else {
                seq![s]
            },
            None => seq![s],
        }
    }
}

/// `ls` without its leading lines that are `---` or empty.
pub open spec fn skip_separators(ls: Seq<Seq<char>>) -> Seq<Seq<char>>
    decreases ls.len(),
{
    if ls.len() > 0 && (ls[0] == seq!['-', '-', '-'] || ls[0].len() == 0) {
        skip_separators(ls.skip(1))
    } else {
        ls
    }
}

pub proof fn lemma_first_dash(s: Seq<char>, i: int)
    requires
        0 <= i,
    ensures
        match first_dash(s, i) {
            Some(j) => i <= j && dash_at(s, j) && forall|k: int| i <= k < j ==> !#[trigger] dash_at(s, k),
            None => forall|k: int| i <= k ==> !#[trigger] dash_at(s, k),
        },
    decreases s.len() - i,
{
    if i + 3 <= s.len() && !dash_at(s, i) {
        lemma_first_dash(s, i + 1);
    }
}

pub proof fn lemma_first_newline(s: Seq<char>, i: int)
    requires
        0 <= i,
    ensures
        match first_newline(s, i) {
            Some(j) => i <= j < s.len() && s[j] == '\n' && forall|k: int| i <= k < j ==> s[k] != '\n',
            None => forall|k: int| i <= k < s.len() ==> s[k] != '\n',
        },
    decreases s.len() - i,
{
    if i < s.len() && s[i] != '\n' {
        lemma_first_newline(s, i + 1);
    }
}

pub proof fn lemma_white_end(s: Seq<char>, i: int)
    requires
        0 <= i <= s.len(),
    ensures
        i <= white_end(s, i) <= s.len(),
    decreases s.len() - i,
{
    if i < s.len() && white_space(s[i]) {
        lemma_white_end(s, i + 1);
    }
}

/// The text of `s` from `from` (inclusive) to `to` (exclusive).
fn slice_chars(s: &Vec<char>, from: usize, to: usize) -> (r: String)
    requires
        from <= to <= s@.len(),
    ensures
        r@ == s@.subrange(from as int, to as int),
{
    let mut r = String::new();
    let mut i = from;
    while i < to
        invariant
            from <= i <= to <= s@.len(),
            r@ == s@.subrange(from as int, i as int),
        decreases to - i,
    {
        push_char(&mut r, s[i]);
        assert(r@ =~= s@.subrange(from as int, i + 1));
        i = i + 1;
    }
    r
}

/// The characters of `s`.
fn chars_vec(s: &str) -> (r: Vec<char>)
    ensures
        r@ == s@,
{
    let n = s.unicode_len();
    let mut r: Vec<char> = Vec::new();
    let mut i: usize = 0;
    while i < n
        invariant
            n == s@.len(),
            i <= n,
            r@ == s@.take(i as int),
        decreases n - i,
    {
        r.push(s.get_char(i));
        assert(r@ =~= s@.take(i + 1));
        i = i + 1;
    }
    assert(s@.take(n as int) =~= s@);
    r
}

/// The piece of `s` from `start` to the next `---` (or to the end), where
/// its text starts after leading white space, and whether a `---` follows.
fn piece_at(cs: &Vec<char>, start: usize) -> (r: (usize, usize, bool))
    requires
        start <= cs@.len(),
    ensures
        start <= r.1 <= r.0 <= cs@.len(),
        r.2 ==> r.0 + 3 <= cs@.len(),
        split_dashes(cs@.skip(start as int)) == seq![cs@.subrange(start as int, r.0 as int)] + if r.2 {
            split_dashes(cs@.skip(r.0 + 3))
        } else {
            Seq::<Seq<char>>::empty()
        },
        trim_start(cs@.subrange(start as int, r.0 as int)) == cs@.subrange(r.1 as int, r.0 as int),
{
    let ghost s = cs@;
    let ghost rest = s.skip(start as int);
    let n = cs.len();
    let mut i = start;
    while i < n && n - i >= 3 && !(cs[i] == '-' && cs[i + 1] == '-' && cs[i + 2] == '-')
        invariant
            start <= i <= n,
            n == s.len(),
            cs@ == s,
            rest == s.skip(start as int),
            forall|k: int| 0 <= k < i - start ==> !#[trigger] dash_at(rest, k),
        decreases n - i,
    {
        assert(!dash_at(rest, i - start));
        i = i + 1;
    }
    let found = i < n && n - i >= 3;
    let piece_end = if found { i } else { n };
    let ghost piece = s.subrange(start as int, piece_end as int);
    let mut w = start;
    while w < piece_end && is_white_space(cs[w])
        invariant
            start <= w <= piece_end <= n,
            n == s.len(),
            cs@ == s,
            piece == s.subrange(start as int, piece_end as int),
            white_end(piece, 0) == white_end(piece, w - start),
        decreases piece_end - w,
    {
        w = w + 1;
    }
    proof {
        lemma_first_dash(rest, 0);
        lemma_white_end(piece, (w - start) as int);
        if w < piece_end {
            assert(piece[w - start] == cs@[w as int]);
        }
        assert(white_end(piece, w - start) == w - start);
        assert(trim_start(piece) =~= s.subrange(w as int, piece_end as int));
        if found {
            assert(dash_at(rest, i - start));
            assert(first_dash(rest, 0) == Some(i - start)) by {
                if first_dash(rest, 0) != Some(i - start) {
                    let j = first_dash(rest, 0)->0;
                    assert(j < i - start);
                }
            }
            assert(rest.take(i - start) =~= piece);
            assert(rest.skip(i - start + 3) =~= s.skip(i + 3));
        } else {
            if first_dash(rest, 0) is Some {
                let j = first_dash(rest, 0)->0;
                assert(j + 3 <= rest.len());
                if j < i - start {
                    assert(!dash_at(rest, j));
                }
                assert(false);
            }
            assert(rest =~= piece);
        }
        assert(split_dashes(rest) =~= seq![piece] + if found {
            split_dashes(s.skip(i + 3))
        } else {
            Seq::<Seq<char>>::empty()
        });
    }
    (piece_end, w, found)
}

/// The text of each document of a file, as [`raw_documents`] states.
pub fn document_texts(content: &str) -> (r: Vec<String>)
    ensures
        strings_view(r@) == raw_documents(content@),
{
    let cs = chars_vec(content);
    let n = cs.len();
    let mut out: Vec<String> = Vec::new();
    let mut start: usize = 0;
    let ghost s = content@;
    proof {
        assert(s.skip(0) =~= s);
        assert(raw_documents(s) =~= strings_view(out@) + document_pieces(split_dashes(s.skip(0))));
    }
    loop
        invariant
            cs@ == s,
            s == content@,
            n == s.len(),
            start <= n,
            raw_documents(s) == strings_view(out@) + document_pieces(split_dashes(s.skip(start as int))),
        decreases n - start,
    {
        let (piece_end, w, found) = piece_at(&cs, start);
        let ghost piece = s.subrange(start as int, piece_end as int);
        let ghost before = out@;
        if piece_end > start {
            let t = slice_chars(&cs, w, piece_end);
            out.push(t);
        }
        proof {
            let tail: Seq<Seq<char>> = if found { split_dashes(s.skip(piece_end + 3)) } else { seq![] };
            let ps = seq![piece] + tail;
            assert(ps[0] == piece);
            assert(ps.skip(1) =~= tail);
            let mid = if piece.len() > 0 { seq![trim_start(piece)] } else { Seq::<Seq<char>>::empty() };
            assert(document_pieces(ps) == mid + document_pieces(tail));
            assert(strings_view(out@) =~= strings_view(before) + mid);
            assert(raw_documents(s) =~= strings_view(out@) + document_pieces(tail));
        }
        if !found {
            proof {
                assert(document_pieces(Seq::<Seq<char>>::empty()) =~= Seq::<Seq<char>>::empty());
                assert(raw_documents(s) =~= strings_view(out@));
            }
            return out;
        }
        start = piece_end + 3;
    }
}

// ---------------------------------------------------------------------------
// Documents of a file
// ---------------------------------------------------------------------------

/// One document of a file.
#[derive(Debug)]
pub struct YamlSource {
    /// The file the document was read from.
    pub file: String,
    pub yaml: Node,
    /// The text of the document.
    pub content: String,
    /// Where the document stands among those of its file.
    pub index: usize,
    /// The lines, counted across the file, where the document starts and
    /// where it ends (the line after its last).
    pub start: usize,
    pub end: usize,
    /// The first and last line, counted from the start of the document.
    pub first_line: Line,
    pub last_line: Line,
}

/// Whether `src` is document `index` of `file`, read as `doc` from `text`.
pub open spec fn source_of(src: YamlSource, file: Seq<char>, index: int, doc: NodeV, text: Seq<char>) -> bool {
    &&& src.file@ == file
    &&& src.yaml@ == doc
    &&& src.content@ == text
    &&& src.index == index
    &&& src.start == doc.span.start.line
    &&& src.end == doc.span.end.line
    &&& src.first_line.num() == 1
    &&& src.last_line.num() == doc.span.end.line - doc.span.start.line
}

/// Whether a document ends on a later line than it starts.
pub open spec fn spans_lines(doc: NodeV) -> bool {
    doc.span.end.line > doc.span.start.line
}

/// The first of the first `n` documents that does not span a line.
pub open spec fn first_flat(docs: Seq<NodeV>, n: int) -> Option<int>
    decreases n,
{
    if n <= 0 || n > docs.len() {
        None
    } else {
        match first_flat(docs, n - 1) {
            Some(i) => Some(i),
            None => if !spans_lines(docs[n - 1]) {
                Some(n - 1)
            } else {
                None
            },
        }
    }
}

pub open spec fn min(a: int, b: int) -> int {
    if a <= b {
        a
    } else {
        b
    }
}

/// Why a file could not be read into documents.
#[derive(Debug, Clone, PartialEq, Eq)]
pub enum ReadError {
    /// The text is no YAML.
    Yaml(YamlError),
    /// The document at this index does not end after the line it starts on.
    FlatDocument(usize),
}

/// The documents of a file, each paired with its text in order. Each
/// document must end on a later line than it starts.
pub fn sources_from(file: &str, docs: &Vec<Node>, texts: &Vec<String>) -> (r: Vec<YamlSource>)
    requires
        forall|i: int| 0 <= i < docs@.len() && i < texts@.len() ==> spans_lines(#[trigger] docs@[i]@),
    ensures
        r@.len() == min(docs@.len() as int, texts@.len() as int),
        forall|i: int| 0 <= i < r@.len() ==> source_of(#[trigger] r@[i], file@, i, docs@[i]@, texts@[i]@),
{
    let n = if docs.len() <= texts.len() { docs.len() } else { texts.len() };
    let mut out: Vec<YamlSource> = Vec::new();
    let mut i: usize = 0;
    while i < n
        invariant
            i <= n,
            n == min(docs@.len() as int, texts@.len() as int),
            forall|j: int| 0 <= j < docs@.len() && j < texts@.len() ==> spans_lines(#[trigger] docs@[j]@),
            out@.len() == i,
            forall|j: int| 0 <= j < i ==> source_of(#[trigger] out@[j], file@, j, docs@[j]@, texts@[j]@),
        decreases n - i,
    {
        let doc = &docs[i];
        assert(spans_lines(docs@[i as int]@));
        let start = doc.span.start.line;
        let end = doc.span.end.line;
        let src = YamlSource {
            file: file.to_owned(),
            yaml: copy_node(doc),
            content: texts[i].clone(),
            index: i,
            start,
            end,
            first_line: Line::one(),
            last_line: Line::unchecked(end - start),
        };
        out.push(src);
        i = i + 1;
    }
    out
}

/// Reads the documents of a file: their text, split at `---`, and their
/// nodes, as `saphyr` reads them. Document `i` gets the `i`-th text. A text
/// that is no YAML is refused, and so is a document that does not end after
/// the line it starts on.
pub fn read_doc(content: &str, file: &str) -> (r: Result<Vec<YamlSource>, ReadError>)
    ensures
        match yaml_documents(content@) {
            Err(e) => r matches Err(ReadError::Yaml(x)) && x@ == e,
            Ok(docs) => {
                let texts = raw_documents(content@);
                let n = min(docs.len() as int, texts.len() as int);
                match first_flat(docs, n) {
                    Some(i) => r == Err::<Vec<YamlSource>, ReadError>(ReadError::FlatDocument(i as usize)),
                    None => r matches Ok(v) && v@.len() == n && forall|i: int|
                        0 <= i < n ==> source_of(#[trigger] v@[i], file@, i, docs[i], texts[i]),
                }
            },
        },
{
    let texts = document_texts(content);
    let docs = match parse_yaml(content) {
        Ok(d) => d,
        Err(e) => {
            return Err(ReadError::Yaml(e));
        },
    };
    let ghost dv = nodes_view(docs@);
    proof {
        crate::yaml::lemma_nodes_view(docs@);
    }
    let n = if docs.len() <= texts.len() { docs.len() } else { texts.len() };
    let mut i: usize = 0;
    while i < n
        invariant
            i <= n,
            n == min(docs@.len() as int, texts@.len() as int),
            dv == nodes_view(docs@),
            dv.len() == docs@.len(),
            strings_view(texts@) == raw_documents(content@),
            yaml_documents(content@) == Ok::<Seq<NodeV>, YamlErrorV>(dv),
            forall|k: int| 0 <= k < docs@.len() ==> #[trigger] dv[k] == docs@[k]@,
            first_flat(dv, i as int) is None,
        decreases n - i,
    {
        if docs[i].span.end.line <= docs[i].span.start.line {
            assert(first_flat(dv, i + 1) == Some(i as int));
            proof {
                lemma_first_flat_stable(dv, i + 1, n as int);
            }
            return Err(ReadError::FlatDocument(i));
        }
        i = i + 1;
    }
    proof {
        assert forall|k: int| 0 <= k < docs@.len() && k < texts@.len() implies spans_lines(#[trigger] docs@[k]@) by {
            lemma_first_flat_none(dv, n as int, k);
        }
    }
    let v = sources_from(file, &docs, &texts);
    Ok(v)
}

pub proof fn lemma_first_flat_stable(docs: Seq<NodeV>, m: int, n: int)
    requires
        0 <= m <= n <= docs.len(),
        first_flat(docs, m) is Some,
    ensures
        first_flat(docs, n) == first_flat(docs, m),
    decreases n - m,
{
    if n > m {
        lemma_first_flat_stable(docs, m, n - 1);
    }
}

pub proof fn lemma_first_flat_none(docs: Seq<NodeV>, n: int, k: int)
    requires
        0 <= k < n <= docs.len(),
        first_flat(docs, n) is None,
    ensures
        spans_lines(docs[k]),
    decreases n,
{
    if k < n - 1 {
        lemma_first_flat_none(docs, n - 1, k);
    }
}

/// The line of `s` that starts at `start`: where it ends (without its line
/// feed and a carriage return before it), where its line feed stands, and
/// whether there is one.
fn line_at(cs: &Vec<char>, start: usize) -> (r: (usize, usize, bool))
    requires
        start < cs@.len(),
    ensures
        start <= r.0 <= r.1 <= cs@.len(),
        r.2 ==> r.1 < cs@.len(),
        lines_of(cs@.skip(start as int)) == seq![cs@.subrange(start as int, r.0 as int)] + if r.2 {
            lines_of(cs@.skip(r.1 + 1))
        } else {
            Seq::<Seq<char>>::empty()
        },
{
    let ghost s = cs@;
    let ghost rest = s.skip(start as int);
    let n = cs.len();
    let mut i = start;
    while i < n && cs[i] != '\n'
        invariant
            start <= i <= n,
            n == s.len(),
            cs@ == s,
            forall|k: int| start <= k < i ==> s[k] != '\n',
        decreases n - i,
    {
        i = i + 1;
    }
    let found = i < n;
    let line_end = if found && i > start && cs[i - 1] == '\r' { i - 1 } else { i };
    let ghost line = s.subrange(start as int, line_end as int);
    proof {
        lemma_first_newline(rest, 0);
        if found {
            assert(rest[i - start] == '\n');
            assert(first_newline(rest, 0) == Some(i - start)) by {
                if first_newline(rest, 0) != Some(i - start) {
                    let j = first_newline(rest, 0)->0;
                    assert(j < i - start);
                    assert(rest[j] == s[start + j]);
                }
            }
            assert(strip_cr(rest.take(i - start)) =~= line);
            assert(rest.skip(i - start + 1) =~= s.skip(i + 1));
        } else {
            if first_newline(rest, 0) is Some {
                let j = first_newline(rest, 0)->0;
                assert(rest[j] == s[start + j]);
                assert(false);
            }
            assert(rest =~= line);
        }
        assert(lines_of(rest) =~= seq![line] + if found {
            lines_of(s.skip(i + 1))
        } else {
            Seq::<Seq<char>>::empty()
        });
    }
    (line_end, i, found)
}

/// The lines of a text, as `str::lines` gives them.
pub fn text_lines(text: &str) -> (r: Vec<String>)
    ensures
        strings_view(r@) == lines_of(text@),
{
    let cs = chars_vec(text);
    let n = cs.len();
    let ghost s = text@;
    let mut out: Vec<String> = Vec::new();
    let mut start: usize = 0;
    proof {
        assert(s.skip(0) =~= s);
        assert(strings_view(out@) =~= Seq::<Seq<char>>::empty());
        assert(Seq::<Seq<char>>::empty() + lines_of(s) =~= lines_of(s));
    }
    while start < n
        invariant
            cs@ == s,
            s == text@,
            n == s.len(),
            start <= n,
            lines_of(s) == strings_view(out@) + lines_of(s.skip(start as int)),
        decreases n - start,
    {
        let (line_end, i, found) = line_at(&cs, start);
        let ghost line = s.subrange(start as int, line_end as int);
        let ghost next_rest: Seq<Seq<char>> = if found { lines_of(s.skip(i + 1)) } else { seq![] };
        let ghost before = out@;
        let t = slice_chars(&cs, start, line_end);
        out.push(t);
        proof {
            assert(strings_view(out@) =~= strings_view(before).push(line));
            assert(strings_view(before) + (seq![line] + next_rest) =~= strings_view(out@) + next_rest);
        }
        if !found {
            proof {
                assert(strings_view(out@) + Seq::<Seq<char>>::empty() =~= strings_view(out@));
            }
            return out;
        }
        start = i + 1;
    }
    proof {
        assert(s.skip(n as int) =~= Seq::<char>::empty());
        assert(lines_of(Seq::<char>::empty()) =~= Seq::<Seq<char>>::empty());
        assert(strings_view(out@) + Seq::<Seq<char>>::empty() =~= strings_view(out@));
    }
    out
}

impl YamlSource {
    /// The lines of the document's text, from its first line that is
    /// neither `---` nor empty.
    #[verifier::spinoff_prover]
    #[verifier::rlimit(50)]
    pub fn lines(&self) -> (r: Vec<String>)
        ensures
            strings_view(r@) == skip_separators(lines_of(self.content@)),
    {
        let cs = chars_vec(self.content.as_str());
        let n = cs.len();
        let ghost s = self.content@;
        let mut out: Vec<String> = Vec::new();
        let mut start: usize = 0;
        let mut skipping = true;
        proof {
            assert(s.skip(0) =~= s);
        }
        while start < n
            invariant
                cs@ == s,
                s == self.content@,
                n == s.len(),
                start <= n,
                skipping ==> out@.len() == 0,
                skip_separators(lines_of(s)) == if skipping {
                    skip_separators(lines_of(s.skip(start as int)))
                } else {
                    strings_view(out@) + lines_of(s.skip(start as int))
                },
            decreases n - start,
        {
            let (line_end, i, found) = line_at(&cs, start);
            let ghost line = s.subrange(start as int, line_end as int);
            let ghost next_rest: Seq<Seq<char>> = if found { lines_of(s.skip(i + 1)) } else { seq![] };
            let is_sep = line_end - start == 3 && cs[start] == '-' && cs[start + 1] == '-' && cs[start + 2] == '-';
            proof {
                assert(is_sep == (line =~= seq!['-', '-', '-']));
                let ls = seq![line] + next_rest;
                assert(ls[0] == line);
                assert(ls.skip(1) =~= next_rest);
            }
            if !(skipping && (is_sep || line_end == start)) {
                let ghost before = out@;
                let t = slice_chars(&cs, start, line_end);
                out.push(t);
                proof {
                    assert(strings_view(out@) =~= strings_view(before).push(line));
                    if skipping {
                        assert(strings_view(before) =~= Seq::<Seq<char>>::empty());
                    }
                    assert(strings_view(before) + (seq![line] + next_rest) =~= strings_view(out@) + next_rest);
                }
                skipping = false;
            }
            if !found {
                proof {
                    assert(skip_separators(Seq::<Seq<char>>::empty()) =~= Seq::<Seq<char>>::empty());
                    if skipping {
                        assert(strings_view(out@) =~= Seq::<Seq<char>>::empty());
                    }
                    assert(strings_view(out@) + Seq::<Seq<char>>::empty() =~= strings_view(out@));
                }
                return out;
            }
            start = i + 1;
        }
        proof {
            assert(s.skip(n as int) =~= Seq::<char>::empty());
            assert(lines_of(Seq::<char>::empty()) =~= Seq::<Seq<char>>::empty());
            assert(skip_separators(Seq::<Seq<char>>::empty()) =~= Seq::<Seq<char>>::empty());
            if skipping {
                assert(strings_view(out@) =~= Seq::<Seq<char>>::empty());
            }
            assert(strings_view(out@) + Seq::<Seq<char>>::empty() =~= strings_view(out@));
        }
        out
    }

    /// Turns a line number counted across the file into one counted from
    /// the start of the document: the start itself, and any line before it,
    /// is line 1.
    pub fn relative_line(&self, line: usize) -> (r: Line)
        requires
            sat_sub(line as int, self.start as int) < usize::MAX,
        ensures
            r.num() == sat_sub(line as int, self.start as int) + 1,
    {
        let d = if line >= self.start { line - self.start } else { 0 };
        Line::unchecked(d + 1)
    }
}

} // verus!
