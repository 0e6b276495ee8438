//! Paths into a YAML document, and the patterns that select paths to ignore.
use crate::text::{decimal, decimal_string, push_char};
use crate::yaml::str_eq;
use vstd::prelude::*;

verus! {

// ---------------------------------------------------------------------------
// Paths
// ---------------------------------------------------------------------------

/// One step of a path: a key of a mapping, or an index of a sequence.
///
/// Mapping keys are held as text.
#[derive(Debug, Clone, PartialEq, Eq)]
pub enum Segment {
    Field(String),
    Index(usize),
}

pub ghost enum SegmentV {
    Field(Seq<char>),
    Index(usize),
}

impl View for Segment {
    type V = SegmentV;

    open spec fn view(&self) -> SegmentV {
        match self {
            Segment::Field(s) => SegmentV::Field(s@),
            Segment::Index(i) => SegmentV::Index(*i),
        }
    }
}

impl Segment {
    /// A key of a mapping.
    pub fn field(name: &str) -> (r: Segment)
        ensures
            r@ == SegmentV::Field(name@),
    {
        Segment::Field(name.to_owned())
    }

    /// An index of a sequence.
    pub fn index(i: usize) -> (r: Segment)
        ensures
            r@ == SegmentV::Index(i),
    {
        Segment::Index(i)
    }

    /// A copy of this segment.
    pub fn copy(&self) -> (r: Segment)
        ensures
            r@ == self@,
    {
        match self {
            Segment::Field(s) => Segment::Field(s.clone()),
            Segment::Index(i) => Segment::Index(*i),
        }
    }

    /// Whether two segments are the same step.
    pub fn same(&self, other: &Segment) -> (r: bool)
        ensures
            r == (self@ == other@),
    {
        match (self, other) {
            (Segment::Field(a), Segment::Field(b)) => str_eq(a.as_str(), b.as_str()),
            (Segment::Index(a), Segment::Index(b)) => *a == *b,
            _ => false,
        }
    }
}

pub open spec fn segments_view(s: Seq<Segment>) -> Seq<SegmentV> {
    s.map_values(|g: Segment| g@)
}

/// A path from the root of a document to one of its nodes.
#[derive(Debug, Clone, PartialEq, Eq)]
pub struct Path {
    segments: Vec<Segment>,
}

impl View for Path {
    type V = Seq<SegmentV>;

    closed spec fn view(&self) -> Seq<SegmentV> {
        segments_view(self.segments@)
    }
}

/// Copies of the segments of `s`.
fn copy_segments(s: &[Segment]) -> (r: Vec<Segment>)
    ensures
        segments_view(r@) == segments_view(s@),
{
    let mut r: Vec<Segment> = Vec::new();
    let mut i: usize = 0;
    while i < s.len()
        invariant
            i <= s.len(),
            r@.len() == i,
            forall|k: int| 0 <= k < i ==> (#[trigger] r@[k])@ == s@[k]@,
        decreases s.len() - i,
    {
        r.push(s[i].copy());
        i = i + 1;
    }
    assert(segments_view(r@) =~= segments_view(s@));
    r
}

/// The text of a path in the style of `jq`: `.key` for each key and `[n]`
/// for each index.
pub open spec fn jq_text(p: Seq<SegmentV>) -> Seq<char>
    decreases p.len(),
{
    if p.len() == 0 {
        seq![]
    } else {
        jq_text(p.drop_last()) + match p.last() {
            SegmentV::Field(s) => seq!['.'] + s,
            SegmentV::Index(n) => seq!['['] + decimal(n as nat) + seq![']'],
        }
    }
}

impl Path {
    /// The empty path: the root of a document.
    pub fn new() -> (r: Path)
        ensures
            r@ == Seq::<SegmentV>::empty(),
    {
        let r = Path { segments: Vec::new() };
        assert(r@ =~= Seq::<SegmentV>::empty());
        r
    }

    /// A path made of the given segments.
    pub fn from_unchecked(segments: Vec<Segment>) -> (r: Path)
        ensures
            r@ == segments_view(segments@),
    {
        Path { segments }
    }

    /// The path one step up, or `None` for the root.
    pub fn parent(&self) -> (r: Option<Path>)
        ensures
            self@.len() == 0 ==> r is None,
            self@.len() > 0 ==> (r matches Some(p) && p@ == self@.drop_last()),
    {
        if self.segments.len() == 0 {
            return None;
        }
        let mut copy = copy_segments(self.segments.as_slice());
        copy.pop();
        let r = Path { segments: copy };
        assert(r@ =~= self@.drop_last());
        Some(r)
    }

    /// The path in the style of `jq`, such as `.spec.containers[0].image`.
    pub fn jq_like(&self) -> (r: String)
        ensures
            r@ == jq_text(self@),
    {
        let mut buf = String::new();
        let mut i: usize = 0;
        while i < self.segments.len()
            invariant
                i <= self.segments.len(),
                self@ == segments_view(self.segments@),
                buf@ == jq_text(self@.take(i as int)),
            decreases self.segments.len() - i,
        {
            assert(self@.take(i + 1).drop_last() =~= self@.take(i as int));
            match &self.segments[i] {
                Segment::Field(s) => {
                    push_char(&mut buf, '.');
                    buf.append(s.as_str());
                },
                Segment::Index(n) => {
                    push_char(&mut buf, '[');
                    let d = decimal_string(*n);
                    buf.append(d.as_str());
                    push_char(&mut buf, ']');
                },
            }
            assert(buf@ =~= jq_text(self@.take(i + 1)));
            i = i + 1;
        }
        assert(self@.take(self.segments.len() as int) =~= self@);
        buf
    }

    /// This path with one more step.
    pub fn push(&self, value: Segment) -> (r: Path)
        ensures
            r@ == self@.push(value@),
    {
        let mut copy = copy_segments(self.segments.as_slice());
        copy.push(value);
        let r = Path { segments: copy };
        assert(r@ =~= self@.push(value@));
        r
    }

    /// The steps of the path, from the root down.
    pub fn segments(&self) -> (r: &[Segment])
        ensures
            segments_view(r@) == self@,
    {
        self.segments.as_slice()
    }

    /// The number of steps.
    pub fn len(&self) -> (r: usize)
        ensures
            r == self@.len(),
    {
        self.segments.len()
    }

    /// A copy of this path.
    pub fn copy(&self) -> (r: Path)
        ensures
            r@ == self@,
    {
        Path { segments: copy_segments(self.segments.as_slice()) }
    }

    /// Whether two paths have the same steps.
    pub fn same(&self, other: &Path) -> (r: bool)
        ensures
            r == (self@ == other@),
    {
        let n = self.segments.len();
        if n != other.segments.len() {
            return false;
        }
        let mut i: usize = 0;
        while i < n
            invariant
                n == self.segments.len(),
                n == other.segments.len(),
                i <= n,
                self@ == segments_view(self.segments@),
                other@ == segments_view(other.segments@),
                self@.take(i as int) == other@.take(i as int),
            decreases n - i,
        {
            if !self.segments[i].same(&other.segments[i]) {
                assert(self@[i as int] != other@[i as int]);
                return false;
            }
            assert(self@.take(i + 1) =~= self@.take(i as int).push(self@[i as int]));
            assert(other@.take(i + 1) =~= other@.take(i as int).push(other@[i as int]));
            i = i + 1;
        }
        assert(self@.take(n as int) =~= self@);
        assert(other@.take(n as int) =~= other@);
        true
    }
}

// ---------------------------------------------------------------------------
// Patterns of paths to ignore
// ---------------------------------------------------------------------------

/// One element of an ignore pattern.
#[derive(Debug, Clone, PartialEq, Eq)]
pub enum MatchElement {
    /// The pattern starts at the root of the document.
    Root,
    Field(String),
    Index(usize),
    /// `[*]`: any index of a sequence.
    AnyArrayElement,
    /// `*` in place of a key: any key of a mapping.
    AnyField,
}

pub ghost enum MatchElementV {
    Root,
    Field(Seq<char>),
    Index(nat),
    AnyArrayElement,
    AnyField,
}

impl View for MatchElement {
    type V = MatchElementV;

    open spec fn view(&self) -> MatchElementV {
        match self {
            MatchElement::Root => MatchElementV::Root,
            MatchElement::Field(s) => MatchElementV::Field(s@),
            MatchElement::Index(i) => MatchElementV::Index(*i as nat),
            MatchElement::AnyArrayElement => MatchElementV::AnyArrayElement,
            MatchElement::AnyField => MatchElementV::AnyField,
        }
    }
}

/// Whether one pattern element accepts one path segment.
pub open spec fn element_matches(e: MatchElementV, s: SegmentV) -> bool {
    match e {
        MatchElementV::Field(a) => s matches SegmentV::Field(b) && a == b,
        MatchElementV::Index(a) => s matches SegmentV::Index(b) && a == b,
        MatchElementV::AnyArrayElement => s is Index,
        MatchElementV::AnyField => s is Field,
        MatchElementV::Root => false,
    }
}

impl MatchElement {
    fn matches(&self, segment: &Segment) -> (r: bool)
        ensures
            r == element_matches(self@, segment@),
    {
        match (self, segment) {
            (MatchElement::Field(a), Segment::Field(b)) => str_eq(a.as_str(), b.as_str()),
            (MatchElement::Index(a), Segment::Index(b)) => *a == *b,
            (MatchElement::AnyArrayElement, Segment::Index(_)) => true,
            (MatchElement::AnyField, Segment::Field(_)) => true,
            _ => false,
        }
    }
}

pub open spec fn elements_view(s: Seq<MatchElement>) -> Seq<MatchElementV> {
    s.map_values(|e: MatchElement| e@)
}

/// A pattern that selects paths, such as `.spec.env[*].name` or
/// `annotations["app.kubernetes.io/name"]`.
///
/// A pattern that starts with `.` is anchored at the root; any other
/// pattern may start anywhere along a path.
#[derive(Debug, PartialEq, Eq)]
pub struct IgnorePath {
    elements: Vec<MatchElement>,
}

impl IgnorePath {
    #[verifier::type_invariant]
    spec fn has_elements(self) -> bool {
        self.elements@.len() >= 1
    }
}

impl View for IgnorePath {
    type V = Seq<MatchElementV>;

    closed spec fn view(&self) -> Seq<MatchElementV> {
        elements_view(self.elements@)
    }
}

/// The first index from `i` on whose segment `e` accepts, if there is one.
pub open spec fn first_match(e: MatchElementV, path: Seq<SegmentV>, i: int) -> Option<int>
    decreases path.len() - i,
{
    if i < 0 || i >= path.len() {
        None
    } else if element_matches(e, path[i]) {
        Some(i)
    } else {
        first_match(e, path, i + 1)
    }
}

/// Whether a pattern selects a path.
///
/// An anchored pattern selects a path when each of its elements after the
/// root accepts the segment at the same position. Any other pattern selects
/// a path when its first element accepts some segment, and, from the first
/// such segment on, each element accepts the segment beside it, as far as
/// both reach.
pub open spec fn pattern_matches(pattern: Seq<MatchElementV>, path: Seq<SegmentV>) -> bool {
    if pattern[0] is Root {
        forall|k: int|
            1 <= k < pattern.len() ==> k - 1 < path.len() && element_matches(
                #[trigger] pattern[k],
                path[k - 1],
            )
    } else {
        match first_match(pattern[0], path, 0) {
            None => false,
            Some(start) => forall|k: int|
                0 <= k < pattern.len() && start + k < path.len() ==> element_matches(
                    #[trigger] pattern[k],
                    path[start + k],
                ),
        }
    }
}

pub proof fn lemma_first_match_extend(e: MatchElementV, path: Seq<SegmentV>, more: Seq<SegmentV>, i: int)
    requires
        0 <= i,
        first_match(e, path, i) is Some,
    ensures
        first_match(e, path + more, i) == first_match(e, path, i),
    decreases path.len() - i,
{
    assert((path + more)[i] == path[i]);
    if !element_matches(e, path[i]) {
        lemma_first_match_extend(e, path, more, i + 1);
    }
}

proof fn lemma_anchored_element(pattern: Seq<MatchElementV>, path: Seq<SegmentV>, more: Seq<SegmentV>, k: int)
    requires
        pattern_matches(pattern, path),
        pattern[0] is Root,
        1 <= k < pattern.len(),
    ensures
        k - 1 < (path + more).len() && element_matches(pattern[k], (path + more)[k - 1]),
{
    let e = pattern[k];
    assert((path + more)[k - 1] == path[k - 1]);
}

pub proof fn lemma_first_match_bounds(e: MatchElementV, path: Seq<SegmentV>, i: int)
    requires
        0 <= i,
    ensures
        first_match(e, path, i) matches Some(j) ==> i <= j < path.len() && element_matches(e, path[j]),
    decreases path.len() - i,
{
    if i < path.len() && !element_matches(e, path[i]) {
        lemma_first_match_bounds(e, path, i + 1);
    }
}

proof fn lemma_relative_element(pattern: Seq<MatchElementV>, path: Seq<SegmentV>, more: Seq<SegmentV>, s: int, k: int)
    requires
        !(pattern[0] is Root),
        pattern_matches(pattern, path),
        first_match(pattern[0], path, 0) == Some(s),
        s + pattern.len() <= path.len(),
        0 <= k < pattern.len(),
    ensures
        element_matches(pattern[k], (path + more)[s + k]),
{
    lemma_first_match_bounds(pattern[0], path, 0);
    let e = pattern[k];
    assert((path + more)[s + k] == path[s + k]);
}

/// A pattern that selects a path selects every path below it, where the
/// pattern is anchored at the root, or its elements all fall within the
/// path. (A relative pattern compares only as far as the path reaches, so
/// `a.b` selects `.a` but not `.a.c`.)
pub proof fn lemma_pattern_selects_below(pattern: Seq<MatchElementV>, path: Seq<SegmentV>, more: Seq<SegmentV>)
    requires
        pattern.len() >= 1,
        pattern_matches(pattern, path),
        pattern[0] is Root || (first_match(pattern[0], path, 0) matches Some(s) && s + pattern.len() <= path.len()),
    ensures
        pattern_matches(pattern, path + more),
{
    if let MatchElementV::Root = pattern[0] {
        if pattern.len() > 1 {
            lemma_anchored_element(pattern, path, more, pattern.len() - 1);
        }
        assert forall|k: int| 1 <= k < pattern.len() implies (k - 1 < (path + more).len() && element_matches(
            #[trigger] pattern[k],
            (path + more)[k - 1],
        )) by {
            lemma_anchored_element(pattern, path, more, k);
        }
    } else {
        lemma_first_match_extend(pattern[0], path, more, 0);
        lemma_first_match_bounds(pattern[0], path, 0);
        let s = first_match(pattern[0], path, 0)->0;
        assert forall|k: int| (0 <= k < pattern.len() && s + k < (path + more).len()) implies element_matches(
            #[trigger] pattern[k],
            (path + more)[s + k],
        ) by {
            lemma_relative_element(pattern, path, more, s, k);
        }
    }
}

/// The parent of a path with a segment pushed is the path itself.
pub proof fn lemma_parent_of_push(p: Seq<SegmentV>, s: SegmentV)
    ensures
        p.push(s).drop_last() == p,
        p.push(s).last() == s,
{
    assert(p.push(s).drop_last() =~= p);
}

/// Why a text is not an ignore pattern.
#[derive(Debug, Clone, Copy, PartialEq, Eq)]
pub enum IgnorePathError {
    /// The text does not start with a field, `[n]`, `[*]` or `["..."]`.
    Invalid,
    /// An index between brackets does not fit in `usize`.
    IndexTooLarge,
}

// --- The grammar, as spec functions over characters ---

pub open spec fn is_alpha(c: char) -> bool {
    ('a' <= c && c <= 'z') || ('A' <= c && c <= 'Z')
}

pub open spec fn is_digit(c: char) -> bool {
    '0' <= c && c <= '9'
}

pub open spec fn is_quoted(c: char) -> bool {
    is_alpha(c) || c == '.' || c == '/'
}

/// The end of the run of characters from `i` on that satisfy `p`.
pub open spec fn run_end(s: Seq<char>, i: int, p: spec_fn(char) -> bool) -> int
    decreases s.len() - i,
{
    if 0 <= i < s.len() && p(s[i]) {
        run_end(s, i + 1, p)
    } else {
        i
    }
}

/// The value of a run of decimal digits.
pub open spec fn digits_value(ds: Seq<char>) -> nat
    decreases ds.len(),
{
    if ds.len() == 0 {
        0
    } else {
        digits_value(ds.drop_last()) * 10 + ((ds.last() as int) - ('0' as int)) as nat
    }
}

/// The outcome of reading one element of a pattern at a position.
pub ghost enum Step {
    /// An element, and the position after it.
    Read(MatchElementV, int),
    NoMatch,
    /// An index between brackets that does not fit in `usize`.
    Overflow,
}

/// Whether `c` may stand in a key written without brackets: anything but
/// the `.` and `[` that start the next element.
pub open spec fn is_field_char(c: char) -> bool {
    c != '.' && c != '['
}

/// A key at `i`: the characters up to the next `.` or `[`; a lone `*`
/// stands for any key.
pub open spec fn text_field_at(s: Seq<char>, i: int) -> Step {
    let e = run_end(s, i, |c: char| is_field_char(c));
    if e > i {
        if s.subrange(i, e) == seq!['*'] {
            Step::Read(MatchElementV::AnyField, e)
        } else {
            Step::Read(MatchElementV::Field(s.subrange(i, e)), e)
        }
    } else {
        Step::NoMatch
    }
}

/// `["..."]`, `[n]` or `[*]` at `i`.
pub open spec fn bracketed_at(s: Seq<char>, i: int) -> Step {
    let j = i + 1;
    if !(0 <= i < s.len() && s[i] == '[') {
        Step::NoMatch
    } else if j < s.len() && s[j] == '"' {
        let e = run_end(s, j + 1, |c: char| is_quoted(c));
        if e > j + 1 && e < s.len() && e + 1 < s.len() && s[e] == '"' && s[e + 1] == ']' {
            Step::Read(MatchElementV::Field(s.subrange(j + 1, e)), e + 2)
        } else {
            Step::NoMatch
        }
    } else {
        let e = run_end(s, j, |c: char| is_digit(c));
        if e > j {
            let n = digits_value(s.subrange(j, e));
            if n > usize::MAX {
                Step::Overflow
            } else if e < s.len() && s[e] == ']' {
                Step::Read(MatchElementV::Index(n), e + 1)
            } else {
                Step::NoMatch
            }
        } else if j < s.len() && s[j] == '*' && j + 1 < s.len() && s[j + 1] == ']' {
            Step::Read(MatchElementV::AnyArrayElement, j + 2)
        } else {
            Step::NoMatch
        }
    }
}

/// The first element of a pattern: a key or a bracketed element.
pub open spec fn first_at(s: Seq<char>, i: int) -> Step {
    match text_field_at(s, i) {
        Step::Read(e, k) => Step::Read(e, k),
        _ => bracketed_at(s, i),
    }
}

/// A later element: `.` and a key, or a bracketed element.
pub open spec fn next_at(s: Seq<char>, i: int) -> Step {
    let t = text_field_at(s, i + 1);
    if 0 <= i < s.len() && s[i] == '.' && t is Read {
        t
    } else {
        bracketed_at(s, i)
    }
}

/// The outcome of reading a pattern.
pub ghost enum Parsed {
    Elements(Seq<MatchElementV>),
    Invalid,
    Overflow,
}

/// The elements read from position `i` on, to the end of the text; text
/// left where no element can be read makes the pattern invalid.
pub open spec fn rest_at(s: Seq<char>, i: int) -> Parsed
    decreases s.len() - i,
{
    match next_at(s, i) {
        Step::Read(e, k) => if i < k <= s.len() {
            match rest_at(s, k) {
                Parsed::Elements(es) => Parsed::Elements(seq![e] + es),
                other => other,
            }
        } else {
            Parsed::Elements(seq![e])
        },
        Step::NoMatch => if i >= s.len() {
            Parsed::Elements(seq![])
        } else {
            Parsed::Invalid
        },
        Step::Overflow => Parsed::Overflow,
    }
}

/// What a text reads as: an optional leading `.` (anchoring at the root),
/// a first element, then any number of further elements.
pub open spec fn parse_pattern(s: Seq<char>) -> Parsed {
    let root = s.len() > 0 && s[0] == '.';
    let i: int = if root { 1 } else { 0 };
    let prefix: Seq<MatchElementV> = if root { seq![MatchElementV::Root] } else { seq![] };
    match first_at(s, i) {
        Step::Read(e, k) => match rest_at(s, k) {
            Parsed::Elements(es) => Parsed::Elements(prefix + seq![e] + es),
            other => other,
        },
        Step::NoMatch => Parsed::Invalid,
        Step::Overflow => Parsed::Overflow,
    }
}

pub proof fn lemma_run_end(s: Seq<char>, i: int, p: spec_fn(char) -> bool)
    requires
        0 <= i <= s.len(),
    ensures
        i <= run_end(s, i, p) <= s.len(),
        forall|k: int| i <= k < run_end(s, i, p) ==> p(#[trigger] s[k]),
        run_end(s, i, p) < s.len() ==> !p(s[run_end(s, i, p)]),
    decreases s.len() - i,
{
    if i < s.len() && p(s[i]) {
        lemma_run_end(s, i + 1, p);
    }
}

pub proof fn lemma_digits_grow(ds: Seq<char>, k: int)
    requires
        0 <= k <= ds.len(),
        forall|j: int| 0 <= j < ds.len() ==> is_digit(#[trigger] ds[j]),
    ensures
        digits_value(ds.take(k)) <= digits_value(ds),
    decreases ds.len() - k,
{
    if k < ds.len() {
        lemma_digits_grow(ds, k + 1);
        assert(ds.take(k + 1).drop_last() =~= ds.take(k));
    } else {
        assert(ds.take(k) =~= ds);
    }
}

/// Reads the characters of `s` into a vector.
pub(crate) fn chars_of(s: &str) -> (r: Vec<char>)
    ensures
        r@ == s@,
{
    let n = s.unicode_len();
    let mut r: Vec<char> = Vec::new();
    let mut i: usize = 0;
    while i < n
        invariant
            n == s@.len(),
            i <= n,
            r@ == s@.take(i as int),
        decreases n - i,
    {
        r.push(s.get_char(i));
        assert(r@ =~= s@.take(i + 1));
        i = i + 1;
    }
    assert(s@.take(n as int) =~= s@);
    r
}

/// The end of the run from `i` of key characters (`kind` 0), of digits (`kind` 1)
/// or of the characters allowed between quotes (`kind` 2).
fn run_end_exec(s: &Vec<char>, i: usize, kind: u8) -> (r: usize)
    requires
        i <= s@.len(),
        kind <= 2,
    ensures
        kind == 0 ==> r == run_end(s@, i as int, |c: char| is_field_char(c)),
        kind == 1 ==> r == run_end(s@, i as int, |c: char| is_digit(c)),
        kind == 2 ==> r == run_end(s@, i as int, |c: char| is_quoted(c)),
    decreases s@.len() - i,
{
    if i < s.len() {
        let c = s[i];
        let ok = if kind == 0 {
            c != '.' && c != '['
        } else if kind == 1 {
            '0' <= c && c <= '9'
        } else {
            ('a' <= c && c <= 'z') || ('A' <= c && c <= 'Z') || c == '.' || c == '/'
        };
        if ok {
            return run_end_exec(s, i + 1, kind);
        }
    }
    i
}

/// The value of the digits `s[from..to]`, or `None` where it exceeds `usize`.
pub(crate) fn digits_exec(s: &Vec<char>, from: usize, to: usize) -> (r: Option<usize>)
    requires
        from <= to <= s@.len(),
        forall|j: int| from <= j < to ==> is_digit(#[trigger] s@[j]),
    ensures
        match r {
            Some(v) => v == digits_value(s@.subrange(from as int, to as int)),
            None => digits_value(s@.subrange(from as int, to as int)) > usize::MAX,
        },
{
    let ghost ds = s@.subrange(from as int, to as int);
    let mut v: usize = 0;
    let mut i: usize = from;
    while i < to
        invariant
            from <= i <= to <= s@.len(),
            ds == s@.subrange(from as int, to as int),
            forall|j: int| 0 <= j < ds.len() ==> is_digit(#[trigger] ds[j]),
            v == digits_value(ds.take(i - from)),
        decreases to - i,
    {
        let ghost k: int = i - from;
        assert(ds.take(k + 1).drop_last() =~= ds.take(k));
        assert(ds[k] == s@[i as int]);
        let d = (s[i] as u32 - 48) as usize;
        assert(d == (ds[k] as int) - ('0' as int));
        let m = v.checked_mul(10);
        match m {
            None => {
                proof {
                    lemma_digits_grow(ds, k + 1);
                }
                return None;
            },
            Some(m) => {
                let a = m.checked_add(d);
                match a {
                    None => {
                        proof {
                            lemma_digits_grow(ds, k + 1);
                        }
                        return None;
                    },
                    Some(a) => {
                        v = a;
                    },
                }
            },
        }
        i = i + 1;
    }
    assert(ds.take(to - from) =~= ds);
    Some(v)
}

/// The exec side of [`Step`].
enum StepExec {
    Read(MatchElement, usize),
    NoMatch,
    Overflow,
}

spec fn step_view(st: StepExec) -> Step {
    match st {
        StepExec::Read(e, k) => Step::Read(e@, k as int),
        StepExec::NoMatch => Step::NoMatch,
        StepExec::Overflow => Step::Overflow,
    }
}

fn chars_to_string(s: &Vec<char>, from: usize, to: usize) -> (r: String)
    requires
        from <= to <= s@.len(),
    ensures
        r@ == s@.subrange(from as int, to as int),
{
    let mut r = String::new();
    let mut i = from;
    while i < to
        invariant
            from <= i <= to <= s@.len(),
            r@ == s@.subrange(from as int, i as int),
        decreases to - i,
    {
        push_char(&mut r, s[i]);
        assert(r@ =~= s@.subrange(from as int, i + 1));
        i = i + 1;
    }
    r
}

fn text_field_exec(s: &Vec<char>, i: usize) -> (r: StepExec)
    requires
        i <= s@.len(),
    ensures
        step_view(r) == text_field_at(s@, i as int),
        r matches StepExec::Read(_, k) ==> i < k <= s@.len(),
{
    let e = run_end_exec(s, i, 0);
    proof {
        lemma_run_end(s@, i as int, |c: char| is_field_char(c));
    }
    if e > i {
        if e == i + 1 && s[i] == '*' {
            assert(s@.subrange(i as int, e as int) =~= seq!['*']);
            StepExec::Read(MatchElement::AnyField, e)
        } else {
            let f = chars_to_string(s, i, e);
            assert(f@ != seq!['*']) by {
                if f@ == seq!['*'] {
                    assert(f@.len() == 1);
                    assert(s@[i as int] == f@[0]);
                }
            }
            StepExec::Read(MatchElement::Field(f), e)
        }
    } else {
        StepExec::NoMatch
    }
}

fn bracketed_exec(s: &Vec<char>, i: usize) -> (r: StepExec)
    requires
        i <= s@.len(),
    ensures
        step_view(r) == bracketed_at(s@, i as int),
        r matches StepExec::Read(_, k) ==> i < k <= s@.len(),
{
    if !(i < s.len() && s[i] == '[') {
        return StepExec::NoMatch;
    }
    let j = i + 1;
    if j < s.len() && s[j] == '"' {
        let e = run_end_exec(s, j + 1, 2);
        proof {
            lemma_run_end(s@, j + 1, |c: char| is_quoted(c));
        }
        if e > j + 1 && e < s.len() && e + 1 < s.len() && s[e] == '"' && s[e + 1] == ']' {
            StepExec::Read(MatchElement::Field(chars_to_string(s, j + 1, e)), e + 2)
        } else {
            StepExec::NoMatch
        }
    } else {
        let e = run_end_exec(s, j, 1);
        proof {
            lemma_run_end(s@, j as int, |c: char| is_digit(c));
        }
        if e > j {
            match digits_exec(s, j, e) {
                None => StepExec::Overflow,
                Some(n) => {
                    if e < s.len() && s[e] == ']' {
                        StepExec::Read(MatchElement::Index(n), e + 1)
                    } else {
                        StepExec::NoMatch
                    }
                },
            }
        } else if j < s.len() && s[j] == '*' && j + 1 < s.len() && s[j + 1] == ']' {
            StepExec::Read(MatchElement::AnyArrayElement, j + 2)
        } else {
            StepExec::NoMatch
        }
    }
}

impl IgnorePath {
    /// Reads a pattern, telling apart a text that is no pattern and one whose
    /// bracketed index does not fit in `usize`. The whole text must read as
    /// elements.
    pub fn parse(s: &str) -> (r: Result<IgnorePath, IgnorePathError>)
        ensures
            match parse_pattern(s@) {
                Parsed::Elements(es) => r matches Ok(p) && p@ == es,
                Parsed::Invalid => r == Err::<IgnorePath, IgnorePathError>(IgnorePathError::Invalid),
                Parsed::Overflow => r == Err::<IgnorePath, IgnorePathError>(IgnorePathError::IndexTooLarge),
            },
    {
        let cs = chars_of(s);
        let root = cs.len() > 0 && cs[0] == '.';
        let i: usize = if root { 1 } else { 0 };
        let mut elements: Vec<MatchElement> = Vec::new();
        if root {
            elements.push(MatchElement::Root);
        }
        let first = match text_field_exec(&cs, i) {
            StepExec::Read(e, k) => StepExec::Read(e, k),
            _ => bracketed_exec(&cs, i),
        };
        let ghost first_dbg = first;
        let mut pos = match first {
            StepExec::Read(e, k) => {
                elements.push(e);
                k
            },
            StepExec::NoMatch => {
                return Err(IgnorePathError::Invalid);
            },
            StepExec::Overflow => {
                return Err(IgnorePathError::IndexTooLarge);
            },
        };
        proof {
            let root_prefix: Seq<MatchElementV> = if root { seq![MatchElementV::Root] } else { seq![] };
            assert(step_view(first_dbg) == first_at(s@, i as int));
            match first_at(s@, i as int) {
                Step::Read(e, k) => {
                    assert(elements_view(elements@) =~= root_prefix + seq![e]);
                    match rest_at(s@, k) {
                        Parsed::Elements(es) => {
                            assert(root_prefix + seq![e] + es =~= elements_view(elements@) + es);
                        },
                        _ => {},
                    }
                },
                _ => {},
            }
        }
        loop
            invariant
                cs@ == s@,
                pos <= cs@.len(),
                elements@.len() >= 1,
                parse_pattern(s@) == match rest_at(s@, pos as int) {
                    Parsed::Elements(es) => Parsed::Elements(elements_view(elements@) + es),
                    other => other,
                },
            ensures
                elements@.len() >= 1,
                parse_pattern(s@) == Parsed::Elements(elements_view(elements@)),
            decreases cs@.len() - pos,
        {
            let next = if pos < cs.len() && cs[pos] == '.' {
                match text_field_exec(&cs, pos + 1) {
                    StepExec::Read(e, k) => StepExec::Read(e, k),
                    _ => bracketed_exec(&cs, pos),
                }
            } else {
                bracketed_exec(&cs, pos)
            };
            assert(step_view(next) == next_at(s@, pos as int)) by {
                if !(pos < cs.len() && cs@[pos as int] == '.') {
                    assert(!(0 <= pos < s@.len() && s@[pos as int] == '.'));
                }
            }
            match next {
                StepExec::Read(e, k) => {
                    let ghost before = elements_view(elements@);
                    elements.push(e);
                    assert(elements_view(elements@) =~= before.push(e@));
                    proof {
                        match rest_at(s@, k as int) {
                            Parsed::Elements(es) => {
                                assert(before + (seq![e@] + es) =~= before.push(e@) + es);
                            },
                            _ => {},
                        }
                    }
                    pos = k;
                },
                StepExec::NoMatch => {
                    if pos < cs.len() {
                        return Err(IgnorePathError::Invalid);
                    }
                    assert(elements_view(elements@) + Seq::<MatchElementV>::empty() =~= elements_view(elements@));
                    break;
                },
                StepExec::Overflow => {
                    return Err(IgnorePathError::IndexTooLarge);
                },
            }
        }
        Ok(IgnorePath { elements })
    }

    /// Reads a pattern. A text that is no pattern is refused.
    pub fn from_str(s: &str) -> (r: Result<IgnorePath, IgnorePathError>)
        requires
            !(parse_pattern(s@) is Overflow),
        ensures
            match parse_pattern(s@) {
                Parsed::Elements(es) => r matches Ok(p) && p@ == es,
                _ => r == Err::<IgnorePath, IgnorePathError>(IgnorePathError::Invalid),
            },
    {
        IgnorePath::parse(s)
    }

    /// Whether the pattern is anchored at the root.
    fn absolute(&self) -> (r: bool)
        ensures
            r == (self@[0] is Root),
    {
        proof {
            use_type_invariant(self);
        }
        assert(self@[0] == self.elements@[0]@);
        match self.elements[0] {
            MatchElement::Root => true,
            _ => false,
        }
    }

    /// Whether the pattern selects `path`.
    pub fn matches(&self, path: &Path) -> (r: bool)
        ensures
            r == pattern_matches(self@, path@),
    {
        proof {
            use_type_invariant(self);
        }
        let segs = path.segments();
        let pat = &self.elements;
        let ghost pv = self@;
        let ghost sv = path@;
        let anchored = self.absolute();
        if anchored {
            let mut idx: usize = 1;
            while idx < pat.len()
                invariant
                    1 <= idx <= pat@.len(),
                    pv == self@,
                    sv == path@,
                    pv[0] is Root,
                    pv == elements_view(pat@),
                    pv.len() == pat@.len(),
                    sv.len() == segs@.len(),
                    sv == segments_view(segs@),
                    idx - 1 <= sv.len(),
                    forall|k: int| 1 <= k < idx ==> element_matches(#[trigger] pv[k], sv[k - 1]),
                decreases pat.len() - idx,
            {
                if idx - 1 >= segs.len() {
                    assert(!(idx - 1 < sv.len() && element_matches(pv[idx as int], sv[idx - 1])));
                    proof {
                        let kk: int = idx as int;
                        if pattern_matches(pv, sv) {
                            let e = pv[kk];
                            assert(kk - 1 < sv.len());
                        }
                    }
                    assert(!pattern_matches(pv, sv));
                    return false;
                }
                if !pat[idx].matches(&segs[idx - 1]) {
                    assert(!(idx - 1 < sv.len() && element_matches(pv[idx as int], sv[idx - 1])));
                    return false;
                }
                idx = idx + 1;
            }
            true
        } else {
            let mut start: usize = 0;
            while start < segs.len() && !pat[0].matches(&segs[start])
                invariant
                    start <= segs@.len(),
                    pv == self@,
                    sv == path@,
                    !(pv[0] is Root),
                    pv == elements_view(pat@),
                    sv == segments_view(segs@),
                    pat@.len() >= 1,
                    first_match(pv[0], sv, 0) == first_match(pv[0], sv, start as int),
                decreases segs.len() - start,
            {
                start = start + 1;
            }
            if start >= segs.len() {
                return false;
            }
            assert(first_match(pv[0], sv, 0) == Some(start as int));
            let mut k: usize = 0;
            while k < pat.len() && k < segs.len() - start
                invariant
                    start < segs@.len(),
                    pv == self@,
                    sv == path@,
                    !(pv[0] is Root),
                    first_match(pv[0], sv, 0) == Some(start as int),
                    pv == elements_view(pat@),
                    sv == segments_view(segs@),
                    k <= pat@.len(),
                    forall|j: int| 0 <= j < k && start + j < sv.len() ==> element_matches(#[trigger] pv[j], sv[start + j]),
                decreases pat.len() - k,
            {
                if !pat[k].matches(&segs[start + k]) {
                    assert(!(0 <= k < pv.len() && start + k < sv.len() ==> element_matches(pv[k as int], sv[start + k])));
                    return false;
                }
                k = k + 1;
            }
            assert forall|j: int| 0 <= j < pv.len() && start + j < sv.len() implies element_matches(#[trigger] pv[j], sv[start + j]) by {
                assert(j < k);
            }
            true
        }
    }

    /// The elements of the pattern.
    pub fn elements(&self) -> (r: &[MatchElement])
        ensures
            elements_view(r@) == self@,
    {
        self.elements.as_slice()
    }
}

} // verus!
