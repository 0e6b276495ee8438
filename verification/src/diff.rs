//! The semantic difference between two YAML values.
use crate::path::{Path, Segment, SegmentV};
use crate::yaml::{
    lemma_same_data_refl, lemma_same_data_sym, copy_node, lemma_entries_view, lemma_nodes_view, lemma_view_unfold, same_data, str_eq,
    values_equal, float_is_nan, float_is_zero, DataV, Entry, EntryV, Node, NodeV, Span, YamlData, entries_view, nodes_view,
};
use vstd::multiset::Multiset;
use vstd::prelude::*;

verus! {

/// How the elements of two sequences are paired.
#[derive(Debug, Clone, Copy, PartialEq, Eq, Structural)]
pub enum ArrayOrdering {
    /// Elements are paired by index.
    Fixed,
    /// Each element of the left sequence is paired with the most similar
    /// element of the right one, wherever it stands.
    Dynamic,
}

/// Where a comparison stands, and how it pairs sequence elements.
#[derive(Debug, Clone)]
pub struct Context {
    path: Path,
    pub array_ordering: ArrayOrdering,
}

impl Default for Context {
    /// The root of a document, with sequences paired by index.
    fn default() -> (r: Context)
        ensures
            r.spec_path() == Seq::<SegmentV>::empty(),
            r.spec_ordering() == ArrayOrdering::Fixed,
    {
        Context::new()
    }
}

impl Context {
    /// The root of a document, with sequences paired by index.
    pub fn new() -> (r: Context)
        ensures
            r.spec_path() == Seq::<SegmentV>::empty(),
            r.spec_ordering() == ArrayOrdering::Fixed,
    {
        Context { path: Path::new(), array_ordering: ArrayOrdering::Fixed }
    }

    /// The root of a document, with the given pairing of sequences.
    pub fn with_ordering(array_ordering: ArrayOrdering) -> (r: Context)
        ensures
            r.spec_path() == Seq::<SegmentV>::empty(),
            r.spec_ordering() == array_ordering,
    {
        Context { path: Path::new(), array_ordering }
    }

    /// The context one step further down.
    pub fn for_key(&self, key: Segment) -> (r: Context)
        ensures
            r.spec_path() == self.spec_path().push(key@),
            r.spec_ordering() == self.spec_ordering(),
    {
        Context { path: self.path.push(key), array_ordering: self.array_ordering }
    }

    /// How this context pairs sequence elements.
    pub closed spec fn spec_ordering(&self) -> ArrayOrdering {
        self.array_ordering
    }

    /// The path of this context, as a sequence of steps.
    pub closed spec fn spec_path(&self) -> Seq<SegmentV> {
        self.path@
    }

    /// The path of this context.
    pub fn path(&self) -> (r: &Path)
        ensures
            r@ == self.spec_path(),
    {
        &self.path
    }
}

/// A value that was added or removed: an entry of a mapping, with its key,
/// or an element of a sequence, with its index.
#[derive(Debug)]
pub enum Item {
    KV { key: String, key_span: Span, value: Node },
    ArrayElement { index: usize, value: Node },
}

pub ghost enum ItemV {
    KV(Seq<char>, Span, NodeV),
    ArrayElement(usize, NodeV),
}

impl View for Item {
    type V = ItemV;

    open spec fn view(&self) -> ItemV {
        match self {
            Item::KV { key, key_span, value } => ItemV::KV(key@, *key_span, value@),
            Item::ArrayElement { index, value } => ItemV::ArrayElement(*index, value@),
        }
    }
}

/// The number of lines an item takes in its document: from the line of its
/// key (or of the element itself) to the line where its value ends, and at
/// least one.
pub open spec fn item_height(i: ItemV) -> int {
    let (start, end) = match i {
        ItemV::KV(_, ks, v) => (ks.start.line as int, v.span.end.line as int),
        ItemV::ArrayElement(_, v) => (v.span.start.line as int, v.span.end.line as int),
    };
    if end - start >= 1 {
        end - start
    } else {
        1
    }
}

impl Item {
    /// How many lines the item takes.
    pub fn height(&self) -> (r: usize)
        ensures
            r == item_height(self@),
    {
        let (start, end) = match self {
            Item::KV { key_span, value, .. } => (key_span.start.line, value.span.end.line),
            Item::ArrayElement { value, .. } => (value.span.start.line, value.span.end.line),
        };
        if end > start && end - start >= 1 {
            end - start
        } else {
            1
        }
    }

    /// The value of the item.
    pub fn value(&self) -> (r: &Node)
        ensures
            r@ == match self@ {
                ItemV::KV(_, _, v) => v,
                ItemV::ArrayElement(_, v) => v,
            },
    {
        match self {
            Item::KV { value, .. } => value,
            Item::ArrayElement { value, .. } => value,
        }
    }

    /// A copy of the item.
    pub fn copy(&self) -> (r: Item)
        ensures
            r@ == self@,
    {
        match self {
            Item::KV { key, key_span, value } => Item::KV {
                key: key.clone(),
                key_span: *key_span,
                value: copy_node(value),
            },
            Item::ArrayElement { index, value } => Item::ArrayElement {
                index: *index,
                value: copy_node(value),
            },
        }
    }
}

/// One difference between two values.
#[derive(Debug)]
pub enum Difference {
    /// A value on the right that the left lacks.
    Added { path: Path, value: Item },
    /// A value on the left that the right lacks.
    Removed { path: Path, value: Item },
    /// A value that differs on the two sides.
    Changed { path: Path, left: Node, right: Node },
    /// An element of a sequence that stands at another index on the right.
    Moved { original_path: Path, new_path: Path },
}

pub ghost enum DifferenceV {
    Added(Seq<SegmentV>, ItemV),
    Removed(Seq<SegmentV>, ItemV),
    Changed(Seq<SegmentV>, NodeV, NodeV),
    Moved(Seq<SegmentV>, Seq<SegmentV>),
}

impl View for Difference {
    type V = DifferenceV;

    open spec fn view(&self) -> DifferenceV {
        match self {
            Difference::Added { path, value } => DifferenceV::Added(path@, value@),
            Difference::Removed { path, value } => DifferenceV::Removed(path@, value@),
            Difference::Changed { path, left, right } => DifferenceV::Changed(path@, left@, right@),
            Difference::Moved { original_path, new_path } => DifferenceV::Moved(original_path@, new_path@),
        }
    }
}

pub open spec fn difference_path(d: DifferenceV) -> Seq<SegmentV> {
    match d {
        DifferenceV::Added(p, _) => p,
        DifferenceV::Removed(p, _) => p,
        DifferenceV::Changed(p, _, _) => p,
        DifferenceV::Moved(p, _) => p,
    }
}

impl Difference {
    /// Where the difference is; for a moved element, where it was.
    pub fn path(&self) -> (r: &Path)
        ensures
            r@ == difference_path(self@),
    {
        match self {
            Difference::Added { path, .. } => path,
            Difference::Removed { path, .. } => path,
            Difference::Changed { path, .. } => path,
            Difference::Moved { original_path, .. } => original_path,
        }
    }

    /// A copy of the difference.
    pub fn copy(&self) -> (r: Difference)
        ensures
            r@ == self@,
    {
        match self {
            Difference::Added { path, value } => Difference::Added { path: path.copy(), value: value.copy() },
            Difference::Removed { path, value } => Difference::Removed { path: path.copy(), value: value.copy() },
            Difference::Changed { path, left, right } => Difference::Changed {
                path: path.copy(),
                left: copy_node(left),
                right: copy_node(right),
            },
            Difference::Moved { original_path, new_path } => Difference::Moved {
                original_path: original_path.copy(),
                new_path: new_path.copy(),
            },
        }
    }
}

pub open spec fn diffs_view(s: Seq<Difference>) -> Seq<DifferenceV> {
    s.map_values(|d: Difference| d@)
}

// ---------------------------------------------------------------------------
// What the difference is
// ---------------------------------------------------------------------------

/// The first index below `n` of an entry with key `k`.
pub open spec fn first_key(es: Seq<EntryV>, k: Seq<char>, n: int) -> Option<int>
    decreases n,
{
    if n <= 0 || n > es.len() {
        None
    } else {
        match first_key(es, k, n - 1) {
            Some(x) => Some(x),
            None => if es[n - 1].key == k {
                Some(n - 1)
            } else {
                None
            },
        }
    }
}

pub open spec fn seg_field(k: Seq<char>) -> SegmentV {
    SegmentV::Field(k)
}

pub open spec fn seg_index(i: int) -> SegmentV {
    SegmentV::Index(i as usize)
}

/// The differences between two values at path `p`.
///
/// Two mappings differ entry by entry: first the keys of the left, in
/// order (each one once), then the keys only the right has, in order. Two
/// sequences are paired by index under [`ArrayOrdering::Fixed`], and by
/// similarity under [`ArrayOrdering::Dynamic`]. Any other two values differ
/// only where they are not the same value.
pub open spec fn diff_spec(p: Seq<SegmentV>, ord: ArrayOrdering, l: NodeV, r: NodeV) -> Seq<DifferenceV>
    decreases l, 0int, 0int,
{
    match l.data {
        DataV::Mapping(ls) => match r.data {
            DataV::Mapping(rs) => map_left(p, ord, ls, rs, ls.len() as int) + map_added(p, ls, rs, rs.len() as int),
            _ => other_diff(p, l, r),
        },
        DataV::Sequence(ls) => match r.data {
            DataV::Sequence(rs) => match ord {
                ArrayOrdering::Fixed => fixed_seq(
                    p,
                    ord,
                    ls,
                    rs,
                    if ls.len() >= rs.len() { ls.len() as int } else { rs.len() as int },
                ),
                ArrayOrdering::Dynamic => dynamic_result(p, ls, rs, dyn_matrix(p, ord, ls, rs, ls.len() as int)),
            },
            _ => other_diff(p, l, r),
        },
        _ => other_diff(p, l, r),
    }
}

/// Two values that are not both mappings nor both sequences.
pub open spec fn other_diff(p: Seq<SegmentV>, l: NodeV, r: NodeV) -> Seq<DifferenceV> {
    if same_data(l.data, r.data) {
        seq![]
    } else {
        seq![DifferenceV::Changed(p, l, r)]
    }
}

/// The differences for the first `n` entries of the left mapping.
pub open spec fn map_left(p: Seq<SegmentV>, ord: ArrayOrdering, ls: Seq<EntryV>, rs: Seq<EntryV>, n: int) -> Seq<DifferenceV>
    decreases ls, n, 0int,
{
    if n <= 0 || n > ls.len() {
        seq![]
    } else {
        let e = ls[n - 1];
        map_left(p, ord, ls, rs, n - 1) + if first_key(ls, e.key, n - 1) is Some {
            seq![]
        } else {
            match first_key(rs, e.key, rs.len() as int) {
                Some(j) => diff_spec(p.push(seg_field(e.key)), ord, e.value, rs[j].value),
                None => seq![DifferenceV::Removed(p.push(seg_field(e.key)), ItemV::KV(e.key, e.key_span, e.value))],
            }
        }
    }
}

/// The entries among the first `n` of the right mapping whose key the left
/// mapping lacks.
pub open spec fn map_added(p: Seq<SegmentV>, ls: Seq<EntryV>, rs: Seq<EntryV>, n: int) -> Seq<DifferenceV>
    decreases n,
{
    if n <= 0 || n > rs.len() {
        seq![]
    } else {
        let e = rs[n - 1];
        map_added(p, ls, rs, n - 1) + if first_key(rs, e.key, n - 1) is Some || first_key(ls, e.key, ls.len() as int) is Some {
            seq![]
        } else {
            seq![DifferenceV::Added(p.push(seg_field(e.key)), ItemV::KV(e.key, e.key_span, e.value))]
        }
    }
}

/// Sequences paired by index, for the indices below `n`.
pub open spec fn fixed_seq(p: Seq<SegmentV>, ord: ArrayOrdering, ls: Seq<NodeV>, rs: Seq<NodeV>, n: int) -> Seq<DifferenceV>
    decreases ls, n, 0int,
{
    if n <= 0 {
        seq![]
    } else {
        let i = n - 1;
        fixed_seq(p, ord, ls, rs, n - 1) + if i < ls.len() && i < rs.len() {
            diff_spec(p.push(seg_index(i)), ord, ls[i], rs[i])
        } else if i < ls.len() {
            seq![DifferenceV::Removed(p.push(seg_index(i)), ItemV::ArrayElement(i as usize, ls[i]))]
        } else if i < rs.len() {
            seq![DifferenceV::Added(p.push(seg_index(i)), ItemV::ArrayElement(i as usize, rs[i]))]
        } else {
            seq![]
        }
    }
}

/// The differences between each of the first `n` left elements and each
/// right element, the left element's index on the path.
pub open spec fn dyn_matrix(p: Seq<SegmentV>, ord: ArrayOrdering, ls: Seq<NodeV>, rs: Seq<NodeV>, n: int) -> Seq<Seq<Seq<DifferenceV>>>
    decreases ls, n, rs.len() + 1,
{
    if n <= 0 || n > ls.len() {
        seq![]
    } else {
        dyn_matrix(p, ord, ls, rs, n - 1).push(dyn_row(p, ord, ls, rs, n - 1, rs.len() as int))
    }
}

/// The differences between left element `l` and each of the first `m`
/// right elements.
pub open spec fn dyn_row(p: Seq<SegmentV>, ord: ArrayOrdering, ls: Seq<NodeV>, rs: Seq<NodeV>, l: int, m: int) -> Seq<Seq<DifferenceV>>
    decreases ls, l, m,
{
    if m <= 0 || m > rs.len() || l < 0 || l >= ls.len() {
        seq![]
    } else {
        dyn_row(p, ord, ls, rs, l, m - 1).push(diff_spec(p.push(seg_index(l)), ord, ls[l], rs[m - 1]))
    }
}

/// Among the first `k` columns of a row not yet used, the one with the
/// fewest differences; the first such on a tie.
pub open spec fn best_in(row: Seq<Seq<DifferenceV>>, used: Seq<bool>, k: int) -> Option<int>
    decreases k,
{
    if k <= 0 {
        None
    } else {
        let b = best_in(row, used, k - 1);
        let c = k - 1;
        if used[c] {
            b
        } else {
            match b {
                None => Some(c),
                Some(x) => if row[c].len() < row[x].len() {
                    Some(c)
                } else {
                    b
                },
            }
        }
    }
}

/// The columns chosen for the first `l` rows, one after another, and which
/// columns are used after them.
pub open spec fn assign(m: Seq<Seq<Seq<DifferenceV>>>, nr: int, l: int) -> (Seq<Option<int>>, Seq<bool>)
    decreases l,
{
    if l <= 0 {
        (seq![], Seq::new(nr as nat, |i: int| false))
    } else {
        let (cs, used) = assign(m, nr, l - 1);
        let b = best_in(m[l - 1], used, nr);
        (
            cs.push(b),
            match b {
                Some(c) => used.update(c, true),
                None => used,
            },
        )
    }
}

pub open spec fn removed_part(p: Seq<SegmentV>, ls: Seq<NodeV>, cs: Seq<Option<int>>, l: int) -> Seq<DifferenceV>
    decreases l,
{
    if l <= 0 {
        seq![]
    } else {
        removed_part(p, ls, cs, l - 1) + if cs[l - 1] is None {
            seq![DifferenceV::Removed(p.push(seg_index(l - 1)), ItemV::ArrayElement((l - 1) as usize, ls[l - 1]))]
        } else {
            seq![]
        }
    }
}

pub open spec fn added_part(p: Seq<SegmentV>, rs: Seq<NodeV>, used: Seq<bool>, k: int) -> Seq<DifferenceV>
    decreases k,
{
    if k <= 0 {
        seq![]
    } else {
        added_part(p, rs, used, k - 1) + if !used[k - 1] {
            seq![DifferenceV::Added(p.push(seg_index(k - 1)), ItemV::ArrayElement((k - 1) as usize, rs[k - 1]))]
        } else {
            seq![]
        }
    }
}

pub open spec fn moved_part(p: Seq<SegmentV>, m: Seq<Seq<Seq<DifferenceV>>>, cs: Seq<Option<int>>, l: int) -> Seq<DifferenceV>
    decreases l,
{
    if l <= 0 {
        seq![]
    } else {
        moved_part(p, m, cs, l - 1) + match cs[l - 1] {
            Some(c) => if m[l - 1][c].len() == 0 && c != l - 1 {
                seq![DifferenceV::Moved(p.push(seg_index(l - 1)), p.push(seg_index(c)))]
            } else {
                seq![]
            },
            None => seq![],
        }
    }
}

pub open spec fn changed_part(m: Seq<Seq<Seq<DifferenceV>>>, cs: Seq<Option<int>>, l: int) -> Seq<DifferenceV>
    decreases l,
{
    if l <= 0 {
        seq![]
    } else {
        changed_part(m, cs, l - 1) + match cs[l - 1] {
            Some(c) => if m[l - 1][c].len() > 0 {
                m[l - 1][c]
            } else {
                seq![]
            },
            None => seq![],
        }
    }
}

/// Sequences paired by similarity: left elements left without a partner
/// are removed, right elements left without one are added, an element paired with an equal one elsewhere
/// has moved, and the differences of each other pair follow.
pub open spec fn dynamic_result(p: Seq<SegmentV>, ls: Seq<NodeV>, rs: Seq<NodeV>, m: Seq<Seq<Seq<DifferenceV>>>) -> Seq<DifferenceV> {
    let (cs, used) = assign(m, rs.len() as int, ls.len() as int);
    removed_part(p, ls, cs, ls.len() as int) + added_part(p, rs, used, rs.len() as int) + moved_part(p, m, cs, ls.len() as int)
        + changed_part(m, cs, ls.len() as int)
}

// ---------------------------------------------------------------------------
// Computing it
// ---------------------------------------------------------------------------

pub proof fn lemma_first_key_stable(es: Seq<EntryV>, k: Seq<char>, m: int, n: int)
    requires
        0 <= m <= n <= es.len(),
        first_key(es, k, m) is Some,
    ensures
        first_key(es, k, n) == first_key(es, k, m),
    decreases n - m,
{
    if n > m {
        lemma_first_key_stable(es, k, m, n - 1);
    }
}

/// The first index below `n` of an entry of `es` with key `k`.
pub(crate) fn find_key(es: &Vec<Entry>, k: &str, n: usize) -> (r: Option<usize>)
    requires
        n <= es@.len(),
    ensures
        match r {
            Some(x) => first_key(entries_view(es@), k@, n as int) == Some(x as int) && x < n,
            None => first_key(entries_view(es@), k@, n as int) is None,
        },
{
    let ghost ev = entries_view(es@);
    proof {
        lemma_entries_view(es@);
    }
    let mut i: usize = 0;
    while i < n
        invariant
            i <= n <= es@.len(),
            ev == entries_view(es@),
            ev.len() == es@.len(),
            forall|j: int| 0 <= j < es@.len() ==> (#[trigger] ev[j]).key == es@[j].key@,
            first_key(ev, k@, i as int) is None,
        decreases n - i,
    {
        if str_eq(es[i].key.as_str(), k) {
            assert(first_key(ev, k@, i + 1) == Some(i as int));
            proof {
                lemma_first_key_stable(ev, k@, i + 1, n as int);
            }
            return Some(i);
        }
        i = i + 1;
    }
    None
}

fn copy_diffs(v: &Vec<Difference>) -> (r: Vec<Difference>)
    ensures
        diffs_view(r@) == diffs_view(v@),
{
    let mut r: Vec<Difference> = Vec::new();
    let mut i: usize = 0;
    while i < v.len()
        invariant
            i <= v@.len(),
            r@.len() == i,
            forall|k: int| 0 <= k < i ==> (#[trigger] r@[k])@ == v@[k]@,
        decreases v.len() - i,
    {
        r.push(v[i].copy());
        i = i + 1;
    }
    assert(diffs_view(r@) =~= diffs_view(v@));
    r
}

/// Appends `more` to `out`.
fn append_diffs(out: &mut Vec<Difference>, more: Vec<Difference>)
    ensures
        diffs_view(final(out)@) == diffs_view(old(out)@) + diffs_view(more@),
{
    let mut more = more;
    let ghost before = out@;
    let ghost m = more@;
    out.append(&mut more);
    assert(diffs_view(out@) =~= diffs_view(before) + diffs_view(m));
}

/// Appends one difference to `out`.
fn push_diff(out: &mut Vec<Difference>, d: Difference)
    ensures
        diffs_view(final(out)@) == diffs_view(old(out)@).push(d@),
{
    let ghost before = out@;
    out.push(d);
    assert(diffs_view(out@) =~= diffs_view(before).push(d@));
}

/// The differences between two values, under a context.
///
/// Mappings are compared key by key and sequences element by element, as
/// [`diff_spec`] states; two other values differ where they are not the
/// same value, wherever they stand in their documents.
pub fn diff(ctx: Context, left: &Node, right: &Node) -> (r: Vec<Difference>)
    ensures
        diffs_view(r@) == diff_spec(ctx.spec_path(), ctx.spec_ordering(), left@, right@),
    decreases left, 1int,
{
    proof {
        lemma_view_unfold(*left);
        lemma_view_unfold(*right);
    }
    match (&left.data, &right.data) {
        (YamlData::Mapping(ls), YamlData::Mapping(rs)) => {
            proof {
                lemma_entries_view(ls@);
                lemma_entries_view(rs@);
            }
            diff_mappings(&ctx, left, ls, rs)
        },
        (YamlData::Sequence(ls), YamlData::Sequence(rs)) => {
            proof {
                lemma_nodes_view(ls@);
                lemma_nodes_view(rs@);
            }
            match ctx.array_ordering {
                ArrayOrdering::Fixed => diff_fixed(&ctx, left, ls, rs),
                ArrayOrdering::Dynamic => diff_dynamic(&ctx, left, ls, rs),
            }
        },
        _ => {
            proof {
                assert(!(left@.data is Mapping && right@.data is Mapping));
                assert(!(left@.data is Sequence && right@.data is Sequence));
            }
            if values_equal(left, right) {
                Vec::new()
            } else {
                let mut out: Vec<Difference> = Vec::new();
                push_diff(&mut out, Difference::Changed {
                    path: ctx.path.copy(),
                    left: copy_node(left),
                    right: copy_node(right),
                });
                out
            }
        },
    }
}

fn diff_mappings(ctx: &Context, left: &Node, ls: &Vec<Entry>, rs: &Vec<Entry>) -> (r: Vec<Difference>)
    requires
        left.data == YamlData::Mapping(*ls),
    ensures
        diffs_view(r@) == map_left(ctx.spec_path(), ctx.spec_ordering(), entries_view(ls@), entries_view(rs@), ls@.len() as int)
            + map_added(ctx.spec_path(), entries_view(ls@), entries_view(rs@), rs@.len() as int),
    decreases left, 0int,
{
    let ghost p = ctx.spec_path();
    let ghost ord = ctx.spec_ordering();
    let ghost lv = entries_view(ls@);
    let ghost rv = entries_view(rs@);
    proof {
        lemma_entries_view(ls@);
        lemma_entries_view(rs@);
    }
    let mut out: Vec<Difference> = Vec::new();
    let mut i: usize = 0;
    while i < ls.len()
        invariant
            i <= ls@.len(),
            left.data == YamlData::Mapping(*ls),
            p == ctx.spec_path(),
            ord == ctx.spec_ordering(),
            lv == entries_view(ls@),
            rv == entries_view(rs@),
            lv.len() == ls@.len(),
            rv.len() == rs@.len(),
            forall|k: int| 0 <= k < ls@.len() ==> #[trigger] lv[k] == (EntryV {
                key: ls@[k].key@,
                key_span: ls@[k].key_span,
                value: ls@[k].value@,
            }),
            forall|k: int| 0 <= k < rs@.len() ==> #[trigger] rv[k] == (EntryV {
                key: rs@[k].key@,
                key_span: rs@[k].key_span,
                value: rs@[k].value@,
            }),
            diffs_view(out@) == map_left(p, ord, lv, rv, i as int),
        decreases ls.len() - i,
    {
        let key = ls[i].key.as_str();
        let dup = find_key(ls, key, i);
        let ghost before = diffs_view(out@);
        let ghost e = lv[i as int];
        assert(e.key == key@);
        assert(map_left(p, ord, lv, rv, i + 1) == before + if first_key(lv, e.key, i as int) is Some {
            Seq::<DifferenceV>::empty()
        } else {
            match first_key(rv, e.key, rv.len() as int) {
                Some(j) => diff_spec(p.push(seg_field(e.key)), ord, e.value, rv[j].value),
                None => seq![DifferenceV::Removed(p.push(seg_field(e.key)), ItemV::KV(e.key, e.key_span, e.value))],
            }
        });
        if dup.is_none() {
            match find_key(rs, key, rs.len()) {
                Some(j) => {
                    assert(rv[j as int].value == rs@[j as int].value@);
                    proof {
                        assert(decreases_to!(*left => left.data));
                        assert(decreases_to!(left.data => left.data->Mapping_0));
                        assert(decreases_to!(*ls => ls@));
                        assert(decreases_to!(ls@ => ls@[i as int]));
                        assert(decreases_to!(ls@[i as int] => ls@[i as int].value));
                    }
                    let sub = diff(ctx.for_key(Segment::field(key)), &ls[i].value, &rs[j].value);
                    append_diffs(&mut out, sub);
                },
                None => {
                    let d = Difference::Removed {
                        path: ctx.path.push(Segment::field(key)),
                        value: Item::KV {
                            key: ls[i].key.clone(),
                            key_span: ls[i].key_span,
                            value: copy_node(&ls[i].value),
                        },
                    };
                    push_diff(&mut out, d);
                },
            }
        }
        assert(diffs_view(out@) =~= map_left(p, ord, lv, rv, i + 1));
        i = i + 1;
    }
    let mut j: usize = 0;
    while j < rs.len()
        invariant
            j <= rs@.len(),
            p == ctx.spec_path(),
            lv == entries_view(ls@),
            rv == entries_view(rs@),
            lv.len() == ls@.len(),
            rv.len() == rs@.len(),
            forall|k: int| 0 <= k < rs@.len() ==> #[trigger] rv[k] == (EntryV {
                key: rs@[k].key@,
                key_span: rs@[k].key_span,
                value: rs@[k].value@,
            }),
            diffs_view(out@) == map_left(p, ord, lv, rv, ls@.len() as int) + map_added(p, lv, rv, j as int),
        decreases rs.len() - j,
    {
        let key = rs[j].key.as_str();
        let dup = find_key(rs, key, j);
        let on_left = find_key(ls, key, ls.len());
        let ghost before = diffs_view(out@);
        if dup.is_none() && on_left.is_none() {
            let d = Difference::Added {
                path: ctx.path.push(Segment::field(key)),
                value: Item::KV { key: rs[j].key.clone(), key_span: rs[j].key_span, value: copy_node(&rs[j].value) },
            };
            push_diff(&mut out, d);
        }
        proof {
            assert(rv[j as int].key == key@);
            assert(diffs_view(out@) =~= map_left(p, ord, lv, rv, ls@.len() as int) + map_added(p, lv, rv, j + 1));
        }
        j = j + 1;
    }
    out
}

fn diff_fixed(ctx: &Context, left: &Node, ls: &Vec<Node>, rs: &Vec<Node>) -> (r: Vec<Difference>)
    requires
        left.data == YamlData::Sequence(*ls),
        ctx.spec_ordering() == ArrayOrdering::Fixed,
    ensures
        diffs_view(r@) == fixed_seq(
            ctx.spec_path(),
            ctx.spec_ordering(),
            nodes_view(ls@),
            nodes_view(rs@),
            if ls@.len() >= rs@.len() { ls@.len() as int } else { rs@.len() as int },
        ),
    decreases left, 0int,
{
    let ghost p = ctx.spec_path();
    let ghost ord = ctx.spec_ordering();
    let ghost lv = nodes_view(ls@);
    let ghost rv = nodes_view(rs@);
    proof {
        lemma_nodes_view(ls@);
        lemma_nodes_view(rs@);
    }
    let n = if ls.len() >= rs.len() { ls.len() } else { rs.len() };
    let mut out: Vec<Difference> = Vec::new();
    let mut idx: usize = 0;
    while idx < n
        invariant
            idx <= n,
            n == (if ls@.len() >= rs@.len() { ls@.len() } else { rs@.len() }),
            left.data == YamlData::Sequence(*ls),
            p == ctx.spec_path(),
            ord == ctx.spec_ordering(),
            lv == nodes_view(ls@),
            rv == nodes_view(rs@),
            lv.len() == ls@.len(),
            rv.len() == rs@.len(),
            forall|k: int| 0 <= k < ls@.len() ==> #[trigger] lv[k] == ls@[k]@,
            forall|k: int| 0 <= k < rs@.len() ==> #[trigger] rv[k] == rs@[k]@,
            diffs_view(out@) == fixed_seq(p, ord, lv, rv, idx as int),
        decreases n - idx,
    {
        if idx < ls.len() && idx < rs.len() {
            proof {
                assert(decreases_to!(*left => left.data));
                assert(decreases_to!(left.data => left.data->Sequence_0));
                assert(decreases_to!(*ls => ls@));
                assert(decreases_to!(ls@ => ls@[idx as int]));
            }
            let sub = diff(ctx.for_key(Segment::index(idx)), &ls[idx], &rs[idx]);
            append_diffs(&mut out, sub);
        } else if idx < ls.len() {
            let d = Difference::Removed {
                path: ctx.path.push(Segment::index(idx)),
                value: Item::ArrayElement { index: idx, value: copy_node(&ls[idx]) },
            };
            push_diff(&mut out, d);
        } else {
            let d = Difference::Added {
                path: ctx.path.push(Segment::index(idx)),
                value: Item::ArrayElement { index: idx, value: copy_node(&rs[idx]) },
            };
            push_diff(&mut out, d);
        }
        proof {
            assert(seg_index(idx as int) == SegmentV::Index(idx));
            assert(diffs_view(out@) =~= fixed_seq(p, ord, lv, rv, idx + 1));
        }
        idx = idx + 1;
    }
    out
}

pub open spec fn row_view(row: Seq<Vec<Difference>>) -> Seq<Seq<DifferenceV>> {
    row.map_values(|c: Vec<Difference>| diffs_view(c@))
}

pub open spec fn matrix_view(m: Seq<Vec<Vec<Difference>>>) -> Seq<Seq<Seq<DifferenceV>>> {
    m.map_values(|row: Vec<Vec<Difference>>| row_view(row@))
}

pub open spec fn opt_view(s: Seq<Option<usize>>) -> Seq<Option<int>> {
    s.map_values(
        |o: Option<usize>|
            match o {
                Some(x) => Some(x as int),
                None => None,
            },
    )
}

/// Pairs each row of the matrix, in order, with the unused column that
/// holds the fewest differences (the first such on a tie). Returns the
/// column chosen for each row, if any was left, and which columns were used.
fn minimize_differences(matrix: &Vec<Vec<Vec<Difference>>>, nr: usize) -> (r: (Vec<Option<usize>>, Vec<bool>))
    requires
        forall|k: int| 0 <= k < matrix@.len() ==> (#[trigger] matrix@[k])@.len() == nr,
    ensures
        assign(matrix_view(matrix@), nr as int, matrix@.len() as int) == (opt_view(r.0@), r.1@),
        r.0@.len() == matrix@.len(),
        r.1@.len() == nr,
        forall|k: int| 0 <= k < r.0@.len() ==> (#[trigger] r.0@[k] matches Some(c) ==> c < nr),
{
    let ghost m = matrix_view(matrix@);
    let mut used: Vec<bool> = Vec::new();
    let mut c: usize = 0;
    while c < nr
        invariant
            c <= nr,
            used@ == Seq::new(c as nat, |i: int| false),
        decreases nr - c,
    {
        used.push(false);
        c = c + 1;
        assert(used@ =~= Seq::new(c as nat, |i: int| false));
    }
    let mut choices: Vec<Option<usize>> = Vec::new();
    let mut l: usize = 0;
    assert(opt_view(choices@) =~= Seq::<Option<int>>::empty());
    while l < matrix.len()
        invariant
            l <= matrix@.len(),
            m == matrix_view(matrix@),
            forall|k: int| 0 <= k < matrix@.len() ==> (#[trigger] matrix@[k])@.len() == nr,
            assign(m, nr as int, l as int) == (opt_view(choices@), used@),
            choices@.len() == l,
            used@.len() == nr,
            forall|k: int| 0 <= k < choices@.len() ==> (#[trigger] choices@[k] matches Some(c) ==> c < nr),
        decreases matrix.len() - l,
    {
        let row = &matrix[l];
        let ghost rv = m[l as int];
        assert(rv == row_view(row@));
        let mut best: Option<usize> = None;
        let mut k: usize = 0;
        while k < nr
            invariant
                k <= nr,
                row@.len() == nr,
                used@.len() == nr,
                rv == row_view(row@),
                match best {
                    Some(x) => best_in(rv, used@, k as int) == Some(x as int) && x < k,
                    None => best_in(rv, used@, k as int) is None,
                },
            decreases nr - k,
        {
            if !used[k] {
                match best {
                    None => {
                        best = Some(k);
                    },
                    Some(x) => {
                        assert(rv[k as int].len() == row@[k as int]@.len());
                        assert(rv[x as int].len() == row@[x as int]@.len());
                        if row[k].len() < row[x].len() {
                            best = Some(k);
                        }
                    },
                }
            }
            k = k + 1;
        }
        let ghost before_used = used@;
        let ghost before_choices = choices@;
        choices.push(best);
        match best {
            Some(x) => {
                used.set(x, true);
            },
            None => {},
        }
        proof {
            assert(opt_view(choices@) =~= opt_view(before_choices).push(
                match best {
                    Some(x) => Some(x as int),
                    None => None,
                },
            ));
        }
        l = l + 1;
    }
    (choices, used)
}

fn diff_dynamic(ctx: &Context, left: &Node, ls: &Vec<Node>, rs: &Vec<Node>) -> (r: Vec<Difference>)
    requires
        left.data == YamlData::Sequence(*ls),
    ensures
        diffs_view(r@) == dynamic_result(
            ctx.spec_path(),
            nodes_view(ls@),
            nodes_view(rs@),
            dyn_matrix(ctx.spec_path(), ctx.spec_ordering(), nodes_view(ls@), nodes_view(rs@), ls@.len() as int),
        ),
    decreases left, 0int,
{
    let ghost p = ctx.spec_path();
    let ghost ord = ctx.spec_ordering();
    let ghost lv = nodes_view(ls@);
    let ghost rv = nodes_view(rs@);
    proof {
        lemma_nodes_view(ls@);
        lemma_nodes_view(rs@);
    }
    let nl = ls.len();
    let nr = rs.len();
    let mut matrix: Vec<Vec<Vec<Difference>>> = Vec::new();
    let mut l: usize = 0;
    assert(matrix_view(matrix@) =~= dyn_matrix(p, ord, lv, rv, 0));
    while l < nl
        invariant
            l <= nl,
            nl == ls@.len(),
            nr == rs@.len(),
            left.data == YamlData::Sequence(*ls),
            p == ctx.spec_path(),
            ord == ctx.spec_ordering(),
            lv == nodes_view(ls@),
            rv == nodes_view(rs@),
            lv.len() == ls@.len(),
            rv.len() == rs@.len(),
            forall|k: int| 0 <= k < ls@.len() ==> #[trigger] lv[k] == ls@[k]@,
            forall|k: int| 0 <= k < rs@.len() ==> #[trigger] rv[k] == rs@[k]@,
            matrix@.len() == l,
            forall|k: int| 0 <= k < matrix@.len() ==> (#[trigger] matrix@[k])@.len() == nr,
            matrix_view(matrix@) == dyn_matrix(p, ord, lv, rv, l as int),
        decreases nl - l,
    {
        let mut row: Vec<Vec<Difference>> = Vec::new();
        let mut c: usize = 0;
        assert(row_view(row@) =~= dyn_row(p, ord, lv, rv, l as int, 0));
        while c < nr
            invariant
                c <= nr,
                l < nl,
                nl == ls@.len(),
                nr == rs@.len(),
                left.data == YamlData::Sequence(*ls),
                p == ctx.spec_path(),
                ord == ctx.spec_ordering(),
                lv == nodes_view(ls@),
                rv == nodes_view(rs@),
                lv.len() == ls@.len(),
                rv.len() == rs@.len(),
                forall|k: int| 0 <= k < ls@.len() ==> #[trigger] lv[k] == ls@[k]@,
                forall|k: int| 0 <= k < rs@.len() ==> #[trigger] rv[k] == rs@[k]@,
                row@.len() == c,
                row_view(row@) == dyn_row(p, ord, lv, rv, l as int, c as int),
            decreases nr - c,
        {
            proof {
                assert(decreases_to!(*left => left.data));
                assert(decreases_to!(left.data => left.data->Sequence_0));
                assert(decreases_to!(*ls => ls@));
                assert(decreases_to!(ls@ => ls@[l as int]));
            }
            let d = diff(ctx.for_key(Segment::index(l)), &ls[l], &rs[c]);
            let ghost before = row@;
            row.push(d);
            proof {
                assert(seg_index(l as int) == SegmentV::Index(l));
                assert(row_view(row@) =~= row_view(before).push(diffs_view(d@)));
            }
            c = c + 1;
        }
        let ghost before = matrix@;
        matrix.push(row);
        assert(matrix_view(matrix@) =~= matrix_view(before).push(row_view(row@)));
        l = l + 1;
    }
    let ghost m = matrix_view(matrix@);
    let (choices, used) = minimize_differences(&matrix, nr);
    let ghost cs = opt_view(choices@);
    let ghost usedv = used@;
    proof {
        assert(assign(m, nr as int, nl as int) == (cs, usedv));
    }
    let mut out: Vec<Difference> = Vec::new();
    // Left elements without a partner.
    let mut i: usize = 0;
    while i < nl
        invariant
            i <= nl,
            nl == ls@.len(),
            p == ctx.spec_path(),
            lv == nodes_view(ls@),
            lv.len() == ls@.len(),
            forall|k: int| 0 <= k < ls@.len() ==> #[trigger] lv[k] == ls@[k]@,
            choices@.len() == nl,
            cs == opt_view(choices@),
            diffs_view(out@) == removed_part(p, lv, cs, i as int),
        decreases nl - i,
    {
        if choices[i].is_none() {
            push_diff(&mut out, Difference::Removed {
                path: ctx.path.push(Segment::index(i)),
                value: Item::ArrayElement { index: i, value: copy_node(&ls[i]) },
            });
        }
        assert(seg_index(i as int) == SegmentV::Index(i));
        assert(diffs_view(out@) =~= removed_part(p, lv, cs, i + 1));
        i = i + 1;
    }
    let ghost part1 = diffs_view(out@);
    // Right elements without a partner.
    let width = nr;
    let mut k: usize = 0;
    while k < width
        invariant
            k <= width,
            width <= nr,
            nr == rs@.len(),
            width == nr,
            p == ctx.spec_path(),
            rv == nodes_view(rs@),
            rv.len() == rs@.len(),
            forall|j: int| 0 <= j < rs@.len() ==> #[trigger] rv[j] == rs@[j]@,
            used@.len() == nr,
            usedv == used@,
            diffs_view(out@) == part1 + added_part(p, rv, usedv, k as int),
        decreases width - k,
    {
        if !used[k] {
            push_diff(&mut out, Difference::Added {
                path: ctx.path.push(Segment::index(k)),
                value: Item::ArrayElement { index: k, value: copy_node(&rs[k]) },
            });
        }
        assert(seg_index(k as int) == SegmentV::Index(k));
        assert(diffs_view(out@) =~= part1 + added_part(p, rv, usedv, k + 1));
        k = k + 1;
    }
    let ghost part2 = diffs_view(out@);
    // Pairs of equal elements that stand at different indices.
    let mut i: usize = 0;
    while i < nl
        invariant
            i <= nl,
            nl == matrix@.len(),
            p == ctx.spec_path(),
            m == matrix_view(matrix@),
            forall|j: int| 0 <= j < matrix@.len() ==> (#[trigger] matrix@[j])@.len() == nr,
            choices@.len() == nl,
            cs == opt_view(choices@),
            forall|j: int| 0 <= j < choices@.len() ==> (#[trigger] choices@[j] matches Some(c) ==> c < nr),
            diffs_view(out@) == part2 + moved_part(p, m, cs, i as int),
        decreases nl - i,
    {
        match choices[i] {
            Some(c) => {
                assert(m[i as int][c as int].len() == matrix@[i as int]@[c as int]@.len());
                if matrix[i][c].len() == 0 && c != i {
                    push_diff(&mut out, Difference::Moved {
                        original_path: ctx.path.push(Segment::index(i)),
                        new_path: ctx.path.push(Segment::index(c)),
                    });
                }
                assert(seg_index(c as int) == SegmentV::Index(c));
            },
            None => {},
        }
        assert(seg_index(i as int) == SegmentV::Index(i));
        assert(diffs_view(out@) =~= part2 + moved_part(p, m, cs, i + 1));
        i = i + 1;
    }
    let ghost part3 = diffs_view(out@);
    // The differences within the other pairs.
    let mut i: usize = 0;
    while i < nl
        invariant
            i <= nl,
            nl == matrix@.len(),
            m == matrix_view(matrix@),
            forall|j: int| 0 <= j < matrix@.len() ==> (#[trigger] matrix@[j])@.len() == nr,
            choices@.len() == nl,
            cs == opt_view(choices@),
            forall|j: int| 0 <= j < choices@.len() ==> (#[trigger] choices@[j] matches Some(c) ==> c < nr),
            diffs_view(out@) == part3 + changed_part(m, cs, i as int),
        decreases nl - i,
    {
        match choices[i] {
            Some(c) => {
                assert(m[i as int][c as int] == diffs_view(matrix@[i as int]@[c as int]@));
                if matrix[i][c].len() > 0 {
                    let more = copy_diffs(&matrix[i][c]);
                    append_diffs(&mut out, more);
                }
            },
            None => {},
        }
        assert(diffs_view(out@) =~= part3 + changed_part(m, cs, i + 1));
        i = i + 1;
    }
    out
}

// ---------------------------------------------------------------------------
// A value does not differ from itself
// ---------------------------------------------------------------------------

/// A value compared with itself has no differences, whatever the path and
/// however sequences are paired.
pub proof fn lemma_diff_self(p: Seq<SegmentV>, ord: ArrayOrdering, v: NodeV)
    ensures
        diff_spec(p, ord, v, v) == Seq::<DifferenceV>::empty(),
    decreases v, 0int, 0int,
{
    match v.data {
        DataV::Mapping(ls) => {
            lemma_map_left_self(p, ord, ls, ls.len() as int);
            lemma_map_added_self(p, ls, ls.len() as int);
            assert(diff_spec(p, ord, v, v) =~= Seq::<DifferenceV>::empty());
        },
        DataV::Sequence(ls) => match ord {
            ArrayOrdering::Fixed => lemma_fixed_self(p, ord, ls, ls.len() as int),
            ArrayOrdering::Dynamic => lemma_dyn_self(p, ord, ls),
        },
        _ => lemma_same_data_refl(v.data),
    }
}

proof fn lemma_map_left_self(p: Seq<SegmentV>, ord: ArrayOrdering, ls: Seq<EntryV>, n: int)
    requires
        0 <= n <= ls.len(),
    ensures
        map_left(p, ord, ls, ls, n) == Seq::<DifferenceV>::empty(),
    decreases ls, n, 0int,
{
    if n > 0 {
        lemma_map_left_self(p, ord, ls, n - 1);
        let e = ls[n - 1];
        if first_key(ls, e.key, n - 1) is None {
            assert(first_key(ls, e.key, n) == Some(n - 1));
            lemma_first_key_stable(ls, e.key, n, ls.len() as int);
            lemma_diff_self(p.push(seg_field(e.key)), ord, e.value);
        }
        assert(map_left(p, ord, ls, ls, n) =~= Seq::<DifferenceV>::empty());
    }
}

proof fn lemma_map_added_self(p: Seq<SegmentV>, ls: Seq<EntryV>, n: int)
    requires
        0 <= n <= ls.len(),
    ensures
        map_added(p, ls, ls, n) == Seq::<DifferenceV>::empty(),
    decreases n,
{
    if n > 0 {
        lemma_map_added_self(p, ls, n - 1);
        let e = ls[n - 1];
        if first_key(ls, e.key, n - 1) is None {
            assert(first_key(ls, e.key, n) == Some(n - 1));
            lemma_first_key_stable(ls, e.key, n, ls.len() as int);
        }
        assert(map_added(p, ls, ls, n) =~= Seq::<DifferenceV>::empty());
    }
}

proof fn lemma_fixed_self(p: Seq<SegmentV>, ord: ArrayOrdering, ls: Seq<NodeV>, n: int)
    requires
        0 <= n <= ls.len(),
    ensures
        fixed_seq(p, ord, ls, ls, n) == Seq::<DifferenceV>::empty(),
    decreases ls, n, 0int,
{
    if n > 0 {
        lemma_fixed_self(p, ord, ls, n - 1);
        lemma_diff_self(p.push(seg_index(n - 1)), ord, ls[n - 1]);
        assert(fixed_seq(p, ord, ls, ls, n) =~= Seq::<DifferenceV>::empty());
    }
}

proof fn lemma_dyn_diag(p: Seq<SegmentV>, ord: ArrayOrdering, ls: Seq<NodeV>, n: int)
    requires
        0 <= n <= ls.len(),
    ensures
        forall|l: int| 0 <= l < n ==> #[trigger] diff_spec(p.push(seg_index(l)), ord, ls[l], ls[l]) == Seq::<DifferenceV>::empty(),
    decreases ls, n, 0int,
{
    if n > 0 {
        lemma_dyn_diag(p, ord, ls, n - 1);
        lemma_diff_self(p.push(seg_index(n - 1)), ord, ls[n - 1]);
    }
}

pub proof fn lemma_dyn_row_shape(p: Seq<SegmentV>, ord: ArrayOrdering, ls: Seq<NodeV>, rs: Seq<NodeV>, l: int, m: int)
    requires
        0 <= l < ls.len(),
        0 <= m <= rs.len(),
    ensures
        dyn_row(p, ord, ls, rs, l, m).len() == m,
        forall|c: int| 0 <= c < m ==> #[trigger] dyn_row(p, ord, ls, rs, l, m)[c] == diff_spec(p.push(seg_index(l)), ord, ls[l], rs[c]),
    decreases m,
{
    if m > 0 {
        lemma_dyn_row_shape(p, ord, ls, rs, l, m - 1);
    }
}

pub proof fn lemma_dyn_matrix_shape(p: Seq<SegmentV>, ord: ArrayOrdering, ls: Seq<NodeV>, rs: Seq<NodeV>, n: int)
    requires
        0 <= n <= ls.len(),
    ensures
        dyn_matrix(p, ord, ls, rs, n).len() == n,
        forall|l: int| 0 <= l < n ==> #[trigger] dyn_matrix(p, ord, ls, rs, n)[l] == dyn_row(p, ord, ls, rs, l, rs.len() as int),
    decreases n,
{
    if n > 0 {
        lemma_dyn_matrix_shape(p, ord, ls, rs, n - 1);
    }
}

/// With the first `l` columns used and an empty cell at column `l`, the
/// scan picks column `l` once it has passed it.
proof fn lemma_best_in_diag(row: Seq<Seq<DifferenceV>>, used: Seq<bool>, l: int, k: int)
    requires
        0 <= l < used.len(),
        0 <= k <= used.len(),
        row[l].len() == 0,
        forall|c: int| 0 <= c < used.len() ==> #[trigger] used[c] == (c < l),
    ensures
        best_in(row, used, k) == (if k <= l { None } else { Some(l) }),
    decreases k,
{
    if k > 0 {
        lemma_best_in_diag(row, used, l, k - 1);
    }
}

proof fn lemma_assign_diag(m: Seq<Seq<Seq<DifferenceV>>>, n: int, k: int)
    requires
        0 <= k <= n,
        m.len() == n,
        forall|l: int| 0 <= l < n ==> (#[trigger] m[l])[l].len() == 0,
    ensures
        assign(m, n, k).0 == Seq::new(k as nat, |i: int| Some(i)),
        assign(m, n, k).1 == Seq::new(n as nat, |i: int| i < k),
    decreases k,
{
    if k > 0 {
        lemma_assign_diag(m, n, k - 1);
        let used = Seq::new(n as nat, |i: int| i < k - 1);
        lemma_best_in_diag(m[k - 1], used, k - 1, n);
        assert(assign(m, n, k).0 =~= Seq::new(k as nat, |i: int| Some(i)));
        assert(assign(m, n, k).1 =~= Seq::new(n as nat, |i: int| i < k));
    } else {
        assert(assign(m, n, 0).1 =~= Seq::new(n as nat, |i: int| i < 0));
    }
}

proof fn lemma_parts_diag(p: Seq<SegmentV>, ls: Seq<NodeV>, m: Seq<Seq<Seq<DifferenceV>>>, n: int, k: int)
    requires
        0 <= k <= n,
        ls.len() == n,
        m.len() == n,
        forall|l: int| 0 <= l < n ==> (#[trigger] m[l])[l].len() == 0,
    ensures
        removed_part(p, ls, Seq::new(n as nat, |i: int| Some(i)), k) == Seq::<DifferenceV>::empty(),
        added_part(p, ls, Seq::new(n as nat, |i: int| i < n), k) == Seq::<DifferenceV>::empty(),
        moved_part(p, m, Seq::new(n as nat, |i: int| Some(i)), k) == Seq::<DifferenceV>::empty(),
        changed_part(m, Seq::new(n as nat, |i: int| Some(i)), k) == Seq::<DifferenceV>::empty(),
    decreases k,
{
    if k > 0 {
        lemma_parts_diag(p, ls, m, n, k - 1);
        let cs = Seq::new(n as nat, |i: int| Some(i));
        assert(cs[k - 1] == Some(k - 1));
        assert(m[k - 1][k - 1].len() == 0);
        assert(removed_part(p, ls, cs, k) =~= Seq::<DifferenceV>::empty());
        assert(added_part(p, ls, Seq::new(n as nat, |i: int| i < n), k) =~= Seq::<DifferenceV>::empty());
        assert(moved_part(p, m, cs, k) =~= Seq::<DifferenceV>::empty());
        assert(changed_part(m, cs, k) =~= Seq::<DifferenceV>::empty());
    }
}

proof fn lemma_dyn_self(p: Seq<SegmentV>, ord: ArrayOrdering, ls: Seq<NodeV>)
    ensures
        dynamic_result(p, ls, ls, dyn_matrix(p, ord, ls, ls, ls.len() as int)) == Seq::<DifferenceV>::empty(),
    decreases ls, ls.len() + 1, 0int,
{
    let n = ls.len() as int;
    lemma_dyn_diag(p, ord, ls, n);
    let m = dyn_matrix(p, ord, ls, ls, n);
    lemma_dyn_matrix_shape(p, ord, ls, ls, n);
    assert forall|l: int| 0 <= l < n implies (#[trigger] m[l])[l].len() == 0 by {
        lemma_dyn_row_shape(p, ord, ls, ls, l, n);
        assert(diff_spec(p.push(seg_index(l)), ord, ls[l], ls[l]) == Seq::<DifferenceV>::empty());
    }
    lemma_assign_diag(m, n, n);
    lemma_parts_diag(p, ls, m, n, n);
    let width: int = n;
    if n == 0 {
        assert(added_part(p, ls, assign(m, n, n).1, width) == Seq::<DifferenceV>::empty());
    }
    assert(dynamic_result(p, ls, ls, m) =~= Seq::<DifferenceV>::empty());
}

// ---------------------------------------------------------------------------
// Where the differences lie
// ---------------------------------------------------------------------------

/// `q` lies at or below `p`: it starts with the segments of `p`.
pub open spec fn below(p: Seq<SegmentV>, q: Seq<SegmentV>) -> bool {
    p.len() <= q.len() && forall|i: int| 0 <= i < p.len() ==> #[trigger] p[i] == q[i]
}

/// A difference found below `p`: its path lies below `p`; a moved element
/// has both its paths below `p`, and is reported only where sequences are
/// paired by similarity.
pub open spec fn diff_within(p: Seq<SegmentV>, ord: ArrayOrdering, d: DifferenceV) -> bool {
    &&& below(p, difference_path(d))
    &&& match d {
        DifferenceV::Moved(_, np) => below(p, np) && ord == ArrayOrdering::Dynamic,
        _ => true,
    }
}

pub open spec fn all_within(p: Seq<SegmentV>, ord: ArrayOrdering, ds: Seq<DifferenceV>) -> bool {
    forall|i: int| 0 <= i < ds.len() ==> diff_within(p, ord, #[trigger] ds[i])
}

proof fn lemma_within_concat(p: Seq<SegmentV>, ord: ArrayOrdering, a: Seq<DifferenceV>, b: Seq<DifferenceV>)
    requires
        all_within(p, ord, a),
        all_within(p, ord, b),
    ensures
        all_within(p, ord, a + b),
{
    assert forall|i: int| 0 <= i < (a + b).len() implies diff_within(p, ord, #[trigger] (a + b)[i]) by {
        if i < a.len() {
            assert((a + b)[i] == a[i]);
        } else {
            assert((a + b)[i] == b[i - a.len()]);
        }
    }
}

proof fn lemma_below_push(p: Seq<SegmentV>, s: SegmentV, q: Seq<SegmentV>)
    requires
        below(p.push(s), q),
    ensures
        below(p, q),
{
    assert forall|i: int| 0 <= i < p.len() implies #[trigger] p[i] == q[i] by {
        assert(p.push(s)[i] == p[i]);
    }
}

proof fn lemma_within_push(p: Seq<SegmentV>, s: SegmentV, ord: ArrayOrdering, ds: Seq<DifferenceV>)
    requires
        all_within(p.push(s), ord, ds),
    ensures
        all_within(p, ord, ds),
{
    assert forall|i: int| 0 <= i < ds.len() implies diff_within(p, ord, #[trigger] ds[i]) by {
        lemma_below_push(p, s, difference_path(ds[i]));
        if let DifferenceV::Moved(_, np) = ds[i] {
            lemma_below_push(p, s, np);
        }
    }
}

proof fn lemma_below_self_push(p: Seq<SegmentV>, s: SegmentV)
    ensures
        below(p, p.push(s)),
{
    assert forall|i: int| 0 <= i < p.len() implies #[trigger] p[i] == p.push(s)[i] by {}
}

/// Every difference between two values lies below the path they stand
/// at, and an element is reported as moved only where sequences are
/// paired by similarity.
pub proof fn lemma_diff_within(p: Seq<SegmentV>, ord: ArrayOrdering, l: NodeV, r: NodeV)
    ensures
        all_within(p, ord, diff_spec(p, ord, l, r)),
    decreases l, 0int, 0int,
{
    match l.data {
        DataV::Mapping(ls) => match r.data {
            DataV::Mapping(rs) => {
                lemma_map_left_within(p, ord, ls, rs, ls.len() as int);
                lemma_map_added_within(p, ord, ls, rs, rs.len() as int);
                lemma_within_concat(p, ord, map_left(p, ord, ls, rs, ls.len() as int), map_added(p, ls, rs, rs.len() as int));
            },
            _ => lemma_other_within(p, ord, l, r),
        },
        DataV::Sequence(ls) => match r.data {
            DataV::Sequence(rs) => match ord {
                ArrayOrdering::Fixed => lemma_fixed_within(
                    p,
                    ord,
                    ls,
                    rs,
                    if ls.len() >= rs.len() { ls.len() as int } else { rs.len() as int },
                ),
                ArrayOrdering::Dynamic => lemma_dynamic_within(p, ord, ls, rs),
            },
            _ => lemma_other_within(p, ord, l, r),
        },
        _ => lemma_other_within(p, ord, l, r),
    }
}

proof fn lemma_other_within(p: Seq<SegmentV>, ord: ArrayOrdering, l: NodeV, r: NodeV)
    ensures
        all_within(p, ord, other_diff(p, l, r)),
{
    assert forall|i: int| 0 <= i < p.len() implies #[trigger] p[i] == p[i] by {}
}

proof fn lemma_map_left_within(p: Seq<SegmentV>, ord: ArrayOrdering, ls: Seq<EntryV>, rs: Seq<EntryV>, n: int)
    ensures
        all_within(p, ord, map_left(p, ord, ls, rs, n)),
    decreases ls, n, 0int,
{
    if n > 0 && n <= ls.len() {
        lemma_map_left_within(p, ord, ls, rs, n - 1);
        let e = ls[n - 1];
        let tail = if first_key(ls, e.key, n - 1) is Some {
            seq![]
        } else {
            match first_key(rs, e.key, rs.len() as int) {
                Some(j) => diff_spec(p.push(seg_field(e.key)), ord, e.value, rs[j].value),
                None => seq![DifferenceV::Removed(p.push(seg_field(e.key)), ItemV::KV(e.key, e.key_span, e.value))],
            }
        };
        if first_key(ls, e.key, n - 1) is None {
            match first_key(rs, e.key, rs.len() as int) {
                Some(j) => {
                    lemma_diff_within(p.push(seg_field(e.key)), ord, e.value, rs[j].value);
                    lemma_within_push(p, seg_field(e.key), ord, tail);
                },
                None => {
                    lemma_below_self_push(p, seg_field(e.key));
                },
            }
        }
        lemma_within_concat(p, ord, map_left(p, ord, ls, rs, n - 1), tail);
    }
}

proof fn lemma_map_added_within(p: Seq<SegmentV>, ord: ArrayOrdering, ls: Seq<EntryV>, rs: Seq<EntryV>, n: int)
    ensures
        all_within(p, ord, map_added(p, ls, rs, n)),
    decreases n,
{
    if n > 0 && n <= rs.len() {
        lemma_map_added_within(p, ord, ls, rs, n - 1);
        let e = rs[n - 1];
        lemma_below_self_push(p, seg_field(e.key));
        let tail = if first_key(rs, e.key, n - 1) is Some || first_key(ls, e.key, ls.len() as int) is Some {
            seq![]
        } else {
            seq![DifferenceV::Added(p.push(seg_field(e.key)), ItemV::KV(e.key, e.key_span, e.value))]
        };
        lemma_within_concat(p, ord, map_added(p, ls, rs, n - 1), tail);
    }
}

proof fn lemma_fixed_within(p: Seq<SegmentV>, ord: ArrayOrdering, ls: Seq<NodeV>, rs: Seq<NodeV>, n: int)
    ensures
        all_within(p, ord, fixed_seq(p, ord, ls, rs, n)),
    decreases ls, n, 0int,
{
    if n > 0 {
        lemma_fixed_within(p, ord, ls, rs, n - 1);
        let i = n - 1;
        lemma_below_self_push(p, seg_index(i));
        let tail = if i < ls.len() && i < rs.len() {
            diff_spec(p.push(seg_index(i)), ord, ls[i], rs[i])
        } else if i < ls.len() {
            seq![DifferenceV::Removed(p.push(seg_index(i)), ItemV::ArrayElement(i as usize, ls[i]))]
        } else if i < rs.len() {
            seq![DifferenceV::Added(p.push(seg_index(i)), ItemV::ArrayElement(i as usize, rs[i]))]
        } else {
            seq![]
        };
        if i < ls.len() && i < rs.len() {
            lemma_diff_within(p.push(seg_index(i)), ord, ls[i], rs[i]);
            lemma_within_push(p, seg_index(i), ord, tail);
        }
        lemma_within_concat(p, ord, fixed_seq(p, ord, ls, rs, n - 1), tail);
    }
}

/// Every cell of the first `n` rows of the matrix lies below the path.
proof fn lemma_matrix_within(p: Seq<SegmentV>, ord: ArrayOrdering, ls: Seq<NodeV>, rs: Seq<NodeV>, n: int)
    requires
        0 <= n <= ls.len(),
    ensures
        forall|l: int, c: int|
            0 <= l < n && 0 <= c < rs.len() ==> all_within(p, ord, #[trigger] diff_spec(p.push(seg_index(l)), ord, ls[l], rs[c])),
    decreases ls, n, 0int,
{
    if n > 0 {
        lemma_matrix_within(p, ord, ls, rs, n - 1);
        lemma_row_within(p, ord, ls, rs, n - 1, rs.len() as int);
    }
}

proof fn lemma_row_within(p: Seq<SegmentV>, ord: ArrayOrdering, ls: Seq<NodeV>, rs: Seq<NodeV>, l: int, m: int)
    requires
        0 <= l < ls.len(),
        0 <= m <= rs.len(),
    ensures
        forall|c: int| 0 <= c < m ==> all_within(p, ord, #[trigger] diff_spec(p.push(seg_index(l)), ord, ls[l], rs[c])),
    decreases ls, l, m,
{
    if m > 0 {
        lemma_row_within(p, ord, ls, rs, l, m - 1);
        lemma_diff_within(p.push(seg_index(l)), ord, ls[l], rs[m - 1]);
        lemma_within_push(p, seg_index(l), ord, diff_spec(p.push(seg_index(l)), ord, ls[l], rs[m - 1]));
    }
}

proof fn lemma_best_in_bound(row: Seq<Seq<DifferenceV>>, used: Seq<bool>, k: int)
    ensures
        best_in(row, used, k) matches Some(x) ==> 0 <= x < k,
    decreases k,
{
    if k > 0 {
        lemma_best_in_bound(row, used, k - 1);
    }
}

proof fn lemma_assign_bound(m: Seq<Seq<Seq<DifferenceV>>>, nr: int, l: int)
    requires
        0 <= l,
    ensures
        assign(m, nr, l).0.len() == l,
        forall|i: int| 0 <= i < l ==> (#[trigger] assign(m, nr, l).0[i] matches Some(c) ==> 0 <= c < nr),
    decreases l,
{
    if l > 0 {
        lemma_assign_bound(m, nr, l - 1);
        let (cs, used) = assign(m, nr, l - 1);
        lemma_best_in_bound(m[l - 1], used, nr);
        assert forall|i: int| 0 <= i < l implies (#[trigger] assign(m, nr, l).0[i] matches Some(c) ==> 0 <= c < nr) by {
            if i < l - 1 {
                assert(assign(m, nr, l).0[i] == cs[i]);
            }
        }
    }
}

proof fn lemma_dynamic_within(p: Seq<SegmentV>, ord: ArrayOrdering, ls: Seq<NodeV>, rs: Seq<NodeV>)
    requires
        ord == ArrayOrdering::Dynamic,
    ensures
        all_within(p, ord, dynamic_result(p, ls, rs, dyn_matrix(p, ord, ls, rs, ls.len() as int))),
    decreases ls, ls.len() + 1, 0int,
{
    let m = dyn_matrix(p, ord, ls, rs, ls.len() as int);
    let (cs, used) = assign(m, rs.len() as int, ls.len() as int);
    let width: int = rs.len() as int;
    lemma_dyn_matrix_shape(p, ord, ls, rs, ls.len() as int);
    lemma_matrix_within(p, ord, ls, rs, ls.len() as int);
    lemma_assign_bound(m, rs.len() as int, ls.len() as int);
    lemma_removed_within(p, ord, ls, cs, ls.len() as int);
    lemma_added_within(p, ord, rs, used, width);
    lemma_moved_within(p, ord, m, cs, ls.len() as int);
    assert forall|l: int, c: int| 0 <= l < ls.len() && 0 <= c < rs.len() implies all_within(p, ord, #[trigger] m[l][c]) by {
        lemma_dyn_row_shape(p, ord, ls, rs, l, rs.len() as int);
        assert(m[l][c] == diff_spec(p.push(seg_index(l)), ord, ls[l], rs[c]));
    }
    lemma_changed_within(p, ord, m, cs, ls.len() as int, rs.len() as int);
    lemma_within_concat(p, ord, removed_part(p, ls, cs, ls.len() as int), added_part(p, rs, used, width));
    lemma_within_concat(
        p,
        ord,
        removed_part(p, ls, cs, ls.len() as int) + added_part(p, rs, used, width),
        moved_part(p, m, cs, ls.len() as int),
    );
    lemma_within_concat(
        p,
        ord,
        removed_part(p, ls, cs, ls.len() as int) + added_part(p, rs, used, width) + moved_part(p, m, cs, ls.len() as int),
        changed_part(m, cs, ls.len() as int),
    );
}

proof fn lemma_removed_within(p: Seq<SegmentV>, ord: ArrayOrdering, ls: Seq<NodeV>, cs: Seq<Option<int>>, l: int)
    ensures
        all_within(p, ord, removed_part(p, ls, cs, l)),
    decreases l,
{
    if l > 0 {
        lemma_removed_within(p, ord, ls, cs, l - 1);
        lemma_below_self_push(p, seg_index(l - 1));
        let tail = if cs[l - 1] is None {
            seq![DifferenceV::Removed(p.push(seg_index(l - 1)), ItemV::ArrayElement((l - 1) as usize, ls[l - 1]))]
        } else {
            seq![]
        };
        lemma_within_concat(p, ord, removed_part(p, ls, cs, l - 1), tail);
    }
}

proof fn lemma_added_within(p: Seq<SegmentV>, ord: ArrayOrdering, rs: Seq<NodeV>, used: Seq<bool>, k: int)
    ensures
        all_within(p, ord, added_part(p, rs, used, k)),
    decreases k,
{
    if k > 0 {
        lemma_added_within(p, ord, rs, used, k - 1);
        lemma_below_self_push(p, seg_index(k - 1));
        let tail = if !used[k - 1] {
            seq![DifferenceV::Added(p.push(seg_index(k - 1)), ItemV::ArrayElement((k - 1) as usize, rs[k - 1]))]
        } else {
            seq![]
        };
        lemma_within_concat(p, ord, added_part(p, rs, used, k - 1), tail);
    }
}

proof fn lemma_moved_within(p: Seq<SegmentV>, ord: ArrayOrdering, m: Seq<Seq<Seq<DifferenceV>>>, cs: Seq<Option<int>>, l: int)
    requires
        ord == ArrayOrdering::Dynamic,
    ensures
        all_within(p, ord, moved_part(p, m, cs, l)),
    decreases l,
{
    if l > 0 {
        lemma_moved_within(p, ord, m, cs, l - 1);
        let tail = match cs[l - 1] {
            Some(c) => if m[l - 1][c].len() == 0 && c != l - 1 {
                seq![DifferenceV::Moved(p.push(seg_index(l - 1)), p.push(seg_index(c)))]
            } else {
                seq![]
            },
            None => seq![],
        };
        if let Some(c) = cs[l - 1] {
            lemma_below_self_push(p, seg_index(l - 1));
            lemma_below_self_push(p, seg_index(c));
        }
        lemma_within_concat(p, ord, moved_part(p, m, cs, l - 1), tail);
    }
}

proof fn lemma_changed_within(p: Seq<SegmentV>, ord: ArrayOrdering, m: Seq<Seq<Seq<DifferenceV>>>, cs: Seq<Option<int>>, l: int, nr: int)
    requires
        0 <= l <= cs.len(),
        cs.len() <= m.len(),
        forall|i: int| 0 <= i < cs.len() ==> (#[trigger] cs[i] matches Some(c) ==> 0 <= c < nr),
        forall|i: int, c: int| 0 <= i < cs.len() && 0 <= c < nr ==> all_within(p, ord, #[trigger] m[i][c]),
    ensures
        all_within(p, ord, changed_part(m, cs, l)),
    decreases l,
{
    if l > 0 {
        lemma_changed_within(p, ord, m, cs, l - 1, nr);
        let tail = match cs[l - 1] {
            Some(c) => if m[l - 1][c].len() > 0 {
                m[l - 1][c]
            } else {
                seq![]
            },
            None => seq![],
        };
        if let Some(c) = cs[l - 1] {
            assert(0 <= c < nr);
            assert(all_within(p, ord, m[l - 1][c]));
        }
        lemma_within_concat(p, ord, changed_part(m, cs, l - 1), tail);
    }
}


// ---------------------------------------------------------------------------
// Swapping the sides
// ---------------------------------------------------------------------------

/// A difference seen from the other side: what was added was removed, and
/// the two sides of a change trade places.
pub open spec fn mirror(d: DifferenceV) -> DifferenceV {
    match d {
        DifferenceV::Added(p, it) => DifferenceV::Removed(p, it),
        DifferenceV::Removed(p, it) => DifferenceV::Added(p, it),
        DifferenceV::Changed(p, l, r) => DifferenceV::Changed(p, r, l),
        DifferenceV::Moved(a, b) => DifferenceV::Moved(b, a),
    }
}

pub open spec fn mirrored(s: Seq<DifferenceV>) -> Seq<DifferenceV> {
    s.map_values(|d: DifferenceV| mirror(d))
}

/// The entries among the first `n` of `a` (each key once) whose key `b`
/// lacks, as removed.
pub open spec fn removed_keys(p: Seq<SegmentV>, a: Seq<EntryV>, b: Seq<EntryV>, n: int) -> Seq<DifferenceV>
    decreases n,
{
    if n <= 0 || n > a.len() {
        seq![]
    } else {
        let e = a[n - 1];
        removed_keys(p, a, b, n - 1) + if first_key(a, e.key, n - 1) is None && first_key(b, e.key, b.len() as int) is None {
            seq![DifferenceV::Removed(p.push(seg_field(e.key)), ItemV::KV(e.key, e.key_span, e.value))]
        } else {
            seq![]
        }
    }
}

/// The sum of `g` over the keys among the first `n` entries of `a` (each
/// once) that `b` has too.
pub open spec fn key_sum(a: Seq<EntryV>, b: Seq<EntryV>, g: spec_fn(Seq<char>) -> Multiset<DifferenceV>, n: int) -> Multiset<DifferenceV>
    decreases n,
{
    if n <= 0 || n > a.len() {
        Multiset::empty()
    } else {
        let k = a[n - 1].key;
        key_sum(a, b, g, n - 1).add(
            if first_key(a, k, n - 1) is None && first_key(b, k, b.len() as int) is Some {
                g(k)
            } else {
                Multiset::empty()
            },
        )
    }
}

/// The differences under the common key `k`, as multisets.
pub open spec fn common_diffs(p: Seq<SegmentV>, a: Seq<EntryV>, b: Seq<EntryV>) -> spec_fn(Seq<char>) -> Multiset<DifferenceV> {
    |k: Seq<char>|
        diff_spec(
            p.push(seg_field(k)),
            ArrayOrdering::Fixed,
            a[first_key(a, k, a.len() as int)->0].value,
            b[first_key(b, k, b.len() as int)->0].value,
        ).to_multiset()
}

/// The mirrored differences under the common key `k`, as multisets.
pub open spec fn common_mirrored(p: Seq<SegmentV>, a: Seq<EntryV>, b: Seq<EntryV>) -> spec_fn(Seq<char>) -> Multiset<DifferenceV> {
    |k: Seq<char>|
        mirrored(
            diff_spec(
                p.push(seg_field(k)),
                ArrayOrdering::Fixed,
                a[first_key(a, k, a.len() as int)->0].value,
                b[first_key(b, k, b.len() as int)->0].value,
            ),
        ).to_multiset()
}

proof fn lemma_first_key_agree(a: Seq<EntryV>, b: Seq<EntryV>, k: Seq<char>, n: int)
    requires
        0 <= n <= a.len(),
        n <= b.len(),
        forall|i: int| 0 <= i < n ==> (#[trigger] a[i]).key == b[i].key,
    ensures
        first_key(a, k, n) == first_key(b, k, n),
    decreases n,
{
    if n > 0 {
        lemma_first_key_agree(a, b, k, n - 1);
    }
}

/// Whether `a` has `k` among all its keys is whether its first `n - 1`
/// entries have it, or its last is `k`.
proof fn lemma_has_key_drop_last(a: Seq<EntryV>, k: Seq<char>)
    requires
        a.len() > 0,
    ensures
        (first_key(a, k, a.len() as int) is Some) == (first_key(a.drop_last(), k, a.len() - 1) is Some || a.last().key == k),
{
    lemma_first_key_agree(a, a.drop_last(), k, a.len() - 1);
}

proof fn lemma_key_sum_zero(b: Seq<EntryV>, a: Seq<EntryV>, g: spec_fn(Seq<char>) -> Multiset<DifferenceV>, n: int)
    requires
        forall|x: Seq<char>| #[trigger] first_key(a, x, a.len() as int) is None,
    ensures
        key_sum(b, a, g, n) =~= Multiset::<DifferenceV>::empty(),
    decreases n,
{
    broadcast use vstd::multiset::group_multiset_axioms;

    if 0 < n <= b.len() {
        lemma_key_sum_zero(b, a, g, n - 1);
        assert(first_key(a, b[n - 1].key, a.len() as int) is None);
    }
}

proof fn lemma_key_sum_same(b: Seq<EntryV>, a1: Seq<EntryV>, a2: Seq<EntryV>, g: spec_fn(Seq<char>) -> Multiset<DifferenceV>, n: int)
    requires
        forall|x: Seq<char>| (#[trigger] first_key(a1, x, a1.len() as int) is Some) == (first_key(a2, x, a2.len() as int) is Some),
    ensures
        key_sum(b, a1, g, n) == key_sum(b, a2, g, n),
    decreases n,
{
    if 0 < n <= b.len() {
        lemma_key_sum_same(b, a1, a2, g, n - 1);
        assert((first_key(a1, b[n - 1].key, a1.len() as int) is Some) == (first_key(a2, b[n - 1].key, a2.len() as int) is Some));
    }
}

/// Adding the key `k` to the other side adds `g(k)` once, where `b` has it.
proof fn lemma_key_sum_add(b: Seq<EntryV>, a1: Seq<EntryV>, a2: Seq<EntryV>, k: Seq<char>, g: spec_fn(Seq<char>) -> Multiset<DifferenceV>, n: int)
    requires
        0 <= n <= b.len(),
        forall|x: Seq<char>| x != k ==> (#[trigger] first_key(a1, x, a1.len() as int) is Some) == (first_key(a2, x, a2.len() as int) is Some),
        first_key(a1, k, a1.len() as int) is None,
        first_key(a2, k, a2.len() as int) is Some,
    ensures
        key_sum(b, a2, g, n) =~= key_sum(b, a1, g, n).add(
            if first_key(b, k, n) is Some {
                g(k)
            } else {
                Multiset::empty()
            },
        ),
    decreases n,
{
    broadcast use vstd::multiset::group_multiset_axioms;

    if n > 0 {
        lemma_key_sum_add(b, a1, a2, k, g, n - 1);
        let y = b[n - 1].key;
        if y != k {
            assert((first_key(a1, y, a1.len() as int) is Some) == (first_key(a2, y, a2.len() as int) is Some));
        }
    }
}

/// The sum over the keys two entry lists share does not depend on the
/// order in which the keys are met.
pub proof fn lemma_key_sum_swap(a: Seq<EntryV>, b: Seq<EntryV>, g: spec_fn(Seq<char>) -> Multiset<DifferenceV>)
    ensures
        key_sum(a, b, g, a.len() as int) == key_sum(b, a, g, b.len() as int),
    decreases a.len(),
{
    broadcast use vstd::multiset::group_multiset_axioms;

    if a.len() == 0 {
        lemma_key_sum_zero(b, a, g, b.len() as int);
    } else {
        let n = a.len() as int;
        let a2 = a.drop_last();
        let k = a.last().key;
        lemma_key_sum_swap(a2, b, g);
        assert forall|i: int| 0 <= i < n - 1 implies (#[trigger] a[i]) == a2[i] by {}
        assert(key_sum(a, b, g, n - 1) == key_sum(a2, b, g, n - 1)) by {
            lemma_key_sum_prefix(a, a2, b, g, n - 1);
        }
        lemma_first_key_agree(a, a2, k, n - 1);
        assert forall|x: Seq<char>| x != k implies (#[trigger] first_key(a2, x, a2.len() as int) is Some) == (first_key(
            a,
            x,
            a.len() as int,
        ) is Some) by {
            lemma_has_key_drop_last(a, x);
        }
        lemma_has_key_drop_last(a, k);
        if first_key(a, k, n - 1) is Some {
            assert forall|x: Seq<char>| (#[trigger] first_key(a2, x, a2.len() as int) is Some) == (first_key(
                a,
                x,
                a.len() as int,
            ) is Some) by {
                lemma_has_key_drop_last(a, x);
            }
            lemma_key_sum_same(b, a2, a, g, b.len() as int);
            assert(key_sum(a, b, g, n) =~= key_sum(a, b, g, n - 1));
        } else {
            lemma_key_sum_add(b, a2, a, k, g, b.len() as int);
            assert(key_sum(a, b, g, n) =~= key_sum(a, b, g, n - 1).add(
                if first_key(b, k, b.len() as int) is Some {
                    g(k)
                } else {
                    Multiset::empty()
                },
            ));
        }
    }
}

proof fn lemma_key_sum_prefix(a: Seq<EntryV>, a2: Seq<EntryV>, b: Seq<EntryV>, g: spec_fn(Seq<char>) -> Multiset<DifferenceV>, n: int)
    requires
        0 <= n <= a.len(),
        n <= a2.len(),
        forall|i: int| 0 <= i < n ==> (#[trigger] a[i]) == a2[i],
    ensures
        key_sum(a, b, g, n) == key_sum(a2, b, g, n),
    decreases n,
{
    if n > 0 {
        lemma_key_sum_prefix(a, a2, b, g, n - 1);
        assert(a[n - 1] == a2[n - 1]);
        lemma_first_key_agree(a, a2, a[n - 1].key, n - 1);
    }
}

/// Two functions that agree on the keys both lists have give the same sum.
proof fn lemma_key_sum_cong(
    a: Seq<EntryV>,
    b: Seq<EntryV>,
    g1: spec_fn(Seq<char>) -> Multiset<DifferenceV>,
    g2: spec_fn(Seq<char>) -> Multiset<DifferenceV>,
    n: int,
)
    requires
        0 <= n <= a.len(),
        forall|k: Seq<char>|
            first_key(a, k, a.len() as int) is Some && first_key(b, k, b.len() as int) is Some ==> #[trigger] g1(k) == g2(k),
    ensures
        key_sum(a, b, g1, n) == key_sum(a, b, g2, n),
    decreases n,
{
    if n > 0 {
        lemma_key_sum_cong(a, b, g1, g2, n - 1);
        let k = a[n - 1].key;
        if first_key(a, k, n - 1) is None {
            assert(first_key(a, k, n) == Some(n - 1));
            lemma_first_key_stable(a, k, n, a.len() as int);
        }
    }
}

/// The entries of the left mapping, as multisets: the differences under
/// each key both sides have, then the entries only the left has.
proof fn lemma_map_left_split(p: Seq<SegmentV>, ls: Seq<EntryV>, rs: Seq<EntryV>, n: int)
    requires
        0 <= n <= ls.len(),
    ensures
        map_left(p, ArrayOrdering::Fixed, ls, rs, n).to_multiset() =~= key_sum(ls, rs, common_diffs(p, ls, rs), n).add(
            removed_keys(p, ls, rs, n).to_multiset(),
        ),
        mirrored(map_left(p, ArrayOrdering::Fixed, ls, rs, n)).to_multiset() =~= key_sum(ls, rs, common_mirrored(p, ls, rs), n).add(
            mirrored(removed_keys(p, ls, rs, n)).to_multiset(),
        ),
    decreases n,
{
    broadcast use vstd::multiset::group_multiset_axioms;
    broadcast use vstd::seq_lib::group_to_multiset_ensures;

    if n > 0 {
        lemma_map_left_split(p, ls, rs, n - 1);
        let e = ls[n - 1];
        let ml = map_left(p, ArrayOrdering::Fixed, ls, rs, n - 1);
        let rk = removed_keys(p, ls, rs, n - 1);
        let piece = if first_key(ls, e.key, n - 1) is Some {
            seq![]
        } else {
            match first_key(rs, e.key, rs.len() as int) {
                Some(j) => diff_spec(p.push(seg_field(e.key)), ArrayOrdering::Fixed, e.value, rs[j].value),
                None => seq![DifferenceV::Removed(p.push(seg_field(e.key)), ItemV::KV(e.key, e.key_span, e.value))],
            }
        };
        assert(map_left(p, ArrayOrdering::Fixed, ls, rs, n) == ml + piece);
        vstd::seq_lib::lemma_multiset_commutative(ml, piece);
        assert(mirrored(ml + piece) =~= mirrored(ml) + mirrored(piece));
        vstd::seq_lib::lemma_multiset_commutative(mirrored(ml), mirrored(piece));
        let rpiece = if first_key(ls, e.key, n - 1) is None && first_key(rs, e.key, rs.len() as int) is None {
            seq![DifferenceV::Removed(p.push(seg_field(e.key)), ItemV::KV(e.key, e.key_span, e.value))]
        } else {
            seq![]
        };
        assert(removed_keys(p, ls, rs, n) == rk + rpiece);
        vstd::seq_lib::lemma_multiset_commutative(rk, rpiece);
        assert(mirrored(rk + rpiece) =~= mirrored(rk) + mirrored(rpiece));
        vstd::seq_lib::lemma_multiset_commutative(mirrored(rk), mirrored(rpiece));
        if first_key(ls, e.key, n - 1) is None {
            assert(first_key(ls, e.key, n) == Some(n - 1));
            lemma_first_key_stable(ls, e.key, n, ls.len() as int);
            match first_key(rs, e.key, rs.len() as int) {
                Some(j) => {
                    assert(common_diffs(p, ls, rs)(e.key) == piece.to_multiset());
                    assert(common_mirrored(p, ls, rs)(e.key) == mirrored(piece).to_multiset());
                    assert(rpiece =~= Seq::<DifferenceV>::empty());
                    assert(mirrored(rpiece) =~= Seq::<DifferenceV>::empty());
                },
                None => {
                    assert(piece == rpiece);
                },
            }
        } else {
            assert(piece =~= Seq::<DifferenceV>::empty());
            assert(mirrored(piece) =~= Seq::<DifferenceV>::empty());
            assert(rpiece =~= Seq::<DifferenceV>::empty());
            assert(mirrored(rpiece) =~= Seq::<DifferenceV>::empty());
        }
    }
}

/// What only one side has, seen from the other side, is what only that
/// side has as removed or added.
proof fn lemma_only_one_side(p: Seq<SegmentV>, ls: Seq<EntryV>, rs: Seq<EntryV>, n: int)
    ensures
        mirrored(map_added(p, ls, rs, n)) == removed_keys(p, rs, ls, n),
        mirrored(removed_keys(p, ls, rs, n)) == map_added(p, rs, ls, n),
    decreases n,
{
    if n > 0 {
        lemma_only_one_side(p, ls, rs, n - 1);
        assert(mirrored(map_added(p, ls, rs, n)) =~= removed_keys(p, rs, ls, n));
        assert(mirrored(removed_keys(p, ls, rs, n)) =~= map_added(p, rs, ls, n));
    }
}

/// Under each key both mappings have, swapping the sides mirrors the
/// differences.
proof fn lemma_common_mirror(p: Seq<SegmentV>, ls: Seq<EntryV>, rs: Seq<EntryV>, n: int)
    requires
        0 <= n <= ls.len(),
    ensures
        forall|i: int| #![trigger ls[i]]
            0 <= i < n && first_key(rs, ls[i].key, rs.len() as int) is Some ==> common_diffs(p, rs, ls)(ls[i].key)
                == common_mirrored(p, ls, rs)(ls[i].key),
    decreases ls, n, 0int,
{
    if n > 0 {
        lemma_common_mirror(p, ls, rs, n - 1);
        let k = ls[n - 1].key;
        assert(first_key(ls, k, ls.len() as int) is Some) by {
            if first_key(ls, k, n - 1) is Some {
                lemma_first_key_stable(ls, k, n - 1, ls.len() as int);
            } else {
                assert(first_key(ls, k, n) == Some(n - 1));
                lemma_first_key_stable(ls, k, n, ls.len() as int);
            }
        }
        if first_key(rs, k, rs.len() as int) is Some {
            crate::node::lemma_first_key_bounds(ls, k, ls.len() as int);
            let i = first_key(ls, k, ls.len() as int)->0;
            let j = first_key(rs, k, rs.len() as int)->0;
            lemma_diff_mirror(p.push(seg_field(k)), ls[i].value, rs[j].value);
        }
    }
}

/// Sequences paired by index, with the sides swapped.
proof fn lemma_fixed_mirror(p: Seq<SegmentV>, ls: Seq<NodeV>, rs: Seq<NodeV>, n: int)
    requires
        0 <= n,
    ensures
        fixed_seq(p, ArrayOrdering::Fixed, rs, ls, n).to_multiset() =~= mirrored(fixed_seq(p, ArrayOrdering::Fixed, ls, rs, n)).to_multiset(),
    decreases ls, n, 0int,
{
    broadcast use vstd::multiset::group_multiset_axioms;

    if n > 0 {
        let i = n - 1;
        lemma_fixed_mirror(p, ls, rs, n - 1);
        let a = fixed_seq(p, ArrayOrdering::Fixed, ls, rs, n - 1);
        let b = fixed_seq(p, ArrayOrdering::Fixed, rs, ls, n - 1);
        let pa = if i < ls.len() && i < rs.len() {
            diff_spec(p.push(seg_index(i)), ArrayOrdering::Fixed, ls[i], rs[i])
        } else if i < ls.len() {
            seq![DifferenceV::Removed(p.push(seg_index(i)), ItemV::ArrayElement(i as usize, ls[i]))]
        } else if i < rs.len() {
            seq![DifferenceV::Added(p.push(seg_index(i)), ItemV::ArrayElement(i as usize, rs[i]))]
        } else {
            seq![]
        };
        let pb = if i < rs.len() && i < ls.len() {
            diff_spec(p.push(seg_index(i)), ArrayOrdering::Fixed, rs[i], ls[i])
        } else if i < rs.len() {
            seq![DifferenceV::Removed(p.push(seg_index(i)), ItemV::ArrayElement(i as usize, rs[i]))]
        } else if i < ls.len() {
            seq![DifferenceV::Added(p.push(seg_index(i)), ItemV::ArrayElement(i as usize, ls[i]))]
        } else {
            seq![]
        };
        assert(fixed_seq(p, ArrayOrdering::Fixed, ls, rs, n) == a + pa);
        assert(fixed_seq(p, ArrayOrdering::Fixed, rs, ls, n) == b + pb);
        if i < ls.len() && i < rs.len() {
            lemma_diff_mirror(p.push(seg_index(i)), ls[i], rs[i]);
        } else {
            assert(mirrored(pa) =~= pb);
        }
        assert(pb.to_multiset() =~= mirrored(pa).to_multiset());
        assert(mirrored(a + pa) =~= mirrored(a) + mirrored(pa));
        vstd::seq_lib::lemma_multiset_commutative(b, pb);
        vstd::seq_lib::lemma_multiset_commutative(mirrored(a), mirrored(pa));
        assert((b + pb).to_multiset() =~= b.to_multiset().add(pb.to_multiset()));
        assert((mirrored(a) + mirrored(pa)).to_multiset() =~= mirrored(a).to_multiset().add(mirrored(pa).to_multiset()));
        assert(b.to_multiset() =~= mirrored(a).to_multiset());
        assert(mirrored(fixed_seq(p, ArrayOrdering::Fixed, ls, rs, n)) == mirrored(a) + mirrored(pa));
    } else {
        assert(mirrored(fixed_seq(p, ArrayOrdering::Fixed, ls, rs, n)) =~= Seq::<DifferenceV>::empty());
        assert(fixed_seq(p, ArrayOrdering::Fixed, rs, ls, n) =~= Seq::<DifferenceV>::empty());
    }
}

/// Under [`ArrayOrdering::Fixed`], diffing with the sides swapped gives the
/// same differences seen from the other side: what was added is removed,
/// what was removed is added, and the two sides of each change trade
/// places. The differences are the same as a multiset; their order follows
/// the keys of whichever side comes first.
pub proof fn lemma_diff_mirror(p: Seq<SegmentV>, l: NodeV, r: NodeV)
    ensures
        diff_spec(p, ArrayOrdering::Fixed, r, l).to_multiset() =~= mirrored(diff_spec(p, ArrayOrdering::Fixed, l, r)).to_multiset(),
    decreases l, 0int, 0int,
{
    broadcast use vstd::multiset::group_multiset_axioms;
    broadcast use vstd::seq_lib::group_to_multiset_ensures;

    match (l.data, r.data) {
        (DataV::Mapping(ls), DataV::Mapping(rs)) => {
            let ml = map_left(p, ArrayOrdering::Fixed, ls, rs, ls.len() as int);
            let ma = map_added(p, ls, rs, rs.len() as int);
            let ml2 = map_left(p, ArrayOrdering::Fixed, rs, ls, rs.len() as int);
            let ma2 = map_added(p, rs, ls, ls.len() as int);
            lemma_map_left_split(p, ls, rs, ls.len() as int);
            lemma_map_left_split(p, rs, ls, rs.len() as int);
            lemma_only_one_side(p, ls, rs, rs.len() as int);
            lemma_only_one_side(p, ls, rs, ls.len() as int);
            lemma_common_mirror(p, ls, rs, ls.len() as int);
            assert forall|k: Seq<char>|
                first_key(rs, k, rs.len() as int) is Some && first_key(ls, k, ls.len() as int) is Some implies #[trigger] common_diffs(
                p,
                rs,
                ls,
            )(k) == common_mirrored(p, ls, rs)(k) by {
                crate::node::lemma_first_key_bounds(ls, k, ls.len() as int);
                let i = first_key(ls, k, ls.len() as int)->0;
                assert(ls[i].key == k);
            }
            lemma_key_sum_cong(rs, ls, common_diffs(p, rs, ls), common_mirrored(p, ls, rs), rs.len() as int);
            lemma_key_sum_swap(ls, rs, common_mirrored(p, ls, rs));
            assert(mirrored(ml + ma) =~= mirrored(ml) + mirrored(ma));
            vstd::seq_lib::lemma_multiset_commutative(ml2, ma2);
            vstd::seq_lib::lemma_multiset_commutative(mirrored(ml), mirrored(ma));
        },
        (DataV::Sequence(ls), DataV::Sequence(rs)) => {
            let n = if ls.len() >= rs.len() { ls.len() as int } else { rs.len() as int };
            lemma_fixed_mirror(p, ls, rs, n);
        },
        _ => {
            lemma_same_data_sym(l.data, r.data);
            assert(mirrored(other_diff(p, l, r)) =~= other_diff(p, r, l));
        },
    }
}

/// A value that is no mapping, sequence, float or tagged value: null, a
/// boolean, an integer, a string, a raw scalar, an alias or a bad value.
pub open spec fn plain_value(d: DataV) -> bool {
    d is Null || d is Boolean || d is Integer || d is String || d is Representation || d is Alias || d is BadValue
}

/// A plain value differs from another value exactly where the two are not
/// equal: equal values give no difference, and unequal ones (`true` against
/// `false`, `1` against `2`, a string against a mapping) give one `Changed`
/// at the path that holds both nodes, whatever their spans.
pub proof fn lemma_plain_values_differ(p: Seq<SegmentV>, ord: ArrayOrdering, l: NodeV, r: NodeV)
    requires
        plain_value(l.data),
    ensures
        l.data == r.data ==> diff_spec(p, ord, l, r) == Seq::<DifferenceV>::empty(),
        l.data != r.data ==> diff_spec(p, ord, l, r) == seq![DifferenceV::Changed(p, l, r)],
{
}

/// Two mappings of one entry each, under the same key, differ exactly as
/// their two values do, one level down the path.
pub proof fn lemma_one_entry_mappings(
    p: Seq<SegmentV>,
    ord: ArrayOrdering,
    l: NodeV,
    r: NodeV,
    k: Seq<char>,
    a: EntryV,
    b: EntryV,
)
    requires
        a.key == k,
        b.key == k,
        l.data == DataV::Mapping(seq![a]),
        r.data == DataV::Mapping(seq![b]),
    ensures
        diff_spec(p, ord, l, r) == diff_spec(p.push(SegmentV::Field(k)), ord, a.value, b.value),
{
    let ls = seq![a];
    let rs = seq![b];
    assert(first_key(ls, k, 0) is None);
    assert(first_key(rs, k, 0) is None);
    assert(first_key(rs, k, 1) == Some(0int));
    assert(first_key(ls, k, 1) == Some(0int));
    assert(map_left(p, ord, ls, rs, 0) =~= Seq::<DifferenceV>::empty());
    assert(map_added(p, ls, rs, 0) =~= Seq::<DifferenceV>::empty());
    assert(map_left(p, ord, ls, rs, 1) =~= diff_spec(p.push(seg_field(k)), ord, a.value, b.value));
    assert(map_added(p, ls, rs, 1) =~= Seq::<DifferenceV>::empty());
}

/// A float differs from another value unless the other is a float with the
/// same bits, both are zero (of either sign) or both are NaN; where it
/// differs, the difference is one `Changed` at the path.
pub proof fn lemma_float_values_differ(p: Seq<SegmentV>, ord: ArrayOrdering, l: NodeV, r: NodeV, x: u64)
    requires
        l.data == DataV::Float(x),
    ensures
        (r.data matches DataV::Float(y) && (x == y || (float_is_zero(x) && float_is_zero(y)) || (float_is_nan(x)
            && float_is_nan(y)))) ==> diff_spec(p, ord, l, r) == Seq::<DifferenceV>::empty(),
        !(r.data matches DataV::Float(y) && (x == y || (float_is_zero(x) && float_is_zero(y)) || (float_is_nan(x)
            && float_is_nan(y)))) ==> diff_spec(p, ord, l, r) == seq![DifferenceV::Changed(p, l, r)],
{
    if let DataV::Float(y) = r.data {
        assert((float_is_zero(x) ==> !float_is_nan(x)) && (float_is_zero(y) ==> !float_is_nan(y))) by (bit_vector);
    }
}

/// Two mappings of one entry each, under different keys: the left entry is
/// removed and the right one added, in that order.
pub proof fn lemma_one_entry_other_keys(p: Seq<SegmentV>, ord: ArrayOrdering, l: NodeV, r: NodeV, a: EntryV, b: EntryV)
    requires
        a.key != b.key,
        l.data == DataV::Mapping(seq![a]),
        r.data == DataV::Mapping(seq![b]),
    ensures
        diff_spec(p, ord, l, r) == seq![
            DifferenceV::Removed(p.push(SegmentV::Field(a.key)), ItemV::KV(a.key, a.key_span, a.value)),
            DifferenceV::Added(p.push(SegmentV::Field(b.key)), ItemV::KV(b.key, b.key_span, b.value)),
        ],
{
    let ls = seq![a];
    let rs = seq![b];
    assert(ls[0] == a && rs[0] == b);
    assert(first_key(ls, a.key, 0) is None);
    assert(first_key(rs, a.key, 0) is None);
    assert(first_key(ls, b.key, 0) is None);
    assert(first_key(rs, a.key, 1) is None);
    assert(first_key(rs, b.key, 0) is None);
    assert(first_key(ls, b.key, 1) is None);
    assert(map_left(p, ord, ls, rs, 0) =~= Seq::<DifferenceV>::empty());
    assert(map_added(p, ls, rs, 0) =~= Seq::<DifferenceV>::empty());
    assert(map_left(p, ord, ls, rs, 1) =~= seq![
        DifferenceV::Removed(p.push(seg_field(a.key)), ItemV::KV(a.key, a.key_span, a.value)),
    ]);
    assert(map_added(p, ls, rs, 1) =~= seq![
        DifferenceV::Added(p.push(seg_field(b.key)), ItemV::KV(b.key, b.key_span, b.value)),
    ]);
}

/// Under `Fixed` ordering, two sequences of one element each differ as
/// their elements do at index 0; an element that only the left (right) has
/// is removed (added) at its index.
pub proof fn lemma_fixed_one_element(p: Seq<SegmentV>, l: NodeV, r: NodeV, a: NodeV, b: NodeV)
    ensures
        (l.data == DataV::Sequence(seq![a]) && r.data == DataV::Sequence(seq![b])) ==> diff_spec(
            p,
            ArrayOrdering::Fixed,
            l,
            r,
        ) == diff_spec(p.push(SegmentV::Index(0)), ArrayOrdering::Fixed, a, b),
        (l.data == DataV::Sequence(seq![a]) && r.data == DataV::Sequence(Seq::<NodeV>::empty())) ==> diff_spec(
            p,
            ArrayOrdering::Fixed,
            l,
            r,
        ) == seq![DifferenceV::Removed(p.push(SegmentV::Index(0)), ItemV::ArrayElement(0, a))],
        (l.data == DataV::Sequence(Seq::<NodeV>::empty()) && r.data == DataV::Sequence(seq![b])) ==> diff_spec(
            p,
            ArrayOrdering::Fixed,
            l,
            r,
        ) == seq![DifferenceV::Added(p.push(SegmentV::Index(0)), ItemV::ArrayElement(0, b))],
{
    let e = Seq::<NodeV>::empty();
    assert(seg_index(0) == SegmentV::Index(0));
    assert(fixed_seq(p, ArrayOrdering::Fixed, seq![a], seq![b], 0) =~= Seq::<DifferenceV>::empty());
    assert(fixed_seq(p, ArrayOrdering::Fixed, seq![a], e, 0) =~= Seq::<DifferenceV>::empty());
    assert(fixed_seq(p, ArrayOrdering::Fixed, e, seq![b], 0) =~= Seq::<DifferenceV>::empty());
    assert(fixed_seq(p, ArrayOrdering::Fixed, seq![a], seq![b], 1) =~= diff_spec(
        p.push(seg_index(0)),
        ArrayOrdering::Fixed,
        a,
        b,
    ));
    assert(fixed_seq(p, ArrayOrdering::Fixed, seq![a], e, 1) =~= seq![
        DifferenceV::Removed(p.push(seg_index(0)), ItemV::ArrayElement(0, a)),
    ]);
    assert(fixed_seq(p, ArrayOrdering::Fixed, e, seq![b], 1) =~= seq![
        DifferenceV::Added(p.push(seg_index(0)), ItemV::ArrayElement(0, b)),
    ]);
}

} // verus!
