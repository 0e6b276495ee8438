//! A YAML document tree with source positions: the data that the diff and
//! the renderer read from a parsed document.
use saphyr::{LoadableYamlNode, ScalarOwned, YamlDataOwned};
use vstd::prelude::*;

verus! {

/// A position in the source text.
#[derive(Debug, Clone, Copy, PartialEq, Eq)]
pub struct Marker {
    /// Character offset from the start of the input.
    pub index: usize,
    /// 1-based line.
    pub line: usize,
    /// 0-based column.
    pub col: usize,
}

/// The extent of a node in the source text.
#[derive(Debug, Clone, Copy, PartialEq, Eq)]
pub struct Span {
    pub start: Marker,
    pub end: Marker,
}

/// The contents of a node.
///
/// Floating point numbers are held by their bit pattern; [`same_float`]
/// says when two of them hold the same value.
/// Mapping keys are held as text, in document order, each once.
#[derive(Debug)]
pub enum YamlData {
    Null,
    Boolean(bool),
    Integer(i64),
    Float(u64),
    String(String),
    /// A scalar kept as its raw source text.
    Representation(String),
    Sequence(Vec<Node>),
    Mapping(Vec<Entry>),
    Tagged(String, String, Box<Node>),
    Alias(usize),
    BadValue,
}

/// A key and its value in a mapping.
#[derive(Debug)]
pub struct Entry {
    pub key: String,
    pub key_span: Span,
    pub value: Node,
}

/// A node of the tree: its data and where it stands in the source.
#[derive(Debug)]
pub struct Node {
    pub span: Span,
    pub data: YamlData,
}

// ---------------------------------------------------------------------------
// The mathematical model
// ---------------------------------------------------------------------------

pub ghost enum DataV {
    Null,
    Boolean(bool),
    Integer(i64),
    Float(u64),
    String(Seq<char>),
    Representation(Seq<char>),
    Sequence(Seq<NodeV>),
    Mapping(Seq<EntryV>),
    Tagged(Seq<char>, Seq<char>, Box<NodeV>),
    Alias(usize),
    BadValue,
}

pub ghost struct EntryV {
    pub key: Seq<char>,
    pub key_span: Span,
    pub value: NodeV,
}

pub ghost struct NodeV {
    pub span: Span,
    pub data: DataV,
}

pub open spec fn node_view(n: Node) -> NodeV
    decreases n, 0int,
{
    NodeV { span: n.span, data: data_view(n.data) }
}

pub open spec fn data_view(d: YamlData) -> DataV
    decreases d, 0int,
{
    match d {
        YamlData::Null => DataV::Null,
        YamlData::Boolean(b) => DataV::Boolean(b),
        YamlData::Integer(i) => DataV::Integer(i),
        YamlData::Float(f) => DataV::Float(f),
        YamlData::String(s) => DataV::String(s@),
        YamlData::Representation(s) => DataV::Representation(s@),
        YamlData::Sequence(v) => DataV::Sequence(nodes_view(v@)),
        YamlData::Mapping(v) => DataV::Mapping(entries_view(v@)),
        YamlData::Tagged(h, s, b) => DataV::Tagged(h@, s@, Box::new(node_view(*b))),
        YamlData::Alias(a) => DataV::Alias(a),
        YamlData::BadValue => DataV::BadValue,
    }
}

pub open spec fn nodes_view(s: Seq<Node>) -> Seq<NodeV>
    decreases s, 0int,
{
    if s.len() == 0 {
        seq![]
    } else {
        nodes_view(s.subrange(0, s.len() - 1)).push(node_view(s[s.len() - 1]))
    }
}

pub open spec fn entries_view(s: Seq<Entry>) -> Seq<EntryV>
    decreases s, 0int,
{
    if s.len() == 0 {
        seq![]
    } else {
        entries_view(s.subrange(0, s.len() - 1)).push(
            EntryV {
                key: s[s.len() - 1].key@,
                key_span: s[s.len() - 1].key_span,
                value: node_view(s[s.len() - 1].value),
            },
        )
    }
}

impl View for Node {
    type V = NodeV;

    open spec fn view(&self) -> NodeV {
        node_view(*self)
    }
}


pub proof fn lemma_nodes_view(s: Seq<Node>)
    ensures
        nodes_view(s).len() == s.len(),
        forall|i: int| 0 <= i < s.len() ==> #[trigger] nodes_view(s)[i] == node_view(s[i]),
    decreases s.len(),
{
    if s.len() > 0 {
        lemma_nodes_view(s.subrange(0, s.len() - 1));
    }
}

pub proof fn lemma_entries_view(s: Seq<Entry>)
    ensures
        entries_view(s).len() == s.len(),
        forall|i: int|
            0 <= i < s.len() ==> #[trigger] entries_view(s)[i] == (EntryV {
                key: s[i].key@,
                key_span: s[i].key_span,
                value: node_view(s[i].value),
            }),
    decreases s.len(),
{
    if s.len() > 0 {
        lemma_entries_view(s.subrange(0, s.len() - 1));
    }
}

// ---------------------------------------------------------------------------
// Equality of values (positions ignored)
// ---------------------------------------------------------------------------

/// Whether the bits of a 64-bit float stand for NaN: every exponent bit
/// set and a fraction that is not zero.
pub open spec fn float_is_nan(b: u64) -> bool {
    (b >> 52u64) & 0x7ffu64 == 0x7ffu64 && b & 0xf_ffff_ffff_ffffu64 != 0
}

/// Whether the bits of a 64-bit float stand for zero, of either sign.
pub open spec fn float_is_zero(b: u64) -> bool {
    b & 0x7fff_ffff_ffff_ffffu64 == 0
}

/// Whether two floats, given by their bits, are equal as `f64` compares
/// them: the same bits, or both zero; NaN equals nothing.
pub open spec fn float_eq(a: u64, b: u64) -> bool {
    !float_is_nan(a) && !float_is_nan(b) && (a == b || (float_is_zero(a) && float_is_zero(b)))
}

/// Whether two floats of a document, given by their bits, hold the same
/// value: equal as numbers, and every NaN like every other.
pub open spec fn same_float(a: u64, b: u64) -> bool {
    (float_is_nan(a) && float_is_nan(b)) || float_eq(a, b)
}

/// Whether the bits stand for NaN, as [`float_is_nan`] states.
fn is_nan_bits(b: u64) -> (r: bool)
    ensures
        r == float_is_nan(b),
{
    (b >> 52u64) & 0x7ffu64 == 0x7ffu64 && b & 0xf_ffff_ffff_ffffu64 != 0
}

/// Whether two floats are equal as numbers, as [`float_eq`] states.
pub fn floats_equal(a: u64, b: u64) -> (r: bool)
    ensures
        r == float_eq(a, b),
{
    !is_nan_bits(a) && !is_nan_bits(b) && (a == b || (a & 0x7fff_ffff_ffff_ffffu64 == 0 && b
        & 0x7fff_ffff_ffff_ffffu64 == 0))
}

/// Whether two floats hold the same value, as [`same_float`] states.
pub fn same_floats(a: u64, b: u64) -> (r: bool)
    ensures
        r == same_float(a, b),
{
    (is_nan_bits(a) && is_nan_bits(b)) || floats_equal(a, b)
}

/// Two nodes hold the same value: the same data, wherever they stand in the
/// source. Mappings are equal when they hold the same keys with the same
/// values in the same order.
pub open spec fn same_data(a: DataV, b: DataV) -> bool
    decreases a,
{
    match a {
        DataV::Null => b is Null,
        DataV::Boolean(x) => b matches DataV::Boolean(y) && x == y,
        DataV::Integer(x) => b matches DataV::Integer(y) && x == y,
        DataV::Float(x) => b matches DataV::Float(y) && same_float(x, y),
        DataV::String(x) => b matches DataV::String(y) && x == y,
        DataV::Representation(x) => b matches DataV::Representation(y) && x == y,
        DataV::Sequence(xs) => match b {
            DataV::Sequence(ys) => same_nodes(xs, ys),
            _ => false,
        },
        DataV::Mapping(xs) => match b {
            DataV::Mapping(ys) => same_entries(xs, ys),
            _ => false,
        },
        DataV::Tagged(h, t, x) => match b {
            DataV::Tagged(h2, t2, y) => h == h2 && t == t2 && same_data(x.data, y.data),
            _ => false,
        },
        DataV::Alias(x) => b matches DataV::Alias(y) && x == y,
        DataV::BadValue => b is BadValue,
    }
}

pub open spec fn same_nodes(xs: Seq<NodeV>, ys: Seq<NodeV>) -> bool
    decreases xs,
{
    xs.len() == ys.len() && (xs.len() == 0 || (same_nodes(
        xs.subrange(0, xs.len() - 1),
        ys.subrange(0, ys.len() - 1),
    ) && same_data(xs[xs.len() - 1].data, ys[ys.len() - 1].data)))
}

pub open spec fn same_entries(xs: Seq<EntryV>, ys: Seq<EntryV>) -> bool
    decreases xs,
{
    xs.len() == ys.len() && (xs.len() == 0 || (same_entries(
        xs.subrange(0, xs.len() - 1),
        ys.subrange(0, ys.len() - 1),
    ) && xs[xs.len() - 1].key == ys[ys.len() - 1].key && same_data(
        xs[xs.len() - 1].value.data,
        ys[ys.len() - 1].value.data,
    )))
}

/// Every value is the same value as itself.
pub proof fn lemma_same_data_refl(d: DataV)
    ensures
        same_data(d, d),
    decreases d, 0int,
{
    match d {
        DataV::Sequence(xs) => lemma_same_nodes_refl(xs),
        DataV::Mapping(xs) => lemma_same_entries_refl(xs),
        DataV::Tagged(_, _, x) => lemma_same_data_refl(x.data),
        _ => {},
    }
}

pub proof fn lemma_same_nodes_refl(xs: Seq<NodeV>)
    ensures
        same_nodes(xs, xs),
    decreases xs, xs.len(),
{
    if xs.len() > 0 {
        lemma_same_nodes_refl(xs.subrange(0, xs.len() - 1));
        lemma_same_data_refl(xs[xs.len() - 1].data);
    }
}

pub proof fn lemma_same_entries_refl(xs: Seq<EntryV>)
    ensures
        same_entries(xs, xs),
    decreases xs, xs.len(),
{
    if xs.len() > 0 {
        lemma_same_entries_refl(xs.subrange(0, xs.len() - 1));
        lemma_same_data_refl(xs[xs.len() - 1].value.data);
    }
}

/// Being the same value does not depend on which is named first.
pub proof fn lemma_same_data_sym(a: DataV, b: DataV)
    ensures
        same_data(a, b) == same_data(b, a),
    decreases a, 0int,
{
    match (a, b) {
        (DataV::Sequence(xs), DataV::Sequence(ys)) => lemma_same_nodes_sym(xs, ys),
        (DataV::Mapping(xs), DataV::Mapping(ys)) => lemma_same_entries_sym(xs, ys),
        (DataV::Tagged(_, _, x), DataV::Tagged(_, _, y)) => lemma_same_data_sym(x.data, y.data),
        _ => {},
    }
}

proof fn lemma_same_nodes_sym(xs: Seq<NodeV>, ys: Seq<NodeV>)
    ensures
        same_nodes(xs, ys) == same_nodes(ys, xs),
    decreases xs, xs.len(),
{
    if xs.len() > 0 && xs.len() == ys.len() {
        lemma_same_nodes_sym(xs.subrange(0, xs.len() - 1), ys.subrange(0, ys.len() - 1));
        lemma_same_data_sym(xs[xs.len() - 1].data, ys[ys.len() - 1].data);
    }
}

proof fn lemma_same_entries_sym(xs: Seq<EntryV>, ys: Seq<EntryV>)
    ensures
        same_entries(xs, ys) == same_entries(ys, xs),
    decreases xs, xs.len(),
{
    if xs.len() > 0 && xs.len() == ys.len() {
        lemma_same_entries_sym(xs.subrange(0, xs.len() - 1), ys.subrange(0, ys.len() - 1));
        lemma_same_data_sym(xs[xs.len() - 1].value.data, ys[ys.len() - 1].value.data);
    }
}

/// Whether two nodes hold the same value.
pub fn values_equal(a: &Node, b: &Node) -> (r: bool)
    ensures
        r == same_data(a@.data, b@.data),
    decreases a,
{
    proof {
        lemma_view_unfold(*a);
        lemma_view_unfold(*b);
    }
    match (&a.data, &b.data) {
        (YamlData::Null, YamlData::Null) => true,
        (YamlData::Boolean(x), YamlData::Boolean(y)) => *x == *y,
        (YamlData::Integer(x), YamlData::Integer(y)) => *x == *y,
        (YamlData::Float(x), YamlData::Float(y)) => same_floats(*x, *y),
        (YamlData::String(x), YamlData::String(y)) => str_eq(x.as_str(), y.as_str()),
        (YamlData::Representation(x), YamlData::Representation(y)) => str_eq(x.as_str(), y.as_str()),
        (YamlData::Sequence(xs), YamlData::Sequence(ys)) => {
            proof {
                lemma_nodes_view(xs@);
                lemma_nodes_view(ys@);
                assert(a@.data == DataV::Sequence(nodes_view(xs@)));
                assert(b@.data == DataV::Sequence(nodes_view(ys@)));
                assert(same_data(a@.data, b@.data) == same_nodes(nodes_view(xs@), nodes_view(ys@)));
            }
            if xs.len() != ys.len() {
                return false;
            }
            let mut i: usize = 0;
            while i < xs.len()
                invariant
                    i <= xs.len(),
                    xs.len() == ys.len(),
                    a.data == YamlData::Sequence(*xs),
                    same_data(a@.data, b@.data) == same_nodes(nodes_view(xs@), nodes_view(ys@)),
                    same_nodes(nodes_view(xs@).take(i as int), nodes_view(ys@).take(i as int)),
                    nodes_view(xs@).len() == xs@.len(),
                    nodes_view(ys@).len() == ys@.len(),
                    forall|k: int| 0 <= k < xs@.len() ==> #[trigger] nodes_view(xs@)[k] == node_view(xs@[k]),
                    forall|k: int| 0 <= k < ys@.len() ==> #[trigger] nodes_view(ys@)[k] == node_view(ys@[k]),
                decreases xs.len() - i,
            {
                assert(decreases_to!(*a => xs@[i as int]));
                let e = values_equal(&xs[i], &ys[i]);
                proof {
                    let xv = nodes_view(xs@);
                    let yv = nodes_view(ys@);
                    assert(xv.take(i + 1).subrange(0, i as int) =~= xv.take(i as int));
                    assert(yv.take(i + 1).subrange(0, i as int) =~= yv.take(i as int));
                    assert(xv.take(i + 1)[i as int] == xv[i as int]);
                    assert(yv.take(i + 1)[i as int] == yv[i as int]);
                }
                if !e {
                    proof {
                        let xv = nodes_view(xs@);
                        let yv = nodes_view(ys@);
                        if same_nodes(xv, yv) {
                            lemma_same_nodes_prefix(xv, yv, i + 1);
                        }
                    }
                    return false;
                }
                i = i + 1;
            }
            proof {
                assert(nodes_view(xs@).take(xs.len() as int) =~= nodes_view(xs@));
                assert(nodes_view(ys@).take(ys.len() as int) =~= nodes_view(ys@));
            }
            true
        },
        (YamlData::Mapping(xs), YamlData::Mapping(ys)) => {
            proof {
                lemma_entries_view(xs@);
                lemma_entries_view(ys@);
                assert(a@.data == DataV::Mapping(entries_view(xs@)));
                assert(b@.data == DataV::Mapping(entries_view(ys@)));
                assert(same_data(a@.data, b@.data) == same_entries(entries_view(xs@), entries_view(ys@)));
            }
            if xs.len() != ys.len() {
                return false;
            }
            let mut i: usize = 0;
            while i < xs.len()
                invariant
                    i <= xs.len(),
                    xs.len() == ys.len(),
                    a.data == YamlData::Mapping(*xs),
                    same_data(a@.data, b@.data) == same_entries(entries_view(xs@), entries_view(ys@)),
                    same_entries(entries_view(xs@).take(i as int), entries_view(ys@).take(i as int)),
                    entries_view(xs@).len() == xs@.len(),
                    entries_view(ys@).len() == ys@.len(),
                    forall|k: int|
                        0 <= k < xs@.len() ==> #[trigger] entries_view(xs@)[k] == (EntryV {
                            key: xs@[k].key@,
                            key_span: xs@[k].key_span,
                            value: node_view(xs@[k].value),
                        }),
                    forall|k: int|
                        0 <= k < ys@.len() ==> #[trigger] entries_view(ys@)[k] == (EntryV {
                            key: ys@[k].key@,
                            key_span: ys@[k].key_span,
                            value: node_view(ys@[k].value),
                        }),
                decreases xs.len() - i,
            {
                assert(decreases_to!(*a => xs@[i as int].value));
                let k = str_eq(xs[i].key.as_str(), ys[i].key.as_str());
                let e = k && values_equal(&xs[i].value, &ys[i].value);
                proof {
                    let xv = entries_view(xs@);
                    let yv = entries_view(ys@);
                    assert(xv.take(i + 1).subrange(0, i as int) =~= xv.take(i as int));
                    assert(yv.take(i + 1).subrange(0, i as int) =~= yv.take(i as int));
                    assert(xv.take(i + 1)[i as int] == xv[i as int]);
                    assert(yv.take(i + 1)[i as int] == yv[i as int]);
                }
                if !e {
                    proof {
                        if same_entries(entries_view(xs@), entries_view(ys@)) {
                            lemma_same_entries_prefix(entries_view(xs@), entries_view(ys@), i + 1);
                        }
                    }
                    return false;
                }
                i = i + 1;
            }
            proof {
                assert(entries_view(xs@).take(xs.len() as int) =~= entries_view(xs@));
                assert(entries_view(ys@).take(ys.len() as int) =~= entries_view(ys@));
            }
            true
        },
        (YamlData::Tagged(h, t, x), YamlData::Tagged(h2, t2, y)) => {
            if !str_eq(h.as_str(), h2.as_str()) || !str_eq(t.as_str(), t2.as_str()) {
                return false;
            }
            assert(decreases_to!(*a => **x));
            values_equal(x, y)
        },
        (YamlData::Alias(x), YamlData::Alias(y)) => *x == *y,
        (YamlData::BadValue, YamlData::BadValue) => true,
        _ => false,
    }
}

/// The view of a node, one level down.
pub proof fn lemma_view_unfold(n: Node)
    ensures
        n@.span == n.span,
        n@.data == data_view(n.data),
        n.data matches YamlData::Sequence(v) ==> n@.data == DataV::Sequence(nodes_view(v@)),
        n.data matches YamlData::Mapping(v) ==> n@.data == DataV::Mapping(entries_view(v@)),
        n.data matches YamlData::Tagged(h, t, b) ==> n@.data == DataV::Tagged(h@, t@, Box::new(node_view(*b))),
        n.data matches YamlData::String(s) ==> n@.data == DataV::String(s@),
        n.data matches YamlData::Representation(s) ==> n@.data == DataV::Representation(s@),
        n.data is Null ==> n@.data is Null,
        n.data matches YamlData::Boolean(x) ==> n@.data == DataV::Boolean(x),
        n.data matches YamlData::Integer(x) ==> n@.data == DataV::Integer(x),
        n.data matches YamlData::Float(x) ==> n@.data == DataV::Float(x),
        n.data matches YamlData::Alias(x) ==> n@.data == DataV::Alias(x),
        n.data is BadValue ==> n@.data is BadValue,
{
    reveal_with_fuel(node_view, 2);
    reveal_with_fuel(data_view, 2);
}

/// Equal sequences of nodes agree on every prefix.
pub proof fn lemma_same_nodes_prefix(xs: Seq<NodeV>, ys: Seq<NodeV>, k: int)
    requires
        0 <= k <= xs.len(),
        xs.len() == ys.len(),
        same_nodes(xs, ys),
    ensures
        same_nodes(xs.take(k), ys.take(k)),
    decreases xs.len(),
{
    if k < xs.len() {
        lemma_same_nodes_prefix(xs.subrange(0, xs.len() - 1), ys.subrange(0, ys.len() - 1), k);
        assert(xs.subrange(0, xs.len() - 1).take(k) =~= xs.take(k));
        assert(ys.subrange(0, ys.len() - 1).take(k) =~= ys.take(k));
    } else {
        assert(xs.take(k) =~= xs);
        assert(ys.take(k) =~= ys);
    }
}

pub proof fn lemma_same_entries_prefix(xs: Seq<EntryV>, ys: Seq<EntryV>, k: int)
    requires
        0 <= k <= xs.len(),
        xs.len() == ys.len(),
        same_entries(xs, ys),
    ensures
        same_entries(xs.take(k), ys.take(k)),
    decreases xs.len(),
{
    if k < xs.len() {
        lemma_same_entries_prefix(xs.subrange(0, xs.len() - 1), ys.subrange(0, ys.len() - 1), k);
        assert(xs.subrange(0, xs.len() - 1).take(k) =~= xs.take(k));
        assert(ys.subrange(0, ys.len() - 1).take(k) =~= ys.take(k));
    } else {
        assert(xs.take(k) =~= xs);
        assert(ys.take(k) =~= ys);
    }
}

/// Whether two strings are equal.
pub fn str_eq(a: &str, b: &str) -> (r: bool)
    ensures
        r == (a@ == b@),
{
    let n = a.unicode_len();
    if n != b.unicode_len() {
        return false;
    }
    let mut i: usize = 0;
    while i < n
        invariant
            n == a@.len(),
            n == b@.len(),
            i <= n,
            a@.take(i as int) == b@.take(i as int),
        decreases n - i,
    {
        if a.get_char(i) != b.get_char(i) {
            assert(a@[i as int] != b@[i as int]);
            return false;
        }
        assert(a@.take(i + 1) =~= a@.take(i as int).push(a@[i as int]));
        assert(b@.take(i + 1) =~= b@.take(i as int).push(b@[i as int]));
        i = i + 1;
    }
    assert(a@.take(n as int) =~= a@);
    assert(b@.take(n as int) =~= b@);
    true
}


/// A copy of a node, with its positions.
pub fn copy_node(n: &Node) -> (r: Node)
    ensures
        r@ == n@,
    decreases n,
{
    proof {
        lemma_view_unfold(*n);
    }
    let data = match &n.data {
        YamlData::Null => YamlData::Null,
        YamlData::Boolean(x) => YamlData::Boolean(*x),
        YamlData::Integer(x) => YamlData::Integer(*x),
        YamlData::Float(x) => YamlData::Float(*x),
        YamlData::String(x) => YamlData::String(x.clone()),
        YamlData::Representation(x) => YamlData::Representation(x.clone()),
        YamlData::Sequence(xs) => {
            let mut out: Vec<Node> = Vec::new();
            let mut i: usize = 0;
            proof {
                lemma_nodes_view(xs@);
            }
            while i < xs.len()
                invariant
                    i <= xs.len(),
                    n.data == YamlData::Sequence(*xs),
                    nodes_view(xs@).len() == xs@.len(),
                    forall|k: int| 0 <= k < xs@.len() ==> #[trigger] nodes_view(xs@)[k] == node_view(xs@[k]),
                    nodes_view(out@) == nodes_view(xs@).take(i as int),
                decreases xs.len() - i,
            {
                proof {
                    assert(decreases_to!(*n => n.data));
                    assert(decreases_to!(n.data => n.data->Sequence_0));
                    assert(decreases_to!(*xs => xs@));
                    assert(decreases_to!(xs@ => xs@[i as int]));
                }
                let c = copy_node(&xs[i]);
                let ghost prev = out@;
                out.push(c);
                proof {
                    assert(out@.subrange(0, out@.len() - 1) =~= prev);
                    assert(nodes_view(out@) == nodes_view(prev).push(node_view(c)));
                    assert(nodes_view(xs@).take(i + 1) =~= nodes_view(xs@).take(i as int).push(nodes_view(xs@)[i as int]));
                }
                i = i + 1;
            }
            assert(nodes_view(xs@).take(xs.len() as int) =~= nodes_view(xs@));
            YamlData::Sequence(out)
        },
        YamlData::Mapping(xs) => {
            let mut out: Vec<Entry> = Vec::new();
            let mut i: usize = 0;
            proof {
                lemma_entries_view(xs@);
            }
            while i < xs.len()
                invariant
                    i <= xs.len(),
                    n.data == YamlData::Mapping(*xs),
                    entries_view(xs@).len() == xs@.len(),
                    forall|k: int|
                        0 <= k < xs@.len() ==> #[trigger] entries_view(xs@)[k] == (EntryV {
                            key: xs@[k].key@,
                            key_span: xs@[k].key_span,
                            value: node_view(xs@[k].value),
                        }),
                    entries_view(out@) == entries_view(xs@).take(i as int),
                decreases xs.len() - i,
            {
                proof {
                    assert(decreases_to!(*n => n.data));
                    assert(decreases_to!(n.data => n.data->Mapping_0));
                    assert(decreases_to!(*xs => xs@));
                    assert(decreases_to!(xs@ => xs@[i as int]));
                    assert(decreases_to!(xs@[i as int] => xs@[i as int].value));
                }
                let v = copy_node(&xs[i].value);
                let e = Entry { key: xs[i].key.clone(), key_span: xs[i].key_span, value: v };
                let ghost prev = out@;
                out.push(e);
                proof {
                    assert(out@.subrange(0, out@.len() - 1) =~= prev);
                    assert(entries_view(xs@).take(i + 1) =~= entries_view(xs@).take(i as int).push(entries_view(xs@)[i as int]));
                }
                i = i + 1;
            }
            assert(entries_view(xs@).take(xs.len() as int) =~= entries_view(xs@));
            YamlData::Mapping(out)
        },
        YamlData::Tagged(h, t, x) => {
            assert(decreases_to!(*n => **x));
            let c = copy_node(x);
            YamlData::Tagged(h.clone(), t.clone(), Box::new(c))
        },
        YamlData::Alias(x) => YamlData::Alias(*x),
        YamlData::BadValue => YamlData::BadValue,
    };
    let r = Node { span: n.span, data };
    proof {
        lemma_view_unfold(r);
    }
    r
}

// ---------------------------------------------------------------------------
// Reading YAML text
// ---------------------------------------------------------------------------

/// Why a text could not be read as YAML: what the scanner reported, and
/// where.
#[derive(Debug, Clone, PartialEq, Eq)]
pub struct YamlError {
    pub message: String,
    pub line: usize,
    pub col: usize,
}

pub ghost struct YamlErrorV {
    pub message: Seq<char>,
    pub line: usize,
    pub col: usize,
}

impl View for YamlError {
    type V = YamlErrorV;

    open spec fn view(&self) -> YamlErrorV {
        YamlErrorV { message: self.message@, line: self.line, col: self.col }
    }
}

/// What `saphyr` reads from a text: its documents, each with the positions
/// of its nodes, or the error it reports.
pub uninterp spec fn yaml_documents(text: Seq<char>) -> Result<Seq<NodeV>, YamlErrorV>;

#[verifier::external_type_specification]
#[verifier::external_body]
pub struct ExMarkedYamlOwned(saphyr::MarkedYamlOwned);

/// Converts a node of `saphyr`'s tree into the library's, variant for
/// variant; a key of a mapping becomes its text.
#[verifier::external_body]
fn node_of(m: &saphyr::MarkedYamlOwned) -> Node {
    let data = match &m.data {
        YamlDataOwned::Sequence(v) => YamlData::Sequence(v.iter().map(node_of).collect()),
        YamlDataOwned::Mapping(v) => YamlData::Mapping(
            v.iter().map(|(k, v)| Entry { key: key_text(k), key_span: span_of(k), value: node_of(v) }).collect(),
        ),
        YamlDataOwned::Tagged(t, v) => YamlData::Tagged(t.handle.clone(), t.suffix.clone(), Box::new(node_of(v))),
        _ => leaf_of(m),
    };
    Node { span: span_of(m), data }
}

/// Converts a scalar, alias or bad value of `saphyr`'s tree; a floating
/// point number becomes its bits.
#[verifier::external_body]
fn leaf_of(m: &saphyr::MarkedYamlOwned) -> YamlData {
    match &m.data {
        YamlDataOwned::Representation(s, _, _) => YamlData::Representation(s.clone()),
        YamlDataOwned::Value(ScalarOwned::Null) => YamlData::Null,
        YamlDataOwned::Value(ScalarOwned::Boolean(b)) => YamlData::Boolean(*b),
        YamlDataOwned::Value(ScalarOwned::Integer(i)) => YamlData::Integer(*i),
        YamlDataOwned::Value(ScalarOwned::FloatingPoint(f)) => YamlData::Float(f.0.to_bits()),
        YamlDataOwned::Value(ScalarOwned::String(s)) => YamlData::String(s.clone()),
        YamlDataOwned::Alias(a) => YamlData::Alias(*a),
        _ => YamlData::BadValue,
    }
}

/// The text of a mapping key: a string as it is, any other key as
/// `saphyr`'s `Debug` writes its data.
#[verifier::external_body]
fn key_text(k: &saphyr::MarkedYamlOwned) -> String {
    match &k.data {
        YamlDataOwned::Value(ScalarOwned::String(s)) => s.clone(),
        YamlDataOwned::Representation(s, _, _) => s.clone(),
        other => format!("{other:?}"),
    }
}

/// The text of the mapping key that a token names: `saphyr` reads the token
/// as a scalar (so `1` is an integer and `true` a boolean), and the key's
/// text is then written as [`key_text`] writes the keys of a document.
pub uninterp spec fn token_key_text(t: Seq<char>) -> Seq<char>;

/// The key a token names, with `saphyr::MarkedYamlOwned::value_from_str`
/// (the node that `from_bare_yaml(Yaml::value_from_str(..))` also gives),
/// written as [`key_text`] writes the keys of a document. The contract
/// names the result as a function of the token alone.
#[verifier::external_body]
pub(crate) fn key_of_token(t: &str) -> (r: String)
    ensures
        r@ == token_key_text(t@),
{
    match saphyr::MarkedYamlOwned::value_from_str(t).data {
        YamlDataOwned::Value(ScalarOwned::String(s)) => s,
        YamlDataOwned::Representation(s, _, _) => s,
        other => format!("{other:?}"),
    }
}

/// The span of a node of `saphyr`'s tree.
#[verifier::external_body]
fn span_of(m: &saphyr::MarkedYamlOwned) -> Span {
    let (a, b) = (&m.span.start, &m.span.end);
    Span {
        start: Marker { index: a.index(), line: a.line(), col: a.col() },
        end: Marker { index: b.index(), line: b.line(), col: b.col() },
    }
}

/// Reads the YAML documents of a text, with
/// `saphyr::MarkedYamlOwned::load_from_str`, converted into the library's
/// nodes. The contract names the outcome, documents or error, as a function
/// of the text alone.
#[verifier::external_body]
pub(crate) fn parse_yaml(text: &str) -> (r: Result<Vec<Node>, YamlError>)
    ensures
        yaml_documents(text@) == match r {
            Ok(docs) => Ok(nodes_view(docs@)),
            Err(e) => Err(e@),
        },
{
    match saphyr::MarkedYamlOwned::load_from_str(text) {
        Ok(docs) => Ok(docs.iter().map(node_of).collect()),
        Err(e) => Err(YamlError { message: e.info().to_string(), line: e.marker().line(), col: e.marker().col() }),
    }
}

} // verus!
