//! Patches applied to documents before they are compared: JSON patch
//! operations on the documents that look like a given JSON value.
use crate::diff::{find_key, first_key, lemma_first_key_stable};
use crate::path::{chars_of, digits_exec, digits_value, is_digit};
use crate::source::YamlSource;
use crate::yaml::{
    copy_node, entries_view, float_eq, float_is_nan, float_is_zero, floats_equal, key_of_token, token_key_text, lemma_entries_view, lemma_nodes_view, lemma_view_unfold, nodes_view, parse_yaml, str_eq,
    yaml_documents, DataV, Entry, EntryV, Marker, Node, NodeV, Span, YamlData,
};
use vstd::prelude::*;

verus! {

// ---------------------------------------------------------------------------
// Which documents a patch applies to
// ---------------------------------------------------------------------------

/// A JSON number: a non-negative or a negative integer, or a float held by
/// its bits.
#[derive(Debug, Clone, Copy, PartialEq, Eq)]
pub enum JsonNumber {
    PosInt(u64),
    NegInt(i64),
    Float(u64),
}

/// A JSON value; an object holds its entries in key order.
#[derive(Debug)]
pub enum JsonValue {
    Null,
    Bool(bool),
    Number(JsonNumber),
    String(String),
    Array(Vec<JsonValue>),
    Object(Vec<(String, JsonValue)>),
}

/// The number as an `i64`, where it is an integer that fits.
pub open spec fn as_i64(n: JsonNumber) -> Option<i64> {
    match n {
        JsonNumber::PosInt(u) => if u <= i64::MAX {
            Some(u as i64)
        } else {
            None
        },
        JsonNumber::NegInt(i) => Some(i),
        JsonNumber::Float(_) => None,
    }
}

/// Whether a document looks like the JSON value: null, booleans, integers,
/// floats and strings are equal; each element of an array is like the
/// element at its index, as far as both reach; each entry of an object is
/// like the value under its key, which must be present.
pub open spec fn json_matches(j: JsonValue, n: NodeV) -> bool
    decreases j,
{
    match j {
        JsonValue::Null => n.data is Null,
        JsonValue::Bool(a) => n.data matches DataV::Boolean(b) && a == b,
        JsonValue::Number(num) => match n.data {
            DataV::Integer(b) => as_i64(num) == Some(b),
            DataV::Float(b) => num matches JsonNumber::Float(a) && float_eq(a, b),
            _ => false,
        },
        JsonValue::String(a) => n.data matches DataV::String(b) && a@ == b,
        JsonValue::Array(req) => match n.data {
            DataV::Sequence(av) => forall|i: int|
                0 <= i < req@.len() && i < av.len() ==> json_matches(#[trigger] req@[i], av[i]),
            _ => false,
        },
        JsonValue::Object(req) => match n.data {
            DataV::Mapping(es) => forall|i: int|
                0 <= i < req@.len() ==> match first_key(es, token_key_text((#[trigger] req@[i]).0@), es.len() as int) {
                    Some(x) => json_matches(req@[i].1, es[x].value),
                    None => false,
                },
            _ => false,
        },
    }
}

/// Whether a document looks like the JSON value, as [`json_matches`]
/// states.
pub fn document_matches(document_like: &JsonValue, actual_doc: &Node) -> (r: bool)
    ensures
        r == json_matches(*document_like, actual_doc@),
    decreases document_like,
{
    proof {
        lemma_view_unfold(*actual_doc);
    }
    match (document_like, &actual_doc.data) {
        (JsonValue::Null, YamlData::Null) => true,
        (JsonValue::Bool(a), YamlData::Boolean(b)) => *a == *b,
        (JsonValue::Number(n), YamlData::Integer(b)) => match n {
            JsonNumber::PosInt(u) => *u <= 9223372036854775807u64 && *u as i64 == *b,
            JsonNumber::NegInt(i) => *i == *b,
            JsonNumber::Float(_) => false,
        },
        (JsonValue::Number(n), YamlData::Float(b)) => match n {
            JsonNumber::Float(a) => floats_equal(*a, *b),
            _ => false,
        },
        (JsonValue::String(a), YamlData::String(b)) => str_eq(a.as_str(), b.as_str()),
        (JsonValue::Array(required), YamlData::Sequence(available)) => {
            proof {
                lemma_nodes_view(available@);
            }
            let ghost av = nodes_view(available@);
            let mut i: usize = 0;
            while i < required.len() && i < available.len()
                invariant
                    i <= required@.len(),
                    *document_like == JsonValue::Array(*required),
                    av == nodes_view(available@),
                    av.len() == available@.len(),
                    forall|k: int| 0 <= k < available@.len() ==> #[trigger] av[k] == available@[k]@,
                    actual_doc@.data == DataV::Sequence(av),
                    forall|k: int| 0 <= k < i && k < av.len() ==> json_matches(#[trigger] required@[k], av[k]),
                decreases required.len() - i,
            {
                assert(decreases_to!(*document_like => document_like->Array_0));
                assert(decreases_to!(*document_like => required@[i as int]));
                if !document_matches(&required[i], &available[i]) {
                    assert(!json_matches(required@[i as int], av[i as int]));
                    return false;
                }
                i = i + 1;
            }
            true
        },
        (JsonValue::Object(required), YamlData::Mapping(available)) => {
            proof {
                lemma_entries_view(available@);
            }
            let ghost es = entries_view(available@);
            let mut i: usize = 0;
            while i < required.len()
                invariant
                    i <= required@.len(),
                    *document_like == JsonValue::Object(*required),
                    es == entries_view(available@),
                    es.len() == available@.len(),
                    forall|k: int| 0 <= k < available@.len() ==> #[trigger] es[k] == (EntryV {
                        key: available@[k].key@,
                        key_span: available@[k].key_span,
                        value: available@[k].value@,
                    }),
                    actual_doc@.data == DataV::Mapping(es),
                    forall|k: int|
                        0 <= k < i ==> match first_key(es, token_key_text((#[trigger] required@[k]).0@), es.len() as int) {
                            Some(x) => json_matches(required@[k].1, es[x].value),
                            None => false,
                        },
                decreases required.len() - i,
            {
                let key = key_of_token(required[i].0.as_str());
                let found = find_key(available, key.as_str(), available.len());
                match found {
                    None => {
                        assert(first_key(es, token_key_text(required@[i as int].0@), es.len() as int) is None);
                        return false;
                    },
                    Some(x) => {
                        assert(decreases_to!(*document_like => document_like->Object_0));
                        assert(decreases_to!(*document_like => required@[i as int].1));
                        if !document_matches(&required[i].1, &available[x].value) {
                            assert(!json_matches(required@[i as int].1, es[x as int].value));
                            return false;
                        }
                    },
                }
                i = i + 1;
            }
            true
        },
        _ => false,
    }
}

// ---------------------------------------------------------------------------
// Patch operations
// ---------------------------------------------------------------------------

/// A JSON patch operation: its path as the tokens of a JSON pointer, each
/// decoded, and its value as the document it reads as.
#[derive(Debug)]
pub enum PatchOp {
    /// Replace the value at the path.
    Replace { path: Vec<String>, value: Node },
    /// Add a key, the last token of the path, to the mapping at the path
    /// before it.
    Add { path: Vec<String>, value: Node },
    /// Any other operation, which is not supported.
    Other,
}

/// Operations to apply to the documents that look like `document_like`, or
/// to all documents where it is absent.
#[derive(Debug)]
pub struct PrePatch {
    pub name: Option<String>,
    pub document_like: Option<JsonValue>,
    pub patches: Vec<PatchOp>,
}

/// Why a patch could not be applied.
#[derive(Debug, Clone, Copy, PartialEq, Eq, Structural)]
pub enum Error {
    /// The path of an operation leads nowhere in the document.
    ValueNotFoundAtPath,
}

pub open spec fn tokens_view(path: Seq<String>) -> Seq<Seq<char>> {
    path.map_values(|t: String| t@)
}

/// The index a token stands for: decimal digits without a leading zero,
/// within `usize`.
pub open spec fn index_token(t: Seq<char>) -> Option<int> {
    if t.len() > 0 && (forall|i: int| 0 <= i < t.len() ==> is_digit(#[trigger] t[i])) && (t.len() == 1 || t[0]
        != '0') && digits_value(t) <= usize::MAX {
        Some(digits_value(t) as int)
    } else {
        None
    }
}

/// The index a token stands for, as [`index_token`] states.
fn parse_index(t: &str) -> (r: Option<usize>)
    ensures
        match index_token(t@) {
            Some(n) => r == Some(n as usize),
            None => r is None,
        },
{
    let cs = chars_of(t);
    let n = cs.len();
    if n == 0 {
        return None;
    }
    let mut i: usize = 0;
    while i < n
        invariant
            i <= n,
            n == cs@.len(),
            cs@ == t@,
            forall|k: int| 0 <= k < i ==> is_digit(#[trigger] cs@[k]),
        decreases n - i,
    {
        if !('0' <= cs[i] && cs[i] <= '9') {
            return None;
        }
        i = i + 1;
    }
    if n > 1 && cs[0] == '0' {
        return None;
    }
    assert(cs@.subrange(0, n as int) =~= cs@);
    digits_exec(&cs, 0, n)
}

/// What is done where the path leads.
pub ghost enum Leaf {
    /// The value there is replaced.
    Replace(NodeV),
    /// The key is set in the mapping there.
    Insert(Seq<char>, NodeV),
}

/// The outcome of one operation on a document.
pub ghost enum Outcome {
    Done(NodeV),
    /// The path leads nowhere: out of a sequence, or into a scalar.
    NotFound,
    /// The path names a key that a mapping lacks: the lookup panics.
    Panics,
}

/// The position of a key that nothing held before.
pub open spec fn zero_span() -> Span {
    Span { start: Marker { index: 0, line: 0, col: 0 }, end: Marker { index: 0, line: 0, col: 0 } }
}

/// The entries with `k` set to `v`: an entry with key `k` keeps its key and
/// moves to the end with the new value; otherwise a new entry goes last.
pub open spec fn insert_entry(es: Seq<EntryV>, k: Seq<char>, v: NodeV) -> Seq<EntryV> {
    match first_key(es, k, es.len() as int) {
        Some(i) => es.remove(i).push(EntryV { key: es[i].key, key_span: es[i].key_span, value: v }),
        None => es.push(EntryV { key: k, key_span: zero_span(), value: v }),
    }
}

/// What is done where the path leads: a replaced value, or a key set in a
/// mapping (anything else left as it is).
pub open spec fn apply_leaf(n: NodeV, leaf: Leaf) -> NodeV {
    match leaf {
        Leaf::Replace(v) => v,
        Leaf::Insert(k, v) => match n.data {
            DataV::Mapping(es) => NodeV { span: n.span, data: DataV::Mapping(insert_entry(es, k, v)) },
            _ => n,
        },
    }
}

/// The document with `leaf` done where the tokens lead: through a
/// sequence by index, through a mapping by the key the token reads as (so
/// `1` names the integer key 1, not the text `"1"`).
pub open spec fn update_at(n: NodeV, ts: Seq<Seq<char>>, leaf: Leaf) -> Outcome
    decreases ts.len(),
{
    if ts.len() == 0 {
        Outcome::Done(apply_leaf(n, leaf))
    } else {
        match n.data {
            DataV::Sequence(items) => match index_token(ts[0]) {
                Some(i) => if i < items.len() {
                    match update_at(items[i], ts.drop_first(), leaf) {
                        Outcome::Done(c) => Outcome::Done(NodeV { span: n.span, data: DataV::Sequence(items.update(i, c)) }),
                        o => o,
                    }
                } else {
                    Outcome::NotFound
                },
                None => Outcome::NotFound,
            },
            DataV::Mapping(es) => match first_key(es, token_key_text(ts[0]), es.len() as int) {
                Some(k) => match update_at(es[k].value, ts.drop_first(), leaf) {
                    Outcome::Done(c) => Outcome::Done(
                        NodeV {
                            span: n.span,
                            data: DataV::Mapping(es.update(k, EntryV { key: es[k].key, key_span: es[k].key_span, value: c })),
                        },
                    ),
                    o => o,
                },
                None => Outcome::Panics,
            },
            _ => Outcome::NotFound,
        }
    }
}

/// The outcome of one operation on a document. An addition with an empty
/// path does nothing.
pub open spec fn op_outcome(n: NodeV, op: PatchOp) -> Outcome {
    match op {
        PatchOp::Replace { path, value } => update_at(n, tokens_view(path@), Leaf::Replace(value@)),
        PatchOp::Add { path, value } => if path@.len() == 0 {
            Outcome::Done(n)
        } else {
            update_at(n, tokens_view(path@).drop_last(), Leaf::Insert(token_key_text(path@.last()@), value@))
        },
        PatchOp::Other => Outcome::Panics,
    }
}

/// The outcome of the operations on a document.
pub ghost enum RunV {
    /// All were done.
    Done(NodeV),
    /// One found nothing at its path: the document as the ones before it
    /// left it.
    Failed(NodeV),
    Panics,
}

/// The operations done in turn, up to the first that fails.
pub open spec fn run_ops(n: NodeV, ops: Seq<PatchOp>) -> RunV
    decreases ops.len(),
{
    if ops.len() == 0 {
        RunV::Done(n)
    } else {
        match run_ops(n, ops.drop_last()) {
            RunV::Done(m) => match op_outcome(m, ops.last()) {
                Outcome::Done(m2) => RunV::Done(m2),
                Outcome::NotFound => RunV::Failed(m),
                Outcome::Panics => RunV::Panics,
            },
            other => other,
        }
    }
}

/// The exec side of [`Leaf`].
enum LeafOp<'a> {
    Replace(&'a Node),
    Insert(&'a str, &'a Node),
}

spec fn leaf_view(l: LeafOp) -> Leaf {
    match l {
        LeafOp::Replace(v) => Leaf::Replace(v@),
        LeafOp::Insert(k, v) => Leaf::Insert(k@, v@),
    }
}

/// The exec side of [`Outcome`], the node travelling beside it.
#[derive(PartialEq, Eq, Structural)]
enum Step {
    Done,
    NotFound,
    Panics,
}

/// Sets `k` in the entries, as [`insert_entry`] states.
fn insert_key(es: &mut Vec<Entry>, k: &str, v: Node)
    ensures
        entries_view(final(es)@) == insert_entry(entries_view(old(es)@), k@, v@),
{
    let ghost ev = entries_view(es@);
    proof {
        lemma_entries_view(es@);
    }
    let n = es.len();
    match find_key(es, k, n) {
        Some(i) => {
            let old_entry = es.remove(i);
            let e = Entry { key: old_entry.key, key_span: old_entry.key_span, value: v };
            es.push(e);
            proof {
                lemma_entries_view(es@);
                assert(entries_view(es@) =~= ev.remove(i as int).push(
                    EntryV { key: ev[i as int].key, key_span: ev[i as int].key_span, value: v@ },
                ));
            }
        },
        None => {
            let e = Entry { key: k.to_owned(), key_span: Span { start: Marker { index: 0, line: 0, col: 0 }, end: Marker { index: 0, line: 0, col: 0 } }, value: v };
            es.push(e);
            proof {
                lemma_entries_view(es@);
                assert(entries_view(es@) =~= ev.push(EntryV { key: k@, key_span: zero_span(), value: v@ }));
            }
        },
    }
}

/// Does `leaf` where the tokens `path[j..end]` lead, as [`update_at`]
/// states; the node comes back unchanged where that fails.
fn update_node(n: Node, path: &Vec<String>, j: usize, end: usize, leaf: &LeafOp) -> (r: (Node, Step))
    requires
        j <= end <= path@.len(),
    ensures
        match update_at(n@, tokens_view(path@).subrange(j as int, end as int), leaf_view(*leaf)) {
            Outcome::Done(m) => r.1 == Step::Done && r.0@ == m,
            Outcome::NotFound => r.1 == Step::NotFound && r.0@ == n@,
            Outcome::Panics => r.1 == Step::Panics && r.0@ == n@,
        },
    decreases end - j,
{
    let ghost ts = tokens_view(path@).subrange(j as int, end as int);
    proof {
        lemma_view_unfold(n);
    }
    let Node { span, data } = n;
    if j == end {
        match leaf {
            LeafOp::Replace(v) => {
                let c = copy_node(v);
                return (c, Step::Done);
            },
            LeafOp::Insert(k, v) => {
                match data {
                    YamlData::Mapping(mut es) => {
                        let c = copy_node(v);
                        insert_key(&mut es, k, c);
                        let m = Node { span, data: YamlData::Mapping(es) };
                        proof {
                            lemma_view_unfold(m);
                        }
                        return (m, Step::Done);
                    },
                    other => {
                        let m = Node { span, data: other };
                        proof {
                            lemma_view_unfold(m);
                        }
                        return (m, Step::Done);
                    },
                }
            },
        }
    }
    assert(ts[0] == path@[j as int]@);
    assert(ts.drop_first() =~= tokens_view(path@).subrange(j + 1, end as int));
    match data {
        YamlData::Sequence(mut items) => {
            let ghost iv = nodes_view(items@);
            proof {
                lemma_nodes_view(items@);
            }
            let idx = parse_index(path[j].as_str());
            match idx {
                Some(i) => {
                    if i < items.len() {
                        let child = items.remove(i);
                        assert(child@ == iv[i as int]);
                        let (c2, st) = update_node(child, path, j + 1, end, leaf);
                        items.insert(i, c2);
                        let m = Node { span, data: YamlData::Sequence(items) };
                        proof {
                            lemma_view_unfold(m);
                            lemma_nodes_view(items@);
                            if st == Step::Done {
                                assert(nodes_view(items@) =~= iv.update(i as int, c2@));
                            } else {
                                assert(nodes_view(items@) =~= iv);
                            }
                        }
                        return (m, st);
                    } else {
                        let m = Node { span, data: YamlData::Sequence(items) };
                        proof {
                            lemma_view_unfold(m);
                        }
                        return (m, Step::NotFound);
                    }
                },
                None => {
                    let m = Node { span, data: YamlData::Sequence(items) };
                    proof {
                        lemma_view_unfold(m);
                    }
                    return (m, Step::NotFound);
                },
            }
        },
        YamlData::Mapping(mut es) => {
            let ghost ev = entries_view(es@);
            proof {
                lemma_entries_view(es@);
            }
            let n_es = es.len();
            let key = key_of_token(path[j].as_str());
            match find_key(&es, key.as_str(), n_es) {
                Some(k) => {
                    let e = es.remove(k);
                    let Entry { key, key_span, value } = e;
                    assert(value@ == ev[k as int].value);
                    let (v2, st) = update_node(value, path, j + 1, end, leaf);
                    es.insert(k, Entry { key, key_span, value: v2 });
                    let m = Node { span, data: YamlData::Mapping(es) };
                    proof {
                        lemma_view_unfold(m);
                        lemma_entries_view(es@);
                        if st == Step::Done {
                            assert(entries_view(es@) =~= ev.update(
                                k as int,
                                EntryV { key: ev[k as int].key, key_span: ev[k as int].key_span, value: v2@ },
                            ));
                        } else {
                            assert(entries_view(es@) =~= ev);
                        }
                    }
                    (m, st)
                },
                None => {
                    let m = Node { span, data: YamlData::Mapping(es) };
                    proof {
                        lemma_view_unfold(m);
                    }
                    (m, Step::Panics)
                },
            }
        },
        other => {
            let m = Node { span, data: other };
            proof {
                lemma_view_unfold(m);
            }
            (m, Step::NotFound)
        },
    }
}

/// One operation on a document, as [`op_outcome`] states; the document
/// comes back unchanged where the operation fails.
fn apply_op(n: Node, op: &PatchOp) -> (r: (Node, Step))
    ensures
        match op_outcome(n@, *op) {
            Outcome::Done(m) => r.1 == Step::Done && r.0@ == m,
            Outcome::NotFound => r.1 == Step::NotFound && r.0@ == n@,
            Outcome::Panics => r.1 == Step::Panics && r.0@ == n@,
        },
{
    match op {
        PatchOp::Replace { path, value } => {
            let leaf = LeafOp::Replace(value);
            assert(tokens_view(path@).subrange(0, path@.len() as int) =~= tokens_view(path@));
            update_node(n, path, 0, path.len(), &leaf)
        },
        PatchOp::Add { path, value } => {
            if path.len() == 0 {
                return (n, Step::Done);
            }
            let last = path.len() - 1;
            let key = key_of_token(path[last].as_str());
            let leaf = LeafOp::Insert(key.as_str(), value);
            assert(tokens_view(path@).subrange(0, last as int) =~= tokens_view(path@).drop_last());
            update_node(n, path, 0, last, &leaf)
        },
        PatchOp::Other => (n, Step::Panics),
    }
}

/// The operations on a document, in turn, as [`run_ops`] states.
fn apply_patch(ops: &Vec<PatchOp>, n: Node) -> (r: (Node, Step))
    ensures
        match run_ops(n@, ops@) {
            RunV::Done(m) => r.1 == Step::Done && r.0@ == m,
            RunV::Failed(m) => r.1 == Step::NotFound && r.0@ == m,
            RunV::Panics => r.1 == Step::Panics,
        },
{
    let mut cur = n;
    let mut i: usize = 0;
    assert(ops@.take(0) =~= Seq::<PatchOp>::empty());
    while i < ops.len()
        invariant
            i <= ops@.len(),
            run_ops(n@, ops@.take(i as int)) == RunV::Done(cur@),
        decreases ops.len() - i,
    {
        let ghost before = cur@;
        assert(ops@.take(i + 1).drop_last() =~= ops@.take(i as int));
        assert(ops@.take(i + 1).last() == ops@[i as int]);
        let (next, st) = apply_op(cur, &ops[i]);
        if st != Step::Done {
            proof {
                lemma_run_stops(n@, ops@, i + 1);
            }
            return (next, st);
        }
        cur = next;
        i = i + 1;
    }
    assert(ops@.take(ops.len() as int) =~= ops@);
    (cur, Step::Done)
}

/// Once the operations fail or panic, those after change nothing.
pub proof fn lemma_run_stops(n: NodeV, ops: Seq<PatchOp>, k: int)
    requires
        0 <= k <= ops.len(),
        !(run_ops(n, ops.take(k)) is Done),
    ensures
        run_ops(n, ops) == run_ops(n, ops.take(k)),
    decreases ops.len() - k,
{
    if k < ops.len() {
        assert(ops.take(k + 1).drop_last() =~= ops.take(k));
        lemma_run_stops(n, ops, k + 1);
    } else {
        assert(ops.take(k) =~= ops);
    }
}

// ---------------------------------------------------------------------------
// Patching documents
// ---------------------------------------------------------------------------

/// Whether a patch applies to a document: it looks like the patch's
/// `document_like`, where there is one.
pub open spec fn selects(document_like: Option<JsonValue>, n: NodeV) -> bool {
    match document_like {
        Some(j) => json_matches(j, n),
        None => true,
    }
}

/// The outcome of a patch on the documents.
pub ghost enum DocsRun {
    Done(Seq<NodeV>),
    /// The operations found nothing at a path in one document: it and the
    /// documents before it as patched so far, those after it untouched.
    Failed(Seq<NodeV>),
    Panics,
}

/// A patch applied to the documents in turn, up to the first that fails.
pub open spec fn patch_nodes(p: PrePatch, ns: Seq<NodeV>) -> DocsRun
    decreases ns.len(),
{
    if ns.len() == 0 {
        DocsRun::Done(seq![])
    } else {
        let n = ns.last();
        match patch_nodes(p, ns.drop_last()) {
            DocsRun::Done(prev) => if !selects(p.document_like, n) {
                DocsRun::Done(prev.push(n))
            } else {
                match run_ops(n, p.patches@) {
                    RunV::Done(m) => DocsRun::Done(prev.push(m)),
                    RunV::Failed(m) => DocsRun::Failed(prev.push(m)),
                    RunV::Panics => DocsRun::Panics,
                }
            },
            DocsRun::Failed(prev) => DocsRun::Failed(prev.push(n)),
            DocsRun::Panics => DocsRun::Panics,
        }
    }
}

pub open spec fn yamls(docs: Seq<YamlSource>) -> Seq<NodeV> {
    docs.map_values(|d: YamlSource| d.yaml@)
}

/// Two documents alike in all but their tree.
pub open spec fn same_but_yaml(a: YamlSource, b: YamlSource) -> bool {
    &&& a.file@ == b.file@
    &&& a.content@ == b.content@
    &&& a.index == b.index
    &&& a.start == b.start
    &&& a.end == b.end
    &&& a.first_line == b.first_line
    &&& a.last_line == b.last_line
}

/// A patch that selects none of the documents leaves them all as they are.
pub proof fn lemma_unselected_untouched(p: PrePatch, ns: Seq<NodeV>)
    requires
        forall|i: int| 0 <= i < ns.len() ==> !selects(p.document_like, #[trigger] ns[i]),
    ensures
        patch_nodes(p, ns) == DocsRun::Done(ns),
    decreases ns.len(),
{
    if ns.len() > 0 {
        lemma_unselected_untouched(p, ns.drop_last());
        assert(ns.drop_last().push(ns.last()) =~= ns);
    } else {
        assert(ns =~= Seq::<NodeV>::empty());
    }
}

/// Patches without operations leave every document as it is.
pub proof fn lemma_empty_patch_untouched(p: PrePatch, ns: Seq<NodeV>)
    requires
        p.patches@.len() == 0,
    ensures
        patch_nodes(p, ns) == DocsRun::Done(ns),
    decreases ns.len(),
{
    if ns.len() > 0 {
        lemma_empty_patch_untouched(p, ns.drop_last());
        assert(ns.drop_last().push(ns.last()) =~= ns);
    } else {
        assert(ns =~= Seq::<NodeV>::empty());
    }
}

/// Once a patch has failed on a document, it fails on every longer run.
pub proof fn lemma_patch_failed_stays(p: PrePatch, ns: Seq<NodeV>, k: int)
    requires
        0 <= k <= ns.len(),
        patch_nodes(p, ns.take(k)) is Failed,
    ensures
        patch_nodes(p, ns) is Failed,
    decreases ns.len() - k,
{
    if k < ns.len() {
        assert(ns.take(k + 1).drop_last() =~= ns.take(k));
        lemma_patch_failed_stays(p, ns, k + 1);
    } else {
        assert(ns.take(k) =~= ns);
    }
}

impl PrePatch {
    /// Whether applying the patch to the documents goes without a panic:
    /// no operation of another kind is reached, and no path names a key
    /// that a mapping lacks.
    pub fn can_apply(&self, documents: &Vec<YamlSource>) -> (r: bool)
        ensures
            r == !(patch_nodes(*self, yamls(documents@)) is Panics),
    {
        let ghost ys = yamls(documents@);
        let mut i: usize = 0;
        assert(ys.take(0) =~= Seq::<NodeV>::empty());
        while i < documents.len()
            invariant
                i <= documents@.len(),
                ys == yamls(documents@),
                patch_nodes(*self, ys.take(i as int)) is Done,
            decreases documents.len() - i,
        {
            let d = &documents[i];
            assert(ys[i as int] == d.yaml@);
            assert(ys.take(i + 1).drop_last() =~= ys.take(i as int));
            assert(ys.take(i + 1).last() == d.yaml@);
            let selected = match &self.document_like {
                Some(j) => document_matches(j, &d.yaml),
                None => true,
            };
            if selected {
                let c = copy_node(&d.yaml);
                let (_, st) = apply_patch(&self.patches, c);
                if st == Step::Panics {
                    proof {
                        lemma_patch_panics_stays(*self, ys, i + 1);
                    }
                    return false;
                }
                if st == Step::NotFound {
                    proof {
                        lemma_patch_failed_stays(*self, ys, i + 1);
                    }
                    return true;
                }
            }
            i = i + 1;
        }
        assert(ys.take(documents.len() as int) =~= ys);
        true
    }

    /// Applies the patch to each document it selects, in turn, as
    /// [`patch_nodes`] states; the first path that leads nowhere ends the
    /// work with an error. Only the trees of the documents change.
    pub fn apply_to(&self, documents: &mut Vec<YamlSource>) -> (r: Result<(), Error>)
        requires
            !(patch_nodes(*self, yamls(old(documents)@)) is Panics),
        ensures
            final(documents)@.len() == old(documents)@.len(),
            forall|i: int| 0 <= i < old(documents)@.len() ==> same_but_yaml(#[trigger] final(documents)@[i], old(documents)@[i]),
            match patch_nodes(*self, yamls(old(documents)@)) {
                DocsRun::Done(ns) => r is Ok && yamls(final(documents)@) == ns,
                DocsRun::Failed(ns) => r == Err::<(), Error>(Error::ValueNotFoundAtPath) && yamls(final(documents)@) == ns,
                DocsRun::Panics => true,
            },
    {
        let ghost olds = documents@;
        let ghost ys = yamls(olds);
        let mut rest: Vec<YamlSource> = Vec::new();
        std::mem::swap(documents, &mut rest);
        let total = rest.len();
        let mut failed = false;
        assert(ys.take(0) =~= Seq::<NodeV>::empty());
        assert(yamls(documents@) =~= Seq::<NodeV>::empty());
        assert(rest@.skip(0) =~= rest@);
        while rest.len() > 0
            invariant
                olds.len() == total,
                ys == yamls(olds),
                documents@.len() + rest@.len() == total,
                rest@ == olds.skip(documents@.len() as int),
                forall|i: int| 0 <= i < documents@.len() ==> same_but_yaml(#[trigger] documents@[i], olds[i]),
                !(patch_nodes(*self, ys) is Panics),
                patch_nodes(*self, ys.take(documents@.len() as int)) == if failed {
                    DocsRun::Failed(yamls(documents@))
                } else {
                    DocsRun::Done(yamls(documents@))
                },
            decreases rest.len(),
        {
            let k = documents.len();
            let ghost before = documents@;
            let d = rest.remove(0);
            assert(d == olds[k as int]);
            assert(rest@ =~= olds.skip(k + 1));
            assert(ys.take(k + 1).drop_last() =~= ys.take(k as int));
            assert(ys.take(k + 1).last() == d.yaml@);
            let YamlSource { file, yaml, content, index, start, end, first_line, last_line } = d;
            let selected = !failed && match &self.document_like {
                Some(j) => document_matches(j, &yaml),
                None => true,
            };
            let new_yaml = if selected {
                let (m, st) = apply_patch(&self.patches, yaml);
                if st == Step::NotFound {
                    failed = true;
                } else if st == Step::Panics {
                    proof {
                        if !(patch_nodes(*self, ys) is Panics) {
                            lemma_patch_panics_stays(*self, ys, k + 1);
                        }
                    }
                }
                m
            } else {
                yaml
            };
            let nd = YamlSource { file, yaml: new_yaml, content, index, start, end, first_line, last_line };
            documents.push(nd);
            assert(yamls(documents@) =~= yamls(before).push(nd.yaml@));
        }
        assert(ys.take(total as int) =~= ys);
        if failed {
            Err(Error::ValueNotFoundAtPath)
        } else {
            Ok(())
        }
    }
}

/// Once a patch panics on the documents so far, it panics on every longer
/// run.
pub proof fn lemma_patch_panics_stays(p: PrePatch, ns: Seq<NodeV>, k: int)
    requires
        0 <= k <= ns.len(),
        patch_nodes(p, ns.take(k)) is Panics,
    ensures
        patch_nodes(p, ns) is Panics,
    decreases ns.len() - k,
{
    if k < ns.len() {
        assert(ns.take(k + 1).drop_last() =~= ns.take(k));
        lemma_patch_panics_stays(p, ns, k + 1);
    } else {
        assert(ns.take(k) =~= ns);
    }
}

/// The trees of the documents once the patches are applied in turn, each
/// to the documents as the ones before it left them, whatever error one
/// meets; `None` where one of them panics.
pub open spec fn patch_all(ps: Seq<PrePatch>, ns: Seq<NodeV>) -> Option<Seq<NodeV>>
    decreases ps.len(),
{
    if ps.len() == 0 {
        Some(ns)
    } else {
        match patch_all(ps.drop_last(), ns) {
            Some(ms) => match patch_nodes(ps.last(), ms) {
                DocsRun::Done(x) => Some(x),
                DocsRun::Failed(x) => Some(x),
                DocsRun::Panics => None,
            },
            None => None,
        }
    }
}

/// Applies the patches in turn, as [`patch_all`] states, ignoring the
/// errors they meet. Returns `false`, and stops, before a patch that would
/// panic.
pub fn apply_patches(patches: &[PrePatch], documents: &mut Vec<YamlSource>) -> (r: bool)
    ensures
        final(documents)@.len() == old(documents)@.len(),
        forall|i: int| 0 <= i < old(documents)@.len() ==> same_but_yaml(#[trigger] final(documents)@[i], old(documents)@[i]),
        r == patch_all(patches@, yamls(old(documents)@)) is Some,
        r ==> patch_all(patches@, yamls(old(documents)@)) == Some(yamls(final(documents)@)),
{
    let ghost ys = yamls(documents@);
    let ghost olds = documents@;
    let mut i: usize = 0;
    assert(patches@.take(0) =~= Seq::<PrePatch>::empty());
    while i < patches.len()
        invariant
            i <= patches@.len(),
            ys == yamls(olds),
            olds == old(documents)@,
            documents@.len() == olds.len(),
            forall|k: int| 0 <= k < olds.len() ==> same_but_yaml(#[trigger] documents@[k], olds[k]),
            patch_all(patches@.take(i as int), ys) == Some(yamls(documents@)),
        decreases patches.len() - i,
    {
        assert(patches@.take(i + 1).drop_last() =~= patches@.take(i as int));
        assert(patches@.take(i + 1).last() == patches@[i as int]);
        let p = &patches[i];
        if !p.can_apply(documents) {
            proof {
                lemma_patch_all_none(patches@, ys, i + 1);
            }
            return false;
        }
        let ghost before = documents@;
        let _ = p.apply_to(documents);
        assert forall|k: int| 0 <= k < olds.len() implies same_but_yaml(#[trigger] documents@[k], olds[k]) by {
            assert(same_but_yaml(documents@[k], before[k]));
            assert(same_but_yaml(before[k], olds[k]));
        }
        i = i + 1;
    }
    assert(patches@.take(patches.len() as int) =~= patches@);
    true
}

/// Once a patch panics, the run of all of them does.
pub proof fn lemma_patch_all_none(ps: Seq<PrePatch>, ns: Seq<NodeV>, k: int)
    requires
        0 <= k <= ps.len(),
        patch_all(ps.take(k), ns) is None,
    ensures
        patch_all(ps, ns) is None,
    decreases ps.len() - k,
{
    if k < ps.len() {
        assert(ps.take(k + 1).drop_last() =~= ps.take(k));
        lemma_patch_all_none(ps, ns, k + 1);
    } else {
        assert(ps.take(k) =~= ps);
    }
}

/// The value of an operation, given as JSON text: the first document the
/// text reads as, if it reads as any.
pub fn patch_value(json_text: &str) -> (r: Option<Node>)
    ensures
        match yaml_documents(json_text@) {
            Ok(ds) => if ds.len() > 0 {
                r matches Some(n) && n@ == ds[0]
            } else {
                r is None
            },
            Err(_) => r is None,
        },
{
    match parse_yaml(json_text) {
        Ok(mut docs) => {
            proof {
                lemma_nodes_view(docs@);
            }
            if docs.len() > 0 {
                Some(docs.remove(0))
            } else {
                None
            }
        },
        Err(_) => None,
    }
}

/// The node the tokens lead to: through a sequence by index, through a
/// mapping by the key the token reads as.
pub open spec fn token_target(n: NodeV, ts: Seq<Seq<char>>) -> Option<NodeV>
    decreases ts.len(),
{
    if ts.len() == 0 {
        Some(n)
    } else {
        match n.data {
            DataV::Sequence(items) => match index_token(ts[0]) {
                Some(i) => if i < items.len() {
                    token_target(items[i], ts.drop_first())
                } else {
                    None
                },
                None => None,
            },
            DataV::Mapping(es) => match first_key(es, token_key_text(ts[0]), es.len() as int) {
                Some(k) => token_target(es[k].value, ts.drop_first()),
                None => None,
            },
            _ => None,
        }
    }
}

/// Where the keys stand unchanged, the first entry with a key stands where
/// it stood.
proof fn lemma_first_key_same_keys(es: Seq<EntryV>, fs: Seq<EntryV>, k: Seq<char>, n: int)
    requires
        es.len() == fs.len(),
        forall|j: int| 0 <= j < es.len() ==> #[trigger] es[j].key == fs[j].key,
    ensures
        first_key(es, k, n) == first_key(fs, k, n),
    decreases n,
{
    if n > 0 && n <= es.len() {
        lemma_first_key_same_keys(es, fs, k, n - 1);
    }
}

/// An update that succeeds changes the node the tokens lead to, and that
/// node alone on the way: what the tokens then lead to is the leaf done on
/// what they led to before. It succeeds exactly where the tokens lead to a
/// node.
pub proof fn lemma_update_then_read(n: NodeV, ts: Seq<Seq<char>>, leaf: Leaf)
    ensures
        update_at(n, ts, leaf) matches Outcome::Done(m) ==> token_target(m, ts) == Some(
            apply_leaf(token_target(n, ts)->0, leaf),
        ),
        update_at(n, ts, leaf) is Done <==> token_target(n, ts) is Some,
    decreases ts.len(),
{
    if ts.len() > 0 {
        match n.data {
            DataV::Sequence(items) => match index_token(ts[0]) {
                Some(i) => if i < items.len() {
                    lemma_update_then_read(items[i], ts.drop_first(), leaf);
                },
                None => {},
            },
            DataV::Mapping(es) => match first_key(es, token_key_text(ts[0]), es.len() as int) {
                Some(k) => {
                    crate::node::lemma_first_key_bounds(es, token_key_text(ts[0]), es.len() as int);
                    lemma_update_then_read(es[k].value, ts.drop_first(), leaf);
                    match update_at(es[k].value, ts.drop_first(), leaf) {
                        Outcome::Done(c) => {
                            let fs = es.update(k, EntryV { key: es[k].key, key_span: es[k].key_span, value: c });
                            lemma_first_key_same_keys(es, fs, token_key_text(ts[0]), es.len() as int);
                        },
                        _ => {},
                    }
                },
                None => {},
            },
            _ => {},
        }
    }
}

/// A replacement that succeeds leaves the new value where the tokens lead,
/// through sequences and mappings alike; it succeeds exactly where the
/// tokens lead to a node.
pub proof fn lemma_replace_then_read(n: NodeV, ts: Seq<Seq<char>>, v: NodeV)
    ensures
        update_at(n, ts, Leaf::Replace(v)) matches Outcome::Done(m) ==> token_target(m, ts) == Some(v),
        update_at(n, ts, Leaf::Replace(v)) is Done <==> token_target(n, ts) is Some,
{
    lemma_update_then_read(n, ts, Leaf::Replace(v));
}

/// A `Replace` operation that succeeds leaves its value at its path.
pub proof fn lemma_replace_op_reads_back(n: NodeV, op: PatchOp)
    requires
        op is Replace,
    ensures
        op_outcome(n, op) matches Outcome::Done(m) ==> token_target(m, tokens_view(op->Replace_path@)) == Some(
            op->Replace_value@,
        ),
{
    lemma_replace_then_read(n, tokens_view(op->Replace_path@), op->Replace_value@);
}

/// A scalar pattern matches exactly the node that holds that scalar: null
/// only null, a boolean only the same boolean, a string only the same
/// string, an integer only the same integer.
pub proof fn lemma_scalar_pattern_exact(j: JsonValue, n: NodeV)
    ensures
        j is Null ==> (json_matches(j, n) <==> n.data == DataV::Null),
        j matches JsonValue::Bool(a) ==> (json_matches(j, n) <==> n.data == DataV::Boolean(a)),
        j matches JsonValue::String(s) ==> (json_matches(j, n) <==> n.data == DataV::String(s@)),
        j matches JsonValue::Number(JsonNumber::NegInt(i)) ==> (json_matches(j, n) <==> n.data == DataV::Integer(i)),
        j matches JsonValue::Number(JsonNumber::PosInt(u)) ==> (json_matches(j, n) <==> (u <= i64::MAX
            && n.data == DataV::Integer(u as i64))),
        j matches JsonValue::Number(JsonNumber::Float(a)) ==> (json_matches(j, n) <==> (n.data matches DataV::Float(
            b) && !float_is_nan(a) && !float_is_nan(b) && (a == b || (float_is_zero(a) && float_is_zero(b))))),
{
}

/// Each key stands once among the entries.
pub open spec fn keys_unique(es: Seq<EntryV>) -> bool {
    forall|i: int, j: int| 0 <= i < j < es.len() ==> #[trigger] es[i].key != #[trigger] es[j].key
}

proof fn lemma_first_key_absent(es: Seq<EntryV>, k: Seq<char>, n: int)
    requires
        0 <= n <= es.len(),
    ensures
        first_key(es, k, n) is None <==> (forall|j: int| 0 <= j < n ==> #[trigger] es[j].key != k),
    decreases n,
{
    if n > 0 {
        lemma_first_key_absent(es, k, n - 1);
    }
}

/// Setting a key in entries where each key stands once: the key then stands
/// once, last, with the new value.
pub proof fn lemma_insert_entry_found(es: Seq<EntryV>, k: Seq<char>, v: NodeV)
    requires
        keys_unique(es),
    ensures
        ({
            let fs = insert_entry(es, k, v);
            &&& fs.len() >= 1
            &&& first_key(fs, k, fs.len() as int) == Some(fs.len() - 1)
            &&& fs.last().value == v
            &&& keys_unique(fs)
        }),
{
    let fs = insert_entry(es, k, v);
    lemma_first_key_absent(es, k, es.len() as int);
    match first_key(es, k, es.len() as int) {
        Some(i) => {
            crate::node::lemma_first_key_bounds(es, k, es.len() as int);
            let g = es.remove(i);
            assert forall|j: int| 0 <= j < fs.len() - 1 implies #[trigger] fs[j].key != k by {
                if j < i {
                    assert(fs[j] == es[j]);
                } else {
                    assert(fs[j] == es[j + 1]);
                }
            }
            assert forall|a: int, b: int| 0 <= a < b < fs.len() implies #[trigger] fs[a].key != #[trigger] fs[b].key by {
                if b < fs.len() - 1 {
                    let a2 = if a < i { a } else { a + 1 };
                    let b2 = if b < i { b } else { b + 1 };
                    assert(fs[a] == es[a2]);
                    assert(fs[b] == es[b2]);
                }
            }
        },
        None => {
            assert forall|j: int| 0 <= j < fs.len() - 1 implies #[trigger] fs[j].key != k by {
                assert(fs[j] == es[j]);
            }
            assert forall|a: int, b: int| 0 <= a < b < fs.len() implies #[trigger] fs[a].key != #[trigger] fs[b].key by {
                assert(fs[a] == es[a]);
                if b < fs.len() - 1 {
                    assert(fs[b] == es[b]);
                }
            }
        },
    }
    lemma_first_key_absent(fs, k, fs.len() - 1);
}

/// Following tokens and then one more is following the longer list.
proof fn lemma_token_target_push(n: NodeV, ts: Seq<Seq<char>>, t: Seq<char>)
    ensures
        token_target(n, ts.push(t)) == match token_target(n, ts) {
            Some(x) => token_target(x, seq![t]),
            None => None,
        },
    decreases ts.len(),
{
    if ts.len() > 0 {
        assert(ts.push(t).drop_first() =~= ts.drop_first().push(t));
        assert(ts.push(t)[0] == ts[0]);
        match n.data {
            DataV::Sequence(items) => match index_token(ts[0]) {
                Some(i) => if i < items.len() {
                    lemma_token_target_push(items[i], ts.drop_first(), t);
                },
                None => {},
            },
            DataV::Mapping(es) => match first_key(es, token_key_text(ts[0]), es.len() as int) {
                Some(k) => {
                    crate::node::lemma_first_key_bounds(es, token_key_text(ts[0]), es.len() as int);
                    lemma_token_target_push(es[k].value, ts.drop_first(), t);
                },
                None => {},
            },
            _ => {},
        }
    } else {
        assert(ts.push(t) =~= seq![t]);
    }
}

/// An `Add` whose path before its last token leads to a mapping where each
/// key stands once succeeds, and its value is then found at its whole path.
pub proof fn lemma_add_op_reads_back(n: NodeV, op: PatchOp)
    requires
        op is Add,
        op->Add_path@.len() > 0,
        token_target(n, tokens_view(op->Add_path@).drop_last()) matches Some(t) && t.data matches DataV::Mapping(
            es,
        ) && keys_unique(es),
    ensures
        op_outcome(n, op) matches Outcome::Done(m) && token_target(m, tokens_view(op->Add_path@)) == Some(
            op->Add_value@,
        ),
{
    let ts = tokens_view(op->Add_path@);
    let pre = ts.drop_last();
    let last = op->Add_path@.last()@;
    let kt = token_key_text(last);
    let v = op->Add_value@;
    let t = token_target(n, pre)->0;
    let es = t.data->Mapping_0;
    lemma_update_then_read(n, pre, Leaf::Insert(kt, v));
    lemma_insert_entry_found(es, kt, v);
    assert(ts =~= pre.push(last));
    lemma_token_target_push(update_at(n, pre, Leaf::Insert(kt, v))->Done_0, pre, last);
    let fs = insert_entry(es, kt, v);
    let m = update_at(n, pre, Leaf::Insert(kt, v))->Done_0;
    let x = apply_leaf(t, Leaf::Insert(kt, v));
    assert(x.data == DataV::Mapping(fs));
    assert(token_target(m, pre) == Some(x));
    assert(seq![last].drop_first() =~= Seq::<Seq<char>>::empty());
    assert(seq![last][0] == last);
    assert(fs[fs.len() - 1].value == v);
    assert(token_target(fs[fs.len() - 1].value, seq![last].drop_first()) == Some(v));
    assert(token_target(x, seq![last]) == Some(v));
    assert(op_outcome(n, op) == update_at(n, pre, Leaf::Insert(kt, v)));
}

} // verus!
