//! Finding the nodes of a document along a path.
use crate::diff::{first_key, Item, ItemV};
use crate::path::{Path, Segment, SegmentV};
use crate::yaml::{
    copy_node, entries_view, lemma_entries_view, lemma_nodes_view, lemma_view_unfold, nodes_view, str_eq, DataV,
    Entry, EntryV, Node, NodeV, Span, YamlData,
};
use vstd::prelude::*;

verus! {

/// The node one step down from `n`: the value of key `k` of a mapping, or
/// element `i` of a sequence.
pub open spec fn child(n: NodeV, s: SegmentV) -> Option<NodeV> {
    match s {
        SegmentV::Field(k) => match n.data {
            DataV::Mapping(es) => match first_key(es, k, es.len() as int) {
                Some(j) => Some(es[j].value),
                None => None,
            },
            _ => None,
        },
        SegmentV::Index(i) => match n.data {
            DataV::Sequence(xs) => if i < xs.len() {
                Some(xs[i as int])
            } else {
                None
            },
            _ => None,
        },
    }
}

/// The node reached from `n` along `p`, if every step exists.
pub open spec fn node_at(n: NodeV, p: Seq<SegmentV>) -> Option<NodeV>
    decreases p.len(),
{
    if p.len() == 0 {
        Some(n)
    } else {
        match child(n, p[0]) {
            Some(c) => node_at(c, p.skip(1)),
            None => None,
        }
    }
}

pub proof fn lemma_first_key_bounds(es: Seq<EntryV>, k: Seq<char>, n: int)
    ensures
        first_key(es, k, n) matches Some(j) ==> 0 <= j < n && j < es.len() && es[j].key == k,
    decreases n,
{
    if 0 < n <= es.len() {
        lemma_first_key_bounds(es, k, n - 1);
    }
}

/// The first entry of `es` with key `k`.
fn find_entry<'a>(es: &'a Vec<Entry>, k: &str) -> (r: Option<&'a Entry>)
    ensures
        match first_key(entries_view(es@), k@, es@.len() as int) {
            Some(j) => r matches Some(e) && e == es@[j],
            None => r is None,
        },
{
    proof {
        lemma_entries_view(es@);
    }
    let mut i: usize = 0;
    while i < es.len()
        invariant
            i <= es@.len(),
            entries_view(es@).len() == es@.len(),
            forall|j: int| 0 <= j < es@.len() ==> (#[trigger] entries_view(es@)[j]).key == es@[j].key@,
            first_key(entries_view(es@), k@, i as int) is None,
        decreases es.len() - i,
    {
        if str_eq(es[i].key.as_str(), k) {
            assert(first_key(entries_view(es@), k@, i + 1) == Some(i as int));
            proof {
                crate::diff::lemma_first_key_stable(entries_view(es@), k@, i + 1, es@.len() as int);
            }
            return Some(&es[i]);
        }
        i = i + 1;
    }
    None
}

/// One step down from `n`.
fn child_of<'a>(n: &'a Node, s: &Segment) -> (r: Option<&'a Node>)
    ensures
        match child(n@, s@) {
            Some(c) => r matches Some(x) && x@ == c,
            None => r is None,
        },
{
    proof {
        lemma_view_unfold(*n);
    }
    match s {
        Segment::Field(k) => match &n.data {
            YamlData::Mapping(es) => {
                proof {
                    lemma_entries_view(es@);
                }
                let found = find_entry(es, k.as_str());
                proof {
                    let ev = entries_view(es@);
                    assert(n@.data == DataV::Mapping(ev));
                    if first_key(ev, k@, es@.len() as int) is Some {
                        let j = first_key(ev, k@, es@.len() as int)->0;
                        lemma_first_key_bounds(ev, k@, es@.len() as int);
                        assert(ev[j].value == es@[j].value@);
                    }
                }
                match found {
                    Some(e) => Some(&e.value),
                    None => None,
                }
            },
            _ => None,
        },
        Segment::Index(i) => match &n.data {
            YamlData::Sequence(xs) => {
                proof {
                    lemma_nodes_view(xs@);
                }
                assert(n@.data == DataV::Sequence(nodes_view(xs@)));
                if *i < xs.len() {
                    Some(&xs[*i])
                } else {
                    None
                }
            },
            _ => None,
        },
    }
}

/// The value of key `key` of a mapping; `None` for a node that is no
/// mapping or lacks the key.
pub fn field_of<'a>(n: &'a Node, key: &str) -> (r: Option<&'a Node>)
    ensures
        match child(n@, SegmentV::Field(key@)) {
            Some(c) => r matches Some(x) && x@ == c,
            None => r is None,
        },
{
    let s = Segment::field(key);
    child_of(n, &s)
}

/// The node of `yaml` at `path`, if every step of the path exists: a key of
/// a mapping, or an index of a sequence.
pub fn node_in<'y>(yaml: &'y Node, path: &Path) -> (r: Option<&'y Node>)
    ensures
        match node_at(yaml@, path@) {
            Some(c) => r matches Some(x) && x@ == c,
            None => r is None,
        },
{
    let segs = path.segments();
    let ghost p = path@;
    let mut n: &Node = yaml;
    let mut i: usize = 0;
    assert(p.skip(0) =~= p);
    while i < segs.len()
        invariant
            i <= segs@.len(),
            p == path@,
            crate::path::segments_view(segs@) == p,
            p.len() == segs@.len(),
            node_at(yaml@, p) == node_at(n@, p.skip(i as int)),
        decreases segs.len() - i,
    {
        assert(p.skip(i as int)[0] == segs@[i as int]@);
        assert(p.skip(i as int).skip(1) =~= p.skip(i + 1));
        match child_of(n, &segs[i]) {
            Some(c) => {
                n = c;
            },
            None => {
                return None;
            },
        }
        i = i + 1;
    }
    assert(p.skip(i as int) =~= Seq::<SegmentV>::empty());
    Some(n)
}

/// What [`node_in_2`] finds: the container reached along all but the last
/// segment, then the last step taken in it. For a key the entry's key comes
/// from that container, and its value is looked up by the same key at the
/// top of the document.
pub open spec fn last_item_at(root: NodeV, p: Seq<SegmentV>) -> Option<ItemV> {
    if p.len() == 0 {
        None
    } else {
        match node_at(root, p.drop_last()) {
            None => None,
            Some(n) => match (p.last(), n.data) {
                (SegmentV::Field(f), DataV::Mapping(es)) => match first_key(es, f, es.len() as int) {
                    Some(j) => match child(root, SegmentV::Field(f)) {
                        Some(v) => Some(ItemV::KV(es[j].key, es[j].key_span, v)),
                        None => None,
                    },
                    None => None,
                },
                (SegmentV::Index(i), DataV::Sequence(xs)) => if i < xs.len() {
                    Some(ItemV::ArrayElement(i, xs[i as int]))
                } else {
                    None
                },
                _ => None,
            },
        }
    }
}

/// Where [`node_in_2`] finds the last key in its container but the top of
/// the document lacks it, so that looking the value up there fails.
pub open spec fn last_key_missing_at_top(root: NodeV, p: Seq<SegmentV>) -> bool {
    &&& p.len() > 0
    &&& node_at(root, p.drop_last()) matches Some(n)
    &&& p.last() matches SegmentV::Field(f)
    &&& n.data matches DataV::Mapping(es)
    &&& first_key(es, f, es.len() as int) is Some
    &&& child(root, SegmentV::Field(f)) is None
}

/// The item at the end of `path`: a key of a mapping with its value, or an
/// element of a sequence with its index. The value of a key is taken from
/// the top of the document, which is where the two agree for a path of one
/// segment.
pub fn node_in_2(yaml: &Node, path: &Path) -> (r: Option<Item>)
    requires
        !last_key_missing_at_top(yaml@, path@),
    ensures
        match last_item_at(yaml@, path@) {
            Some(it) => r matches Some(x) && x@ == it,
            None => r is None,
        },
{
    let segs = path.segments();
    let ghost p = path@;
    let n_segs = segs.len();
    if n_segs == 0 {
        return None;
    }
    let last = &segs[n_segs - 1];
    assert(last@ == p.last());
    let mut rest: Vec<Segment> = Vec::new();
    let mut i: usize = 0;
    while i + 1 < n_segs
        invariant
            n_segs == segs@.len(),
            n_segs >= 1,
            i + 1 <= n_segs,
            p == path@,
            crate::path::segments_view(segs@) == p,
            crate::path::segments_view(rest@) == p.take(i as int),
        decreases n_segs - i,
    {
        let ghost before = crate::path::segments_view(rest@);
        rest.push(segs[i].copy());
        assert(crate::path::segments_view(rest@) =~= before.push(p[i as int]));
        assert(p.take(i + 1) =~= p.take(i as int).push(p[i as int]));
        i = i + 1;
    }
    assert(p.take(i as int) =~= p.drop_last());
    let parent_path = Path::from_unchecked(rest);
    let n = match node_in(yaml, &parent_path) {
        Some(n) => n,
        None => {
            return None;
        },
    };
    proof {
        lemma_view_unfold(*n);
    }
    match last {
        Segment::Field(f) => {
            let es = match &n.data {
                YamlData::Mapping(es) => es,
                _ => {
                    return None;
                },
            };
            let found = find_entry(es, f.as_str());
            proof {
                lemma_entries_view(es@);
                let ev = entries_view(es@);
                assert(n@.data == DataV::Mapping(ev));
                if first_key(ev, f@, es@.len() as int) is Some {
                    let j = first_key(ev, f@, es@.len() as int)->0;
                    lemma_first_key_bounds(ev, f@, es@.len() as int);
                    assert(ev[j] == EntryV { key: es@[j].key@, key_span: es@[j].key_span, value: es@[j].value@ });
                }
            }
            match found {
                Some(e) => {
                    let value = field_of(yaml, f.as_str()).unwrap();
                    Some(Item::KV { key: e.key.clone(), key_span: e.key_span, value: copy_node(value) })
                },
                None => None,
            }
        },
        Segment::Index(index) => match &n.data {
            YamlData::Sequence(xs) => {
                proof {
                    lemma_nodes_view(xs@);
                }
                assert(n@.data == DataV::Sequence(nodes_view(xs@)));
                if *index < xs.len() {
                    Some(Item::ArrayElement { index: *index, value: copy_node(&xs[*index]) })
                } else {
                    None
                }
            },
            _ => None,
        },
    }
}

/// The key and value reached along a path that steps through mappings
/// only, if the path is not empty and each key exists.
pub open spec fn key_at(n: NodeV, p: Seq<SegmentV>) -> Option<ItemV>
    decreases p.len(),
{
    if p.len() == 0 {
        None
    } else {
        match (p[0], n.data) {
            (SegmentV::Field(k), DataV::Mapping(es)) => match first_key(es, k, es.len() as int) {
                Some(j) => if p.len() == 1 {
                    Some(ItemV::KV(es[j].key, es[j].key_span, es[j].value))
                } else {
                    key_at(es[j].value, p.skip(1))
                },
                None => None,
            },
            _ => None,
        }
    }
}

/// The key and value of `yaml` at `path`, where the path steps through
/// mappings only.
pub fn node_and_key(yaml: &Node, path: &Path) -> (r: Option<Item>)
    ensures
        match key_at(yaml@, path@) {
            Some(it) => r matches Some(x) && x@ == it,
            None => r is None,
        },
{
    let segs = path.segments();
    let ghost p = path@;
    if segs.len() == 0 {
        return None;
    }
    let mut n: &Node = yaml;
    let mut i: usize = 0;
    assert(p.skip(0) =~= p);
    loop
        invariant
            i < segs@.len(),
            p == path@,
            crate::path::segments_view(segs@) == p,
            p.len() == segs@.len(),
            key_at(yaml@, p) == key_at(n@, p.skip(i as int)),
        decreases segs.len() - i,
    {
        proof {
            lemma_view_unfold(*n);
        }
        let ghost q = p.skip(i as int);
        assert(q[0] == segs@[i as int]@);
        assert(q.skip(1) =~= p.skip(i + 1));
        let k = match &segs[i] {
            Segment::Field(k) => k,
            Segment::Index(_) => {
                return None;
            },
        };
        let es = match &n.data {
            YamlData::Mapping(es) => es,
            _ => {
                return None;
            },
        };
        let found = find_entry(es, k.as_str());
        proof {
            lemma_entries_view(es@);
            let ev = entries_view(es@);
            assert(n@.data == DataV::Mapping(ev));
            if first_key(ev, k@, es@.len() as int) is Some {
                let j = first_key(ev, k@, es@.len() as int)->0;
                lemma_first_key_bounds(ev, k@, es@.len() as int);
                assert(ev[j] == EntryV { key: es@[j].key@, key_span: es@[j].key_span, value: es@[j].value@ });
            }
        }
        match found {
            Some(e) => {
                if i + 1 == segs.len() {
                    let it = Item::KV { key: e.key.clone(), key_span: e.key_span, value: copy_node(&e.value) };
                    return Some(it);
                }
                assert(q.len() > 1);
                n = &e.value;
            },
            None => {
                return None;
            },
        }
        i = i + 1;
    }
}

/// A mapping of the one key and value of `original` at `target`, spanning
/// from the key to the end of the value.
pub fn sub_mapping(original: &Node, target: &Path) -> (r: Option<Node>)
    ensures
        match key_at(original@, target@) {
            Some(ItemV::KV(k, ks, v)) => r matches Some(m) && m@ == (NodeV {
                span: Span { start: ks.start, end: v.span.end },
                data: DataV::Mapping(seq![EntryV { key: k, key_span: ks, value: v }]),
            }),
            _ => r is None,
        },
{
    match node_and_key(original, target) {
        Some(Item::KV { key, key_span, value }) => {
            let span = Span { start: key_span.start, end: value.span.end };
            let mut entries: Vec<Entry> = Vec::new();
            entries.push(Entry { key, key_span, value });
            let r = Node { span, data: YamlData::Mapping(entries) };
            proof {
                lemma_view_unfold(r);
                lemma_entries_view(entries@);
                assert(entries_view(entries@) =~= seq![EntryV { key: entries@[0].key@, key_span, value: entries@[0].value@ }]);
            }
            Some(r)
        },
        _ => None,
    }
}

} // verus!
