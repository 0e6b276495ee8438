//! Pairing the documents of two files, and the differences between them.
use crate::diff::{diff as diff_nodes, lemma_diff_self, ArrayOrdering, Context as DiffContext, Difference, diffs_view, DifferenceV, diff_spec};
use crate::node::{child, field_of};
use crate::path::{Path, Segment, SegmentV};
use crate::source::YamlSource;
use crate::text::{decimal, decimal_string, lemma_decimal_injective, push_char};
use crate::yaml::{str_eq, DataV, Node, NodeV, YamlData};
use vstd::prelude::*;

verus! {

// ---------------------------------------------------------------------------
// Comparing text
// ---------------------------------------------------------------------------

/// The order of two texts, character by character, a prefix first:
/// negative, zero or positive.
pub open spec fn compare_text(a: Seq<char>, b: Seq<char>) -> int
    decreases a.len(),
{
    if a.len() == 0 && b.len() == 0 {
        0
    } else if a.len() == 0 {
        -1
    } else if b.len() == 0 {
        1
    } else if a[0] < b[0] {
        -1
    } else if a[0] > b[0] {
        1
    } else {
        compare_text(a.skip(1), b.skip(1))
    }
}

pub proof fn lemma_compare_text_sign(a: Seq<char>, b: Seq<char>)
    ensures
        -1 <= compare_text(a, b) <= 1,
        compare_text(a, b) == -compare_text(b, a),
        compare_text(a, b) == 0 <==> a == b,
    decreases a.len(),
{
    if a.len() > 0 && b.len() > 0 && a[0] == b[0] {
        lemma_compare_text_sign(a.skip(1), b.skip(1));
        if a.skip(1) == b.skip(1) {
            assert(a =~= seq![a[0]] + a.skip(1));
            assert(b =~= seq![b[0]] + b.skip(1));
        }
    }
    if a.len() == 0 && b.len() == 0 {
        assert(a =~= b);
    }
}

pub proof fn lemma_compare_text_trans(a: Seq<char>, b: Seq<char>, c: Seq<char>)
    requires
        compare_text(a, b) < 0,
        compare_text(b, c) < 0,
    ensures
        compare_text(a, c) < 0,
    decreases a.len(),
{
    if a.len() > 0 && b.len() > 0 && c.len() > 0 && a[0] == b[0] && b[0] == c[0] {
        lemma_compare_text_trans(a.skip(1), b.skip(1), c.skip(1));
    }
}

/// The order of two texts, as [`compare_text`] states.
pub fn compare_strings(a: &str, b: &str) -> (r: i8)
    ensures
        r == compare_text(a@, b@),
{
    let na = a.unicode_len();
    let nb = b.unicode_len();
    let mut i: usize = 0;
    assert(a@.skip(0) =~= a@);
    assert(b@.skip(0) =~= b@);
    while i < na && i < nb
        invariant
            na == a@.len(),
            nb == b@.len(),
            i <= na,
            i <= nb,
            compare_text(a@, b@) == compare_text(a@.skip(i as int), b@.skip(i as int)),
        decreases na - i,
    {
        let x = a.get_char(i);
        let y = b.get_char(i);
        assert(a@.skip(i as int)[0] == x);
        assert(b@.skip(i as int)[0] == y);
        if x < y {
            return -1;
        }
        if x > y {
            return 1;
        }
        assert(a@.skip(i as int).skip(1) =~= a@.skip(i + 1));
        assert(b@.skip(i as int).skip(1) =~= b@.skip(i + 1));
        i = i + 1;
    }
    if i < na {
        1
    } else if i < nb {
        -1
    } else {
        0
    }
}

// ---------------------------------------------------------------------------
// The fields that identify a document
// ---------------------------------------------------------------------------

/// The order of two optional values: none first.
pub open spec fn compare_value(a: Option<Seq<char>>, b: Option<Seq<char>>) -> int {
    match (a, b) {
        (None, None) => 0,
        (None, Some(_)) => -1,
        (Some(_), None) => 1,
        (Some(x), Some(y)) => compare_text(x, y),
    }
}

/// The order of two lists of fields: entry by entry, key then value, a
/// prefix first.
pub open spec fn compare_fields(a: Seq<(Seq<char>, Option<Seq<char>>)>, b: Seq<(Seq<char>, Option<Seq<char>>)>) -> int
    decreases a.len(),
{
    if a.len() == 0 && b.len() == 0 {
        0
    } else if a.len() == 0 {
        -1
    } else if b.len() == 0 {
        1
    } else if compare_text(a[0].0, b[0].0) != 0 {
        compare_text(a[0].0, b[0].0)
    } else if compare_value(a[0].1, b[0].1) != 0 {
        compare_value(a[0].1, b[0].1)
    } else {
        compare_fields(a.skip(1), b.skip(1))
    }
}

/// Two lists of fields are in the same place of the order exactly when they
/// are equal.
pub proof fn lemma_compare_fields_zero(a: Seq<(Seq<char>, Option<Seq<char>>)>, b: Seq<(Seq<char>, Option<Seq<char>>)>)
    ensures
        compare_fields(a, b) == 0 <==> a == b,
    decreases a.len(),
{
    if a.len() > 0 && b.len() > 0 {
        lemma_compare_text_sign(a[0].0, b[0].0);
        match (a[0].1, b[0].1) {
            (Some(x), Some(y)) => lemma_compare_text_sign(x, y),
            _ => {},
        }
        lemma_compare_fields_zero(a.skip(1), b.skip(1));
        if a[0] == b[0] && a.skip(1) == b.skip(1) {
            assert(a =~= seq![a[0]] + a.skip(1));
            assert(b =~= seq![b[0]] + b.skip(1));
        }
        if a == b {
            assert(a.skip(1) =~= b.skip(1));
        }
    } else if a.len() == 0 && b.len() == 0 {
        assert(a =~= b);
    }
}

/// Keys are ordered by their fields alone: the file a key comes from plays
/// no part, two keys are in the same place exactly when their fields are
/// equal, and swapping them reverses the order.
pub proof fn lemma_key_order_ignores_file(a: DocKeyV, b: DocKeyV)
    ensures
        compare_fields(a.fields, b.fields) == 0 <==> a.fields == b.fields,
        compare_fields(a.fields, b.fields) == -compare_fields(b.fields, a.fields),
{
    lemma_compare_fields_zero(a.fields, b.fields);
    lemma_compare_fields_flip(a.fields, b.fields);
}

/// Keys in increasing order, each once.
pub open spec fn keys_sorted(s: Seq<(Seq<char>, Option<Seq<char>>)>) -> bool {
    forall|i: int, j: int| 0 <= i < j < s.len() ==> compare_text(#[trigger] s[i].0, #[trigger] s[j].0) < 0
}

/// `s` with key `k` set to `v`: in place where the key is present, else
/// before the first greater key.
pub open spec fn put_field(s: Seq<(Seq<char>, Option<Seq<char>>)>, k: Seq<char>, v: Option<Seq<char>>) -> Seq<(Seq<char>, Option<Seq<char>>)>
    decreases s.len(),
{
    if s.len() == 0 {
        seq![(k, v)]
    } else if s[0].0 == k {
        seq![(k, v)] + s.skip(1)
    } else if compare_text(s[0].0, k) > 0 {
        seq![(k, v)] + s
    } else {
        seq![s[0]] + put_field(s.skip(1), k, v)
    }
}

pub proof fn lemma_put_field(s: Seq<(Seq<char>, Option<Seq<char>>)>, k: Seq<char>, v: Option<Seq<char>>)
    requires
        keys_sorted(s),
    ensures
        keys_sorted(put_field(s, k, v)),
        forall|i: int| 0 <= i < put_field(s, k, v).len() ==> (#[trigger] put_field(s, k, v)[i].0 == k || exists|j: int| 0 <= j < s.len() && s[j].0 == put_field(s, k, v)[i].0),
    decreases s.len(),
{
    let r = put_field(s, k, v);
    if s.len() == 0 {
    } else if s[0].0 == k {
        assert forall|i: int, j: int| 0 <= i < j < r.len() implies compare_text(#[trigger] r[i].0, #[trigger] r[j].0) < 0 by {
            assert(r[j] == s[j]);
            if i > 0 {
                assert(r[i] == s[i]);
            }
        }
        assert forall|i: int| 0 <= i < r.len() implies (#[trigger] r[i].0 == k || exists|j: int| 0 <= j < s.len() && s[j].0 == r[i].0) by {
            if i > 0 {
                assert(s[i].0 == r[i].0);
            }
        }
    } else if compare_text(s[0].0, k) > 0 {
        assert forall|i: int, j: int| 0 <= i < j < r.len() implies compare_text(#[trigger] r[i].0, #[trigger] r[j].0) < 0 by {
            if i == 0 {
                lemma_compare_text_sign(s[0].0, k);
                if j > 1 {
                    assert(compare_text(s[0].0, s[j - 1].0) < 0);
                    lemma_compare_text_trans(k, s[0].0, s[j - 1].0);
                }
            } else {
                assert(r[i] == s[i - 1]);
                assert(r[j] == s[j - 1]);
            }
        }
        assert forall|i: int| 0 <= i < r.len() implies (#[trigger] r[i].0 == k || exists|j: int| 0 <= j < s.len() && s[j].0 == r[i].0) by {
            if i > 0 {
                assert(s[i - 1].0 == r[i].0);
            }
        }
    } else {
        let t = s.skip(1);
        assert(keys_sorted(t)) by {
            assert forall|i: int, j: int| 0 <= i < j < t.len() implies compare_text(#[trigger] t[i].0, #[trigger] t[j].0) < 0 by {
                assert(t[i] == s[i + 1]);
                assert(t[j] == s[j + 1]);
            }
        }
        lemma_put_field(t, k, v);
        let rt = put_field(t, k, v);
        assert(r == seq![s[0]] + rt);
        lemma_compare_text_sign(s[0].0, k);
        assert forall|i: int, j: int| 0 <= i < j < r.len() implies compare_text(#[trigger] r[i].0, #[trigger] r[j].0) < 0 by {
            if i == 0 {
                assert(r[j] == rt[j - 1]);
                if rt[j - 1].0 == k {
                } else {
                    let m = choose|m: int| 0 <= m < t.len() && t[m].0 == rt[j - 1].0;
                    assert(t[m] == s[m + 1]);
                }
            } else {
                assert(r[i] == rt[i - 1]);
                assert(r[j] == rt[j - 1]);
            }
        }
        assert forall|i: int| 0 <= i < r.len() implies (#[trigger] r[i].0 == k || exists|j: int| 0 <= j < s.len() && s[j].0 == r[i].0) by {
            if i == 0 {
                assert(s[0].0 == r[0].0);
            } else {
                assert(r[i] == rt[i - 1]);
                if rt[i - 1].0 != k {
                    let m = choose|m: int| 0 <= m < t.len() && t[m].0 == rt[i - 1].0;
                    assert(s[m + 1].0 == r[i].0);
                }
            }
        }
    }
}

/// Named values that identify a document: keys in increasing order, each
/// with a value or none.
#[derive(Debug, PartialEq, Eq)]
pub struct Fields {
    entries: Vec<(String, Option<String>)>,
}

pub open spec fn opt_text(v: Option<String>) -> Option<Seq<char>> {
    match v {
        Some(s) => Some(s@),
        None => None,
    }
}

pub open spec fn entry_view(e: (String, Option<String>)) -> (Seq<char>, Option<Seq<char>>) {
    (e.0@, opt_text(e.1))
}

pub open spec fn fields_view(s: Seq<(String, Option<String>)>) -> Seq<(Seq<char>, Option<Seq<char>>)> {
    s.map_values(|e: (String, Option<String>)| entry_view(e))
}

impl View for Fields {
    type V = Seq<(Seq<char>, Option<Seq<char>>)>;

    closed spec fn view(&self) -> Seq<(Seq<char>, Option<Seq<char>>)> {
        fields_view(self.entries@)
    }
}

impl Fields {
    #[verifier::type_invariant]
    spec fn sorted(self) -> bool {
        keys_sorted(fields_view(self.entries@))
    }

    /// No fields.
    pub fn new() -> (r: Fields)
        ensures
            r@ == Seq::<(Seq<char>, Option<Seq<char>>)>::empty(),
    {
        let r = Fields { entries: Vec::new() };
        assert(r@ =~= Seq::<(Seq<char>, Option<Seq<char>>)>::empty());
        r
    }

    /// Sets `key` to `value`.
    pub fn insert(&mut self, key: &str, value: Option<String>)
        ensures
            final(self)@ == put_field(old(self)@, key@, opt_text(value)),
    {
        proof {
            use_type_invariant(&*self);
        }
        let ghost v = opt_text(value);
        let ghost before = self@;
        let mut entries: Vec<(String, Option<String>)> = Vec::new();
        std::mem::swap(&mut entries, &mut self.entries);
        let n = entries.len();
        let mut out: Vec<(String, Option<String>)> = Vec::new();
        let mut value = value;
        let mut placed = false;
        let mut i: usize = 0;
        // `out` holds the entries before position `i`; the rest follow.
        assert(before.skip(0) =~= before);
        while i < n
            invariant
                i <= n,
                n == entries@.len(),
                before == fields_view(entries@),
                placed ==> fields_view(out@) + before.skip(i as int) == put_field(before, key@, v),
                !placed ==> fields_view(out@) + put_field(before.skip(i as int), key@, v) == put_field(before, key@, v),
                !placed ==> opt_text(value) == v,
            decreases n - i,
        {
            let ghost rest = before.skip(i as int);
            assert(rest[0] == entry_view(entries@[i as int]));
            assert(rest.skip(1) =~= before.skip(i + 1));
            let ghost out_before = fields_view(out@);
            if placed {
                out.push(clone_entry(&entries[i]));
                assert(fields_view(out@) =~= out_before.push(rest[0]));
                assert(out_before + rest =~= fields_view(out@) + before.skip(i + 1));
            } else {
                let c = compare_strings(entries[i].0.as_str(), key);
                proof {
                    lemma_compare_text_sign(rest[0].0, key@);
                }
                if c == 0 {
                    let taken = value.take();
                    out.push((key.to_owned(), taken));
                    placed = true;
                    assert(fields_view(out@) =~= out_before.push((key@, v)));
                    assert(out_before + put_field(rest, key@, v) =~= fields_view(out@) + before.skip(i + 1));
                } else if c > 0 {
                    let taken = value.take();
                    out.push((key.to_owned(), taken));
                    out.push(clone_entry(&entries[i]));
                    placed = true;
                    assert(fields_view(out@) =~= out_before.push((key@, v)).push(rest[0]));
                    assert(out_before + put_field(rest, key@, v) =~= fields_view(out@) + before.skip(i + 1));
                } else {
                    out.push(clone_entry(&entries[i]));
                    assert(fields_view(out@) =~= out_before.push(rest[0]));
                    assert(out_before + put_field(rest, key@, v) =~= fields_view(out@) + put_field(before.skip(i + 1), key@, v));
                }
            }
            i = i + 1;
        }
        if !placed {
            let taken = value.take();
            let ghost out_before = fields_view(out@);
            out.push((key.to_owned(), taken));
            assert(before.skip(n as int) =~= Seq::<(Seq<char>, Option<Seq<char>>)>::empty());
            assert(fields_view(out@) =~= out_before + put_field(before.skip(n as int), key@, v));
        } else {
            assert(before.skip(n as int) =~= Seq::<(Seq<char>, Option<Seq<char>>)>::empty());
            assert(fields_view(out@) =~= fields_view(out@) + before.skip(n as int));
        }
        proof {
            lemma_put_field(before, key@, v);
        }
        self.entries = out;
    }

    /// These fields with `key` set to `value`.
    pub fn with(self, key: &str, value: Option<String>) -> (r: Fields)
        ensures
            r@ == put_field(self@, key@, opt_text(value)),
    {
        let mut r = self;
        r.insert(key, value);
        r
    }

    /// These fields with `idx` set to the decimal index.
    pub fn with_idx(self, idx: usize) -> (r: Fields)
        ensures
            r@ == put_field(self@, "idx"@, Some(decimal(idx as nat))),
    {
        let d = decimal_string(idx);
        self.with("idx", Some(d))
    }

    /// Whether two sets of fields are equal.
    pub fn same(&self, other: &Fields) -> (r: bool)
        ensures
            r == (self@ == other@),
    {
        compare_field_lists(&self.entries, &other.entries) == 0
    }

    /// The order of two sets of fields, as [`compare_fields`] states.
    pub fn compare(&self, other: &Fields) -> (r: i8)
        ensures
            r == compare_fields(self@, other@),
    {
        compare_field_lists(&self.entries, &other.entries)
    }

    /// The fields in key order.
    pub fn as_ref(&self) -> (r: &Vec<(String, Option<String>)>)
        ensures
            fields_view(r@) == self@,
    {
        &self.entries
    }

    /// A copy of the fields.
    pub fn copy(&self) -> (r: Fields)
        ensures
            r@ == self@,
    {
        proof {
            use_type_invariant(self);
        }
        let mut out: Vec<(String, Option<String>)> = Vec::new();
        let mut i: usize = 0;
        while i < self.entries.len()
            invariant
                i <= self.entries@.len(),
                out@.len() == i,
                forall|k: int| 0 <= k < i ==> entry_view(#[trigger] out@[k]) == entry_view(self.entries@[k]),
            decreases self.entries.len() - i,
        {
            out.push(clone_entry(&self.entries[i]));
            i = i + 1;
        }
        assert(fields_view(out@) =~= fields_view(self.entries@));
        Fields { entries: out }
    }

    /// The fields, one per line: `key -> value`, with `∅` for no value.
    pub fn text(&self) -> (r: String)
        ensures
            r@ == fields_text(self@),
    {
        let mut out = String::new();
        let mut i: usize = 0;
        while i < self.entries.len()
            invariant
                i <= self.entries@.len(),
                self@ == fields_view(self.entries@),
                out@ == fields_text(self@.take(i as int)),
            decreases self.entries.len() - i,
        {
            assert(self@.take(i + 1).drop_last() =~= self@.take(i as int));
            let (k, v) = (&self.entries[i].0, &self.entries[i].1);
            out.append(k.as_str());
            out.append(" -> ");
            match v {
                Some(s) => out.append(s.as_str()),
                None => out.append("∅"),
            }
            push_char(&mut out, '\n');
            proof {
                reveal_strlit(" -> ");
                reveal_strlit("∅");
            }
            assert(out@ =~= fields_text(self@.take(i + 1)));
            i = i + 1;
        }
        assert(self@.take(i as int) =~= self@);
        out
    }
}

/// One line per field: `key -> value`, with `∅` for no value.
pub open spec fn fields_text(s: Seq<(Seq<char>, Option<Seq<char>>)>) -> Seq<char>
    decreases s.len(),
{
    if s.len() == 0 {
        seq![]
    } else {
        let (k, v) = s.last();
        fields_text(s.drop_last()) + k + seq![' ', '-', '>', ' '] + match v {
            Some(x) => x,
            None => seq!['∅'],
        } + seq!['\n']
    }
}

fn clone_entry(e: &(String, Option<String>)) -> (r: (String, Option<String>))
    ensures
        entry_view(r) == entry_view(*e),
{
    let v = match &e.1 {
        Some(s) => Some(s.clone()),
        None => None,
    };
    (e.0.clone(), v)
}

fn compare_field_lists(a: &Vec<(String, Option<String>)>, b: &Vec<(String, Option<String>)>) -> (r: i8)
    ensures
        r == compare_fields(fields_view(a@), fields_view(b@)),
        r == 0 <==> fields_view(a@) == fields_view(b@),
{
    let ghost av = fields_view(a@);
    let ghost bv = fields_view(b@);
    let mut i: usize = 0;
    assert(av.skip(0) =~= av);
    assert(bv.skip(0) =~= bv);
    while i < a.len() && i < b.len()
        invariant
            i <= a@.len(),
            i <= b@.len(),
            av == fields_view(a@),
            bv == fields_view(b@),
            compare_fields(av, bv) == compare_fields(av.skip(i as int), bv.skip(i as int)),
            (av == bv) == (av.skip(i as int) == bv.skip(i as int)),
        decreases a.len() - i,
    {
        let ghost x = av.skip(i as int);
        let ghost y = bv.skip(i as int);
        assert(x[0] == entry_view(a@[i as int]));
        assert(y[0] == entry_view(b@[i as int]));
        let c = compare_strings(a[i].0.as_str(), b[i].0.as_str());
        proof {
            lemma_compare_text_sign(x[0].0, y[0].0);
        }
        if c != 0 {
            assert(x[0] != y[0]);
            assert(!(av == bv)) by {
                if av == bv {
                    assert(x =~= y);
                }
            }
            return c;
        }
        let cv: i8 = match (&a[i].1, &b[i].1) {
            (None, None) => 0,
            (None, Some(_)) => -1,
            (Some(_), None) => 1,
            (Some(s), Some(t)) => compare_strings(s.as_str(), t.as_str()),
        };
        proof {
            match (x[0].1, y[0].1) {
                (Some(p), Some(q)) => lemma_compare_text_sign(p, q),
                _ => {},
            }
        }
        if cv != 0 {
            assert(x[0] != y[0]);
            assert(!(av == bv)) by {
                if av == bv {
                    assert(x =~= y);
                }
            }
            return cv;
        }
        assert(x[0] == y[0]);
        assert(x.skip(1) =~= av.skip(i + 1));
        assert(y.skip(1) =~= bv.skip(i + 1));
        assert((x == y) == (x.skip(1) == y.skip(1))) by {
            if x.skip(1) == y.skip(1) {
                assert(x =~= seq![x[0]] + x.skip(1));
                assert(y =~= seq![y[0]] + y.skip(1));
            }
        }
        i = i + 1;
    }
    if i < a.len() {
        assert(av.skip(i as int).len() > 0);
        assert(bv.skip(i as int).len() == 0);
        1
    } else if i < b.len() {
        -1
    } else {
        assert(av.skip(i as int) =~= bv.skip(i as int));
        0
    }
}

// ---------------------------------------------------------------------------
// Identifying documents
// ---------------------------------------------------------------------------

/// What identifies a document: the file it was read from, which plays no
/// part in comparisons, and its fields.
#[derive(Debug)]
pub struct DocKey {
    pub src_file: String,
    pub fields: Fields,
}

pub ghost struct DocKeyV {
    pub file: Seq<char>,
    pub fields: Seq<(Seq<char>, Option<Seq<char>>)>,
}

impl View for DocKey {
    type V = DocKeyV;

    open spec fn view(&self) -> DocKeyV {
        DocKeyV { file: self.src_file@, fields: self.fields@ }
    }
}

impl DocKey {
    pub fn new(src_file: String, fields: Fields) -> (r: DocKey)
        ensures
            r@ == (DocKeyV { file: src_file@, fields: fields@ }),
    {
        DocKey { src_file, fields }
    }

    pub fn copy(&self) -> (r: DocKey)
        ensures
            r@ == self@,
    {
        DocKey { src_file: self.src_file.clone(), fields: self.fields.copy() }
    }

    /// Whether two keys are the same: the file they come from is not
    /// looked at, only the fields.
    pub fn same(&self, other: &DocKey) -> (r: bool)
        ensures
            r == (self@.fields == other@.fields),
    {
        self.fields.same(&other.fields)
    }

    /// The order of two keys, by their fields alone, as [`compare_fields`]
    /// states.
    pub fn compare(&self, other: &DocKey) -> (r: i8)
        ensures
            r == compare_fields(self@.fields, other@.fields),
    {
        self.fields.compare(&other.fields)
    }

    /// The key as text: the file, then each field with a value as
    /// `key → value`, one per line.
    pub fn text(&self) -> (r: String)
        ensures
            r@ == doc_key_text(self@),
    {
        let mut out = String::new();
        out.append("file: ");
        out.append(self.src_file.as_str());
        push_char(&mut out, '\n');
        proof {
            reveal_strlit("file: ");
        }
        let e = &self.fields.entries;
        proof {
            use_type_invariant(&self.fields);
        }
        let ghost fv = self.fields@;
        let ghost head = out@;
        let mut i: usize = 0;
        while i < e.len()
            invariant
                i <= e@.len(),
                fv == fields_view(e@),
                out@ == head + key_lines(fv.take(i as int)),
            decreases e.len() - i,
        {
            assert(fv.take(i + 1).drop_last() =~= fv.take(i as int));
            match &e[i].1 {
                Some(v) => {
                    out.append(e[i].0.as_str());
                    out.append(" → ");
                    out.append(v.as_str());
                    push_char(&mut out, '\n');
                    proof {
                        reveal_strlit(" → ");
                    }
                },
                None => {},
            }
            assert(out@ =~= head + key_lines(fv.take(i + 1)));
            i = i + 1;
        }
        assert(fv.take(i as int) =~= fv);
        out
    }
}

// ---------------------------------------------------------------------------
// A key as a table
// ---------------------------------------------------------------------------

#[verifier::external_type_specification]
#[verifier::external_body]
pub struct ExTable(comfy_table::Table);

/// The rows of a `comfy_table::Table`, each a pair of cells.
pub uninterp spec fn table_rows(t: comfy_table::Table) -> Seq<(Seq<char>, Seq<char>)>;

/// What `Display` for a `comfy_table::Table` of two-cell rows writes, with
/// the `UTF8_FULL` style with rounded corners and no content arrangement:
/// a function of the rows alone.
pub uninterp spec fn table_text(rows: Seq<(Seq<char>, Seq<char>)>) -> Seq<char>;

/// `comfy_table::Table::new`, then `load_style` with the `UTF8_FULL` preset
/// with rounded corners: a table without rows.
#[verifier::external_body]
fn new_table() -> (t: comfy_table::Table)
    ensures
        table_rows(t) == Seq::<(Seq<char>, Seq<char>)>::empty(),
{
    let mut t = comfy_table::Table::new();
    t.load_style(comfy_table::presets::UTF8_FULL.with_rounded_corners());
    t
}

/// `comfy_table::Table::add_row` with two cells: the row goes last.
#[verifier::external_body]
fn add_table_row(t: &mut comfy_table::Table, left: &str, right: &str)
    ensures
        table_rows(*final(t)) == table_rows(*old(t)).push((left@, right@)),
{
    t.add_row(vec![left.to_string(), right.to_string()]);
}

/// `Display` for a `comfy_table::Table`, as [`table_text`] names it.
#[verifier::external_body]
fn table_to_string(t: &comfy_table::Table) -> (r: String)
    ensures
        r@ == table_text(table_rows(*t)),
{
    format!("{t}")
}

/// The rows that show a key's fields: each key beside its value, `∅` for
/// none.
pub open spec fn key_table_rows(f: Seq<(Seq<char>, Option<Seq<char>>)>) -> Seq<(Seq<char>, Seq<char>)> {
    f.map_values(
        |e: (Seq<char>, Option<Seq<char>>)|
            (
                e.0,
                match e.1 {
                    Some(v) => v,
                    None => seq!['∅'],
                },
            ),
    )
}

impl DocKey {
    /// The fields as a table, as [`table_text`] names it.
    pub fn pretty_print(&self) -> (r: String)
        ensures
            r@ == table_text(key_table_rows(self.fields@)),
    {
        let e = &self.fields.entries;
        let ghost rows = key_table_rows(self.fields@);
        proof {
            use_type_invariant(&self.fields);
        }
        let mut t = new_table();
        let mut i: usize = 0;
        while i < e.len()
            invariant
                i <= e@.len(),
                rows == key_table_rows(fields_view(e@)),
                table_rows(t) == rows.take(i as int),
            decreases e.len() - i,
        {
            let ghost before = table_rows(t);
            assert(fields_view(e@)[i as int] == entry_view(e@[i as int]));
            let ghost fv = fields_view(e@);
            assert(rows[i as int] == (fv[i as int].0, match fv[i as int].1 {
                Some(v) => v,
                None => seq!['∅'],
            }));
            match &e[i].1 {
                Some(v) => {
                    assert(fv[i as int].1 == Some(v@));
                    add_table_row(&mut t, e[i].0.as_str(), v.as_str());
                },
                None => {
                    add_table_row(&mut t, e[i].0.as_str(), "∅");
                    proof {
                        reveal_strlit("∅");
                        assert("∅"@ =~= seq!['∅']);
                    }
                },
            }
            assert(table_rows(t) == before.push(rows[i as int]));
            assert(rows.take(i + 1) =~= rows.take(i as int).push(rows[i as int]));
            i = i + 1;
        }
        assert(rows.take(e.len() as int) =~= rows);
        table_to_string(&t)
    }
}

/// One line per field that has a value: `key → value`.
pub open spec fn key_lines(s: Seq<(Seq<char>, Option<Seq<char>>)>) -> Seq<char>
    decreases s.len(),
{
    if s.len() == 0 {
        seq![]
    } else {
        key_lines(s.drop_last()) + match s.last().1 {
            Some(v) => s.last().0 + seq![' ', '→', ' '] + v + seq!['\n'],
            None => seq![],
        }
    }
}

pub open spec fn doc_key_text(k: DocKeyV) -> Seq<char> {
    seq!['f', 'i', 'l', 'e', ':', ' '] + k.file + seq!['\n'] + key_lines(k.fields)
}

/// How documents are told apart.
#[derive(Debug, Clone, Copy, PartialEq, Eq, Structural)]
pub enum Identifier {
    /// By their position among the documents of their file.
    ByIndex,
    /// By `apiVersion`, `kind` and `metadata.name` (Kubernetes).
    KubernetesGvk,
    /// By `metadata.name` and `metadata.namespace` (Kubernetes).
    KubernetesNames,
    /// By the fields of a Talos configuration document.
    TalosDocuments,
}

/// Pairs documents by their position.
pub fn by_index() -> (r: Identifier)
    ensures
        r == Identifier::ByIndex,
{
    Identifier::ByIndex
}

/// Pairs Kubernetes documents by group, version, kind and name.
pub fn gvk() -> (r: Identifier)
    ensures
        r == Identifier::KubernetesGvk,
{
    Identifier::KubernetesGvk
}

/// Pairs Kubernetes documents by name and namespace, to find renamed kinds.
pub fn names() -> (r: Identifier)
    ensures
        r == Identifier::KubernetesNames,
{
    Identifier::KubernetesNames
}

/// Pairs Talos configuration documents.
pub fn documents() -> (r: Identifier)
    ensures
        r == Identifier::TalosDocuments,
{
    Identifier::TalosDocuments
}

/// The text of a node that is a string.
pub open spec fn string_of(n: Option<NodeV>) -> Option<Seq<char>> {
    match n {
        Some(x) => match x.data {
            DataV::String(s) => Some(s),
            _ => None,
        },
        None => None,
    }
}

pub open spec fn get(n: NodeV, k: Seq<char>) -> Option<NodeV> {
    child(n, SegmentV::Field(k))
}

pub open spec fn no_fields() -> Seq<(Seq<char>, Option<Seq<char>>)> {
    Seq::empty()
}

/// Sets `k` to `v` where `v` is some value.
pub open spec fn put_some(f: Seq<(Seq<char>, Option<Seq<char>>)>, k: Seq<char>, v: Option<Seq<char>>) -> Seq<(Seq<char>, Option<Seq<char>>)> {
    if v is Some {
        put_field(f, k, v)
    } else {
        f
    }
}

/// The key of document `idx`, read from `file`.
pub open spec fn identify(id: Identifier, idx: int, file: Seq<char>, doc: NodeV) -> Option<DocKeyV> {
    match id {
        Identifier::ByIndex => Some(DocKeyV { file, fields: put_field(no_fields(), "idx"@, Some(decimal(idx as nat))) }),
        Identifier::KubernetesGvk => match get(doc, "metadata"@) {
            None => None,
            Some(m) => Some(DocKeyV {
                file,
                fields: put_field(
                    put_field(put_field(no_fields(), "api_version"@, string_of(get(doc, "apiVersion"@))), "kind"@, string_of(get(doc, "kind"@))),
                    "metadata.name"@,
                    string_of(get(m, "name"@)),
                ),
            }),
        },
        Identifier::KubernetesNames => match get(doc, "metadata"@) {
            None => None,
            Some(m) => Some(DocKeyV {
                file,
                fields: put_field(
                    put_field(no_fields(), "metadata.name"@, string_of(get(m, "name"@))),
                    "metadata.namespace"@,
                    string_of(get(m, "namespace"@)),
                ),
            }),
        },
        Identifier::TalosDocuments => {
            let f0 = put_field(no_fields(), "kind"@, string_of(get(doc, "kind"@)));
            let f1 = put_some(f0, "apiVersion"@, string_of(get(doc, "apiVersion"@)));
            let f2 = put_some(f1, "version"@, string_of(get(doc, "version"@)));
            let f3 = if get(doc, "machine"@) is Some { put_field(f2, "machine"@, Some("present"@)) } else { f2 };
            let f4 = if get(doc, "cluster"@) is Some { put_field(f3, "cluster"@, Some("present"@)) } else { f3 };
            let f5 = put_some(f4, "name"@, string_of(get(doc, "name"@)));
            Some(DocKeyV { file, fields: f5 })
        },
    }
}

/// The text of a node that is a string.
fn string_value(n: Option<&Node>) -> (r: Option<String>)
    ensures
        opt_text(r) == string_of(
            match n {
                Some(x) => Some(x@),
                None => None,
            },
        ),
{
    match n {
        Some(x) => {
            proof {
                crate::yaml::lemma_view_unfold(*x);
            }
            match &x.data {
                YamlData::String(s) => Some(s.clone()),
                _ => None,
            }
        },
        None => None,
    }
}

impl Identifier {
    /// The key of document `idx` of a file, if it has one.
    pub fn identify(&self, idx: usize, source: &YamlSource) -> (r: Option<DocKey>)
        ensures
            match identify(*self, idx as int, source.file@, source.yaml@) {
                Some(k) => r matches Some(x) && x@ == k,
                None => r is None,
            },
    {
        let doc = &source.yaml;
        match self {
            Identifier::ByIndex => {
                let f = Fields::new().with_idx(idx);
                Some(DocKey::new(source.file.clone(), f))
            },
            Identifier::KubernetesGvk => {
                let api_version = string_value(field_of(doc, "apiVersion"));
                let kind = string_value(field_of(doc, "kind"));
                let metadata = match field_of(doc, "metadata") {
                    Some(m) => m,
                    None => {
                        return None;
                    },
                };
                let name = string_value(field_of(metadata, "name"));
                let f = Fields::new().with("api_version", api_version).with("kind", kind).with("metadata.name", name);
                Some(DocKey::new(source.file.clone(), f))
            },
            Identifier::KubernetesNames => {
                let metadata = match field_of(doc, "metadata") {
                    Some(m) => m,
                    None => {
                        return None;
                    },
                };
                let name = string_value(field_of(metadata, "name"));
                let namespace = string_value(field_of(metadata, "namespace"));
                let f = Fields::new().with("metadata.name", name).with("metadata.namespace", namespace);
                Some(DocKey::new(source.file.clone(), f))
            },
            Identifier::TalosDocuments => {
                let api_version = string_value(field_of(doc, "apiVersion"));
                let version = string_value(field_of(doc, "version"));
                let kind = string_value(field_of(doc, "kind"));
                let machine = field_of(doc, "machine");
                let cluster = field_of(doc, "cluster");
                let name = string_value(field_of(doc, "name"));
                let mut fields = Fields::new().with("kind", kind);
                if api_version.is_some() {
                    fields.insert("apiVersion", api_version);
                }
                if version.is_some() {
                    fields.insert("version", version);
                }
                if machine.is_some() {
                    fields.insert("machine", Some("present".to_owned()));
                }
                if cluster.is_some() {
                    fields.insert("cluster", Some("present".to_owned()));
                }
                if name.is_some() {
                    fields.insert("name", name);
                }
                Some(DocKey::new(source.file.clone(), fields))
            },
        }
    }
}

// ---------------------------------------------------------------------------
// Pairing the documents of two files
// ---------------------------------------------------------------------------

/// A document on the left and the document on the right with the same key.
#[derive(Debug)]
pub struct MatchingDocs {
    pub key: DocKey,
    pub left: usize,
    pub right: usize,
}

/// A document on the left whose key no document on the right has.
#[derive(Debug)]
pub struct MissingDoc {
    pub key: DocKey,
    pub left: usize,
}

/// A key seen on the right that no document on the left has.
#[derive(Debug)]
pub struct AdditionalDoc {
    pub key: DocKey,
    pub right: usize,
}

/// The first of the first `n` entries whose key has fields `f`.
pub open spec fn find_fields(s: Seq<(DocKeyV, int)>, f: Seq<(Seq<char>, Option<Seq<char>>)>, n: int) -> Option<int>
    decreases n,
{
    if n <= 0 || n > s.len() {
        None
    } else {
        match find_fields(s, f, n - 1) {
            Some(p) => Some(p),
            None => if s[n - 1].0.fields == f {
                Some(n - 1)
            } else {
                None
            },
        }
    }
}

/// An ordered map keyed by fields: sets the value of the entry with the
/// fields of `k`, keeping its key, or adds `k` with `v`.
pub open spec fn put_seen(s: Seq<(DocKeyV, int)>, k: DocKeyV, v: int) -> Seq<(DocKeyV, int)> {
    match find_fields(s, k.fields, s.len() as int) {
        Some(p) => s.update(p, (s[p].0, v)),
        None => s.push((k, v)),
    }
}

/// Whether a document has a key with the fields `f`.
pub open spec fn has_fields(k: Option<DocKeyV>, f: Seq<(Seq<char>, Option<Seq<char>>)>) -> bool {
    match k {
        Some(x) => x.fields == f,
        None => false,
    }
}

/// The first of the first `n` documents on the right whose key has fields
/// `f`.
pub open spec fn first_right(kr: Seq<Option<DocKeyV>>, f: Seq<(Seq<char>, Option<Seq<char>>)>, n: int) -> Option<int>
    decreases n,
{
    if n <= 0 || n > kr.len() {
        None
    } else {
        match first_right(kr, f, n - 1) {
            Some(j) => Some(j),
            None => match kr[n - 1] {
                Some(k) => if k.fields == f {
                    Some(n - 1)
                } else {
                    None
                },
                None => None,
            },
        }
    }
}

/// The keys of the first `n` documents, each once (by its fields), with
/// the index of the last document that has it.
pub open spec fn seen_keys(ks: Seq<Option<DocKeyV>>, n: int) -> Seq<(DocKeyV, int)>
    decreases n,
{
    if n <= 0 || n > ks.len() {
        seq![]
    } else {
        let before = seen_keys(ks, n - 1);
        match ks[n - 1] {
            Some(k) => put_seen(before, k, n - 1),
            None => before,
        }
    }
}

/// What has been found after some documents on the left: the pairs (key,
/// left, right) and the documents missing on the right (key, left).
pub ghost struct MatchState {
    pub matches: Seq<(DocKeyV, int, int)>,
    pub missing: Seq<(DocKeyV, int)>,
}

/// The state after document `i` on the left: a document with a key is
/// paired with the first document on the right with the same key, or is
/// missing where there is none.
pub open spec fn match_step(st: MatchState, kl: Seq<Option<DocKeyV>>, kr: Seq<Option<DocKeyV>>, i: int) -> MatchState {
    match kl[i] {
        None => st,
        Some(key) => match first_right(kr, key.fields, kr.len() as int) {
            Some(j) => MatchState { matches: st.matches.push((key, i, j)), missing: st.missing },
            None => MatchState { matches: st.matches, missing: st.missing.push((key, i)) },
        },
    }
}

/// The state after the first `n` documents on the left.
pub open spec fn match_run(kl: Seq<Option<DocKeyV>>, kr: Seq<Option<DocKeyV>>, n: int) -> MatchState
    decreases n,
{
    if n <= 0 {
        MatchState { matches: seq![], missing: seq![] }
    } else {
        match_step(match_run(kl, kr, n - 1), kl, kr, n - 1)
    }
}

/// The keys on the right that no document on the left has, in the order of
/// their fields.
pub open spec fn added_keys(kl: Seq<Option<DocKeyV>>, kr: Seq<Option<DocKeyV>>) -> Seq<(DocKeyV, int)> {
    let sr = seen_keys(kr, kr.len() as int);
    sort_by_fields(not_on_left(sr, seen_keys(kl, kl.len() as int), sr.len() as int))
}

/// The first `n` keys seen on the right that were not seen on the left.
pub open spec fn not_on_left(sr: Seq<(DocKeyV, int)>, sl: Seq<(DocKeyV, int)>, n: int) -> Seq<(DocKeyV, int)>
    decreases n,
{
    if n <= 0 || n > sr.len() {
        seq![]
    } else {
        not_on_left(sr, sl, n - 1) + if find_fields(sl, sr[n - 1].0.fields, sl.len() as int) is None {
            seq![sr[n - 1]]
        } else {
            seq![]
        }
    }
}

/// `e` placed before the first entry of `s` with greater fields.
pub open spec fn sorted_insert(s: Seq<(DocKeyV, int)>, e: (DocKeyV, int)) -> Seq<(DocKeyV, int)>
    decreases s.len(),
{
    if s.len() == 0 {
        seq![e]
    } else if compare_fields(e.0.fields, s[0].0.fields) < 0 {
        seq![e] + s
    } else {
        seq![s[0]] + sorted_insert(s.skip(1), e)
    }
}

/// The entries of `s` in the order of their fields.
pub open spec fn sort_by_fields(s: Seq<(DocKeyV, int)>) -> Seq<(DocKeyV, int)>
    decreases s.len(),
{
    if s.len() == 0 {
        seq![]
    } else {
        sorted_insert(sort_by_fields(s.drop_last()), s.last())
    }
}

/// The keys of all documents.
pub open spec fn keys_of(id: Identifier, docs: Seq<YamlSource>) -> Seq<Option<DocKeyV>> {
    Seq::new(docs.len(), |i: int| identify(id, i, docs[i].file@, docs[i].yaml@))
}

pub open spec fn opt_key_view(k: Option<DocKey>) -> Option<DocKeyV> {
    match k {
        Some(x) => Some(x@),
        None => None,
    }
}

pub open spec fn seen_view(s: Seq<(DocKey, usize)>) -> Seq<(DocKeyV, int)> {
    s.map_values(|e: (DocKey, usize)| (e.0@, e.1 as int))
}

pub open spec fn matches_view(s: Seq<MatchingDocs>) -> Seq<(DocKeyV, int, int)> {
    s.map_values(|m: MatchingDocs| (m.key@, m.left as int, m.right as int))
}

pub open spec fn missing_view(s: Seq<MissingDoc>) -> Seq<(DocKeyV, int)> {
    s.map_values(|m: MissingDoc| (m.key@, m.left as int))
}

pub open spec fn added_view(s: Seq<AdditionalDoc>) -> Seq<(DocKeyV, int)> {
    s.map_values(|m: AdditionalDoc| (m.key@, m.right as int))
}

/// The keys of the documents of a file.
fn keys_exec(id: Identifier, docs: &[YamlSource]) -> (r: Vec<Option<DocKey>>)
    ensures
        r@.len() == docs@.len(),
        r@.map_values(|k: Option<DocKey>| opt_key_view(k)) == keys_of(id, docs@),
{
    let mut out: Vec<Option<DocKey>> = Vec::new();
    let mut i: usize = 0;
    while i < docs.len()
        invariant
            i <= docs@.len(),
            out@.len() == i,
            forall|k: int| 0 <= k < i ==> opt_key_view(#[trigger] out@[k]) == identify(id, k, docs@[k].file@, docs@[k].yaml@),
        decreases docs.len() - i,
    {
        out.push(id.identify(i, &docs[i]));
        i = i + 1;
    }
    assert(out@.map_values(|k: Option<DocKey>| opt_key_view(k)) =~= keys_of(id, docs@));
    out
}

fn find_fields_exec(s: &Vec<(DocKey, usize)>, f: &Fields) -> (r: Option<usize>)
    ensures
        match find_fields(seen_view(s@), f@, s@.len() as int) {
            Some(p) => r is Some && r->0 == p && 0 <= p < s@.len(),
            None => r is None,
        },
{
    let mut i: usize = 0;
    while i < s.len()
        invariant
            i <= s@.len(),
            find_fields(seen_view(s@), f@, i as int) is None,
        decreases s.len() - i,
    {
        if s[i].0.fields.same(f) {
            assert(find_fields(seen_view(s@), f@, i + 1) == Some(i as int));
            proof {
                lemma_find_fields_stable(seen_view(s@), f@, i + 1, s@.len() as int);
            }
            return Some(i);
        }
        i = i + 1;
    }
    None
}

pub proof fn lemma_find_fields_stable(s: Seq<(DocKeyV, int)>, f: Seq<(Seq<char>, Option<Seq<char>>)>, m: int, n: int)
    requires
        0 <= m <= n <= s.len(),
        find_fields(s, f, m) is Some,
    ensures
        find_fields(s, f, n) == find_fields(s, f, m),
    decreases n - m,
{
    if n > m {
        lemma_find_fields_stable(s, f, m, n - 1);
    }
}

fn put_seen_exec(s: &mut Vec<(DocKey, usize)>, k: &DocKey, v: usize)
    ensures
        seen_view(final(s)@) == put_seen(seen_view(old(s)@), k@, v as int),
{
    let ghost before = seen_view(s@);
    assert(before.len() == s@.len());
    match find_fields_exec(s, &k.fields) {
        Some(p) => {
            assert(find_fields(before, k@.fields, before.len() as int) == Some(p as int));
            let key = s[p].0.copy();
            s.set(p, (key, v));
            assert(seen_view(s@) =~= before.update(p as int, (before[p as int].0, v as int)));
            assert(seen_view(s@) == put_seen(before, k@, v as int));
        },
        None => {
            s.push((k.copy(), v));
            assert(seen_view(s@) =~= before.push((k@, v as int)));
        },
    }
}

pub proof fn lemma_first_right_stable(kr: Seq<Option<DocKeyV>>, f: Seq<(Seq<char>, Option<Seq<char>>)>, m: int, n: int)
    requires
        0 <= m <= n <= kr.len(),
        first_right(kr, f, m) is Some,
    ensures
        first_right(kr, f, n) == first_right(kr, f, m),
    decreases n - m,
{
    if n > m {
        lemma_first_right_stable(kr, f, m, n - 1);
    }
}

pub proof fn lemma_first_right_bounds(kr: Seq<Option<DocKeyV>>, f: Seq<(Seq<char>, Option<Seq<char>>)>, n: int)
    ensures
        first_right(kr, f, n) matches Some(j) ==> 0 <= j < n && n <= kr.len() && has_fields(kr[j], f),
    decreases n,
{
    if 0 < n <= kr.len() {
        lemma_first_right_bounds(kr, f, n - 1);
    }
}

/// The first document on the right whose key has the fields `f`, as
/// [`first_right`] states.
fn first_right_exec(keys: &Vec<Option<DocKey>>, f: &Fields) -> (r: Option<usize>)
    ensures
        match r {
            Some(j) => first_right(keys@.map_values(|k: Option<DocKey>| opt_key_view(k)), f@, keys@.len() as int) == Some(j as int),
            None => first_right(keys@.map_values(|k: Option<DocKey>| opt_key_view(k)), f@, keys@.len() as int) is None,
        },
{
    let ghost kv = keys@.map_values(|k: Option<DocKey>| opt_key_view(k));
    let mut j: usize = 0;
    while j < keys.len()
        invariant
            j <= keys@.len(),
            kv == keys@.map_values(|k: Option<DocKey>| opt_key_view(k)),
            first_right(kv, f@, j as int) is None,
        decreases keys.len() - j,
    {
        assert(kv[j as int] == opt_key_view(keys@[j as int]));
        match &keys[j] {
            Some(k) => {
                if k.fields.same(f) {
                    assert(first_right(kv, f@, j + 1) == Some(j as int));
                    proof {
                        lemma_first_right_stable(kv, f@, j + 1, keys@.len() as int);
                    }
                    return Some(j);
                }
            },
            None => {},
        }
        j = j + 1;
    }
    None
}

/// The keys of the documents, each once, as [`seen_keys`] states.
fn seen_keys_exec(keys: &Vec<Option<DocKey>>) -> (r: Vec<(DocKey, usize)>)
    ensures
        seen_view(r@) == seen_keys(keys@.map_values(|k: Option<DocKey>| opt_key_view(k)), keys@.len() as int),
{
    let ghost kv = keys@.map_values(|k: Option<DocKey>| opt_key_view(k));
    let mut out: Vec<(DocKey, usize)> = Vec::new();
    let mut j: usize = 0;
    assert(seen_view(out@) =~= Seq::<(DocKeyV, int)>::empty());
    while j < keys.len()
        invariant
            j <= keys@.len(),
            kv == keys@.map_values(|k: Option<DocKey>| opt_key_view(k)),
            seen_view(out@) == seen_keys(kv, j as int),
        decreases keys.len() - j,
    {
        assert(kv[j as int] == opt_key_view(keys@[j as int]));
        match &keys[j] {
            Some(k) => {
                put_seen_exec(&mut out, k, j);
            },
            None => {},
        }
        j = j + 1;
    }
    out
}

/// Pairs the documents on the left with those on the right by key: each
/// document on the left with the first document on the right with the same
/// key, or as missing; then the keys only the right has, in the order of
/// their fields.
pub fn matching_docs(lefts: &[YamlSource], rights: &[YamlSource], id: Identifier) -> (r: (
    Vec<MatchingDocs>,
    Vec<MissingDoc>,
    Vec<AdditionalDoc>,
))
    ensures
        ({
            let st = match_run(keys_of(id, lefts@), keys_of(id, rights@), lefts@.len() as int);
            &&& matches_view(r.0@) == st.matches
            &&& missing_view(r.1@) == st.missing
            &&& added_view(r.2@) == added_keys(keys_of(id, lefts@), keys_of(id, rights@))
        }),
{
    let left_keys = keys_exec(id, lefts);
    let right_keys = keys_exec(id, rights);
    let ghost kl = keys_of(id, lefts@);
    let ghost kr = keys_of(id, rights@);
    let seen_left = seen_keys_exec(&left_keys);
    let seen_right = seen_keys_exec(&right_keys);
    let mut matches: Vec<MatchingDocs> = Vec::new();
    let mut missing: Vec<MissingDoc> = Vec::new();
    let mut i: usize = 0;
    proof {
        assert(matches_view(matches@) =~= Seq::<(DocKeyV, int, int)>::empty());
        assert(missing_view(missing@) =~= Seq::<(DocKeyV, int)>::empty());
    }
    while i < lefts.len()
        invariant
            i <= lefts@.len(),
            kl == keys_of(id, lefts@),
            kr == keys_of(id, rights@),
            left_keys@.map_values(|k: Option<DocKey>| opt_key_view(k)) == kl,
            right_keys@.map_values(|k: Option<DocKey>| opt_key_view(k)) == kr,
            left_keys@.len() == lefts@.len(),
            right_keys@.len() == rights@.len(),
            ({
                let st = match_run(kl, kr, i as int);
                &&& matches_view(matches@) == st.matches
                &&& missing_view(missing@) == st.missing
            }),
        decreases lefts.len() - i,
    {
        let ghost st = match_run(kl, kr, i as int);
        let ghost st2 = match_step(st, kl, kr, i as int);
        assert(match_run(kl, kr, i + 1) == st2);
        assert(kl[i as int] == opt_key_view(left_keys@[i as int]));
        match &left_keys[i] {
            None => {},
            Some(key) => {
                assert(kl[i as int] == Some(key@));
                assert(right_keys@.len() == kr.len());
                match first_right_exec(&right_keys, &key.fields) {
                    Some(j) => {
                        assert(first_right(kr, key@.fields, kr.len() as int) == Some(j as int));
                        assert(st2.matches == st.matches.push((key@, i as int, j as int)));
                        let ghost mb = matches_view(matches@);
                        matches.push(MatchingDocs { key: key.copy(), left: i, right: j });
                        assert(matches_view(matches@) =~= mb.push((key@, i as int, j as int)));
                    },
                    None => {
                        assert(first_right(kr, key@.fields, kr.len() as int) is None);
                        assert(st2.missing == st.missing.push((key@, i as int)));
                        let ghost mb = missing_view(missing@);
                        missing.push(MissingDoc { key: key.copy(), left: i });
                        assert(missing_view(missing@) =~= mb.push((key@, i as int)));
                    },
                }
            },
        }
        i = i + 1;
    }
    let ghost sr = seen_keys(kr, kr.len() as int);
    let ghost sl = seen_keys(kl, kl.len() as int);
    // Keys only the right has, in the order of their fields.
    let mut added: Vec<AdditionalDoc> = Vec::new();
    let mut k: usize = 0;
    proof {
        assert(added_view(added@) =~= sort_by_fields(not_on_left(sr, sl, 0)));
    }
    while k < seen_right.len()
        invariant
            k <= seen_right@.len(),
            seen_view(seen_right@) == sr,
            seen_view(seen_left@) == sl,
            added_view(added@) == sort_by_fields(not_on_left(sr, sl, k as int)),
        decreases seen_right.len() - k,
    {
        let on_left = find_fields_exec(&seen_left, &seen_right[k].0.fields);
        if on_left.is_none() {
            let e = AdditionalDoc { key: seen_right[k].0.copy(), right: seen_right[k].1 };
            sorted_insert_exec(&mut added, e);
        }
        assert(not_on_left(sr, sl, k + 1) =~= not_on_left(sr, sl, k as int) + if on_left is None {
            seq![sr[k as int]]
        } else {
            Seq::<(DocKeyV, int)>::empty()
        });
        proof {
            let x = not_on_left(sr, sl, k as int);
            if on_left is None {
                assert((x + seq![sr[k as int]]).drop_last() =~= x);
            } else {
                assert(x + Seq::<(DocKeyV, int)>::empty() =~= x);
            }
        }
        k = k + 1;
    }
    (matches, missing, added)
}

/// Places `e` before the first entry with greater fields.
fn sorted_insert_exec(s: &mut Vec<AdditionalDoc>, e: AdditionalDoc)
    ensures
        added_view(final(s)@) == sorted_insert(added_view(old(s)@), (e.key@, e.right as int)),
{
    let ghost before = added_view(s@);
    let ghost ev = (e.key@, e.right as int);
    let n = s.len();
    let mut i: usize = 0;
    assert(before.take(0) =~= Seq::<(DocKeyV, int)>::empty());
    assert(before.skip(0) =~= before);
    while i < n
        invariant
            i <= n,
            n == s@.len(),
            before == added_view(s@),
            ev == (e.key@, e.right as int),
            sorted_insert(before, ev) == before.take(i as int) + sorted_insert(before.skip(i as int), ev),
        ensures
            i <= n,
            i < n ==> compare_fields(before[i as int].0.fields, ev.0.fields) > 0,
            sorted_insert(before, ev) == before.take(i as int) + sorted_insert(before.skip(i as int), ev),
        decreases n - i,
    {
        let c = s[i].key.fields.compare(&e.key.fields);
        if c > 0 {
            assert(before[i as int] == (s@[i as int].key@, s@[i as int].right as int));
            break;
        }
        let ghost rest = before.skip(i as int);
        assert(rest[0] == before[i as int]);
        proof {
            lemma_compare_fields_flip(e.key@.fields, rest[0].0.fields);
        }
        assert(rest.skip(1) =~= before.skip(i + 1));
        assert(rest.len() > 0);
        assert(rest[0] == (s@[i as int].key@, s@[i as int].right as int));
        assert(compare_fields(rest[0].0.fields, ev.0.fields) <= 0);
        assert(compare_fields(ev.0.fields, rest[0].0.fields) >= 0);
        assert(sorted_insert(rest, ev) == seq![rest[0]] + sorted_insert(rest.skip(1), ev));
        assert(before.take(i + 1) =~= before.take(i as int).push(rest[0]));
        assert(before.take(i as int) + (seq![rest[0]] + sorted_insert(rest.skip(1), ev)) =~= before.take(i + 1) + sorted_insert(before.skip(i + 1), ev));
        i = i + 1;
    }
    proof {
        let rest = before.skip(i as int);
        if i < n {
            lemma_compare_fields_flip(e.key@.fields, rest[0].0.fields);
            assert(rest[0] == before[i as int]);
            assert(sorted_insert(rest, ev) == seq![ev] + rest);
        } else {
            assert(rest =~= Seq::<(DocKeyV, int)>::empty());
        }
    }
    s.insert(i, e);
    assert(added_view(s@) =~= before.take(i as int) + sorted_insert(before.skip(i as int), ev));
}

pub proof fn lemma_compare_fields_flip(a: Seq<(Seq<char>, Option<Seq<char>>)>, b: Seq<(Seq<char>, Option<Seq<char>>)>)
    ensures
        compare_fields(a, b) == -compare_fields(b, a),
    decreases a.len(),
{
    if a.len() > 0 && b.len() > 0 {
        lemma_compare_text_sign(a[0].0, b[0].0);
        match (a[0].1, b[0].1) {
            (Some(x), Some(y)) => lemma_compare_text_sign(x, y),
            _ => {},
        }
        lemma_compare_fields_flip(a.skip(1), b.skip(1));
    }
}

// ---------------------------------------------------------------------------
// The differences between the documents of two files
// ---------------------------------------------------------------------------

/// How documents are paired.
#[derive(Debug)]
pub struct Context {
    identifier: Identifier,
}

impl Context {
    pub fn new_with_doc_identifier(identifier: Identifier) -> (r: Context)
        ensures
            r.spec_identifier() == identifier,
    {
        Context { identifier }
    }

    pub closed spec fn spec_identifier(&self) -> Identifier {
        self.identifier
    }
}

/// What differs between the documents of two files.
#[derive(Debug)]
pub enum DocDifference {
    /// A key seen only on the right.
    Addition(AdditionalDoc),
    /// A document on the left without a partner on the right.
    Missing(MissingDoc),
    /// Two paired documents that differ.
    Changed { key: DocKey, left_doc_idx: usize, right_doc_idx: usize, differences: Vec<Difference> },
}

pub ghost enum DocDifferenceV {
    Addition(DocKeyV, int),
    Missing(DocKeyV, int),
    Changed(DocKeyV, int, int, Seq<DifferenceV>),
}

impl View for DocDifference {
    type V = DocDifferenceV;

    open spec fn view(&self) -> DocDifferenceV {
        match self {
            DocDifference::Addition(a) => DocDifferenceV::Addition(a.key@, a.right as int),
            DocDifference::Missing(m) => DocDifferenceV::Missing(m.key@, m.left as int),
            DocDifference::Changed { key, left_doc_idx, right_doc_idx, differences } => DocDifferenceV::Changed(
                key@,
                *left_doc_idx as int,
                *right_doc_idx as int,
                diffs_view(differences@),
            ),
        }
    }
}

pub open spec fn doc_diffs_view(s: Seq<DocDifference>) -> Seq<DocDifferenceV> {
    s.map_values(|d: DocDifference| d@)
}

/// The paired documents that differ, with their differences, in the order
/// of the pairs.
pub open spec fn changed_docs(ms: Seq<(DocKeyV, int, int)>, lefts: Seq<YamlSource>, rights: Seq<YamlSource>, n: int) -> Seq<DocDifferenceV>
    decreases n,
{
    if n <= 0 || n > ms.len() {
        seq![]
    } else {
        let m = ms[n - 1];
        let d = diff_spec(Seq::empty(), ArrayOrdering::Dynamic, lefts[m.1].yaml@, rights[m.2].yaml@);
        changed_docs(ms, lefts, rights, n - 1) + if d.len() > 0 {
            seq![DocDifferenceV::Changed(m.0, m.1, m.2, d)]
        } else {
            seq![]
        }
    }
}

pub open spec fn missing_diff(m: (DocKeyV, int)) -> DocDifferenceV {
    DocDifferenceV::Missing(m.0, m.1)
}

pub open spec fn added_diff(a: (DocKeyV, int)) -> DocDifferenceV {
    DocDifferenceV::Addition(a.0, a.1)
}

pub open spec fn missing_diffs(s: Seq<(DocKeyV, int)>) -> Seq<DocDifferenceV> {
    s.map_values(|m: (DocKeyV, int)| missing_diff(m))
}

pub open spec fn added_diffs(s: Seq<(DocKeyV, int)>) -> Seq<DocDifferenceV> {
    s.map_values(|a: (DocKeyV, int)| added_diff(a))
}

/// The pairing of the documents of two files.
pub open spec fn pairing(id: Identifier, lefts: Seq<YamlSource>, rights: Seq<YamlSource>) -> MatchState {
    match_run(keys_of(id, lefts), keys_of(id, rights), lefts.len() as int)
}

/// The differences between the documents of two files: the paired
/// documents that differ (sequences paired by similarity), then the
/// documents missing on the right, then the keys only the right has.
pub open spec fn doc_differences(id: Identifier, lefts: Seq<YamlSource>, rights: Seq<YamlSource>) -> Seq<DocDifferenceV> {
    let st = pairing(id, lefts, rights);
    let added = added_keys(keys_of(id, lefts), keys_of(id, rights));
    changed_docs(st.matches, lefts, rights, st.matches.len() as int) + missing_diffs(st.missing) + added_diffs(added)
}

/// Every pair names a document on each side, and every missing document
/// one on the left.
pub proof fn lemma_match_bounds(kl: Seq<Option<DocKeyV>>, kr: Seq<Option<DocKeyV>>, n: int)
    requires
        0 <= n <= kl.len(),
    ensures
        forall|k: int| 0 <= k < match_run(kl, kr, n).matches.len() ==> 0 <= (#[trigger] match_run(kl, kr, n).matches[k]).1 < n,
        forall|k: int| 0 <= k < match_run(kl, kr, n).matches.len() ==> 0 <= (#[trigger] match_run(kl, kr, n).matches[k]).2 < kr.len(),
        forall|k: int| 0 <= k < match_run(kl, kr, n).missing.len() ==> 0 <= (#[trigger] match_run(kl, kr, n).missing[k]).1 < n,
    decreases n,
{
    if n > 0 {
        lemma_match_bounds(kl, kr, n - 1);
        let st = match_run(kl, kr, n - 1);
        let st2 = match_run(kl, kr, n);
        assert(st2 == match_step(st, kl, kr, n - 1));
        match kl[n - 1] {
            None => {},
            Some(key) => {
                lemma_first_right_bounds(kr, key.fields, kr.len() as int);
                match first_right(kr, key.fields, kr.len() as int) {
                    Some(j) => {
                        assert(st2.matches == st.matches.push((key, n - 1, j)));
                        assert forall|k: int| 0 <= k < st2.matches.len() implies 0 <= (#[trigger] st2.matches[k]).1 < n
                            && 0 <= st2.matches[k].2 < kr.len() by {
                            if k < st.matches.len() {
                                assert(st2.matches[k] == st.matches[k]);
                            }
                        }
                    },
                    None => {
                        assert(st2.missing == st.missing.push((key, n - 1)));
                        assert forall|k: int| 0 <= k < st2.missing.len() implies 0 <= (#[trigger] st2.missing[k]).1 < n by {
                            if k < st.missing.len() {
                                assert(st2.missing[k] == st.missing[k]);
                            }
                        }
                    },
                }
            },
        }
    }
}

// ---------------------------------------------------------------------------
// What the pairing means
// ---------------------------------------------------------------------------

proof fn lemma_first_right_none_all(kr: Seq<Option<DocKeyV>>, f: Seq<(Seq<char>, Option<Seq<char>>)>, n: int)
    requires
        0 <= n <= kr.len(),
        first_right(kr, f, n) is None,
    ensures
        forall|j: int| 0 <= j < n ==> !has_fields(#[trigger] kr[j], f),
    decreases n,
{
    if n > 0 {
        lemma_first_right_none_all(kr, f, n - 1);
    }
}

/// Documents are paired by key: each pair joins a document on the left
/// with a document on the right with the same key, each document missing
/// on the right has a key that no document on the right has, and every
/// document on the left with a key is either paired or missing.
pub proof fn lemma_pairs_by_key(kl: Seq<Option<DocKeyV>>, kr: Seq<Option<DocKeyV>>, n: int)
    requires
        0 <= n <= kl.len(),
    ensures
        forall|k: int| #![trigger match_run(kl, kr, n).matches[k]]
            0 <= k < match_run(kl, kr, n).matches.len() ==> {
                let m = match_run(kl, kr, n).matches[k];
                &&& 0 <= m.1 < n
                &&& kl[m.1] == Some(m.0)
                &&& 0 <= m.2 < kr.len()
                &&& has_fields(kr[m.2], m.0.fields)
            },
        forall|k: int| #![trigger match_run(kl, kr, n).missing[k]]
            0 <= k < match_run(kl, kr, n).missing.len() ==> {
                let m = match_run(kl, kr, n).missing[k];
                &&& 0 <= m.1 < n
                &&& kl[m.1] == Some(m.0)
                &&& forall|j: int| 0 <= j < kr.len() ==> !has_fields(#[trigger] kr[j], m.0.fields)
            },
        forall|i: int| 0 <= i < n && (#[trigger] kl[i]) is Some ==> (exists|k: int|
            0 <= k < match_run(kl, kr, n).matches.len() && (#[trigger] match_run(kl, kr, n).matches[k]).1 == i) || (exists|k: int|
            0 <= k < match_run(kl, kr, n).missing.len() && (#[trigger] match_run(kl, kr, n).missing[k]).1 == i),
    decreases n,
{
    if n > 0 {
        lemma_pairs_by_key(kl, kr, n - 1);
        let st = match_run(kl, kr, n - 1);
        let st2 = match_run(kl, kr, n);
        assert(st2 == match_step(st, kl, kr, n - 1));
        match kl[n - 1] {
            None => {
                assert forall|i: int| 0 <= i < n && (#[trigger] kl[i]) is Some implies (exists|k: int|
                    0 <= k < st2.matches.len() && (#[trigger] st2.matches[k]).1 == i) || (exists|k: int|
                    0 <= k < st2.missing.len() && (#[trigger] st2.missing[k]).1 == i) by {
                    assert(i < n - 1);
                }
            },
            Some(key) => {
                lemma_first_right_bounds(kr, key.fields, kr.len() as int);
                match first_right(kr, key.fields, kr.len() as int) {
                    Some(j) => {
                        assert(st2.matches == st.matches.push((key, n - 1, j)));
                        assert(st2.missing == st.missing);
                        assert forall|k: int| 0 <= k < st2.matches.len() implies {
                            let m = #[trigger] st2.matches[k];
                            &&& 0 <= m.1 < n
                            &&& kl[m.1] == Some(m.0)
                            &&& 0 <= m.2 < kr.len()
                            &&& has_fields(kr[m.2], m.0.fields)
                        } by {
                            if k < st.matches.len() {
                                assert(st2.matches[k] == st.matches[k]);
                            }
                        }
                        assert forall|i: int| 0 <= i < n && (#[trigger] kl[i]) is Some implies (exists|k: int|
                            0 <= k < st2.matches.len() && (#[trigger] st2.matches[k]).1 == i) || (exists|k: int|
                            0 <= k < st2.missing.len() && (#[trigger] st2.missing[k]).1 == i) by {
                            if i == n - 1 {
                                assert(st2.matches[st.matches.len() as int].1 == i);
                            } else {
                                if exists|k: int| 0 <= k < st.matches.len() && (#[trigger] st.matches[k]).1 == i {
                                    let k = choose|k: int| 0 <= k < st.matches.len() && (#[trigger] st.matches[k]).1 == i;
                                    assert(st2.matches[k] == st.matches[k]);
                                }
                            }
                        }
                    },
                    None => {
                        lemma_first_right_none_all(kr, key.fields, kr.len() as int);
                        assert(st2.missing == st.missing.push((key, n - 1)));
                        assert(st2.matches == st.matches);
                        assert forall|k: int| 0 <= k < st2.missing.len() implies {
                            let m = #[trigger] st2.missing[k];
                            &&& 0 <= m.1 < n
                            &&& kl[m.1] == Some(m.0)
                            &&& forall|j: int| 0 <= j < kr.len() ==> !has_fields(#[trigger] kr[j], m.0.fields)
                        } by {
                            if k < st.missing.len() {
                                assert(st2.missing[k] == st.missing[k]);
                            }
                        }
                        assert forall|i: int| 0 <= i < n && (#[trigger] kl[i]) is Some implies (exists|k: int|
                            0 <= k < st2.matches.len() && (#[trigger] st2.matches[k]).1 == i) || (exists|k: int|
                            0 <= k < st2.missing.len() && (#[trigger] st2.missing[k]).1 == i) by {
                            if i == n - 1 {
                                assert(st2.missing[st.missing.len() as int].1 == i);
                            } else {
                                if exists|k: int| 0 <= k < st.missing.len() && (#[trigger] st.missing[k]).1 == i {
                                    let k = choose|k: int| 0 <= k < st.missing.len() && (#[trigger] st.missing[k]).1 == i;
                                    assert(st2.missing[k] == st.missing[k]);
                                }
                            }
                        }
                    },
                }
            },
        }
    }
}

proof fn lemma_find_fields_some(s: Seq<(DocKeyV, int)>, f: Seq<(Seq<char>, Option<Seq<char>>)>, n: int)
    ensures
        find_fields(s, f, n) matches Some(p) ==> 0 <= p < n && n <= s.len() && s[p].0.fields == f,
    decreases n,
{
    if 0 < n <= s.len() {
        lemma_find_fields_some(s, f, n - 1);
    }
}

/// Looking up fields depends on the fields of the entries alone.
proof fn lemma_find_fields_agree(s: Seq<(DocKeyV, int)>, t: Seq<(DocKeyV, int)>, f: Seq<(Seq<char>, Option<Seq<char>>)>, n: int)
    requires
        0 <= n <= s.len(),
        n <= t.len(),
        forall|i: int| 0 <= i < n ==> (#[trigger] s[i]).0.fields == t[i].0.fields,
    ensures
        find_fields(s, f, n) == find_fields(t, f, n),
    decreases n,
{
    if n > 0 {
        lemma_find_fields_agree(s, t, f, n - 1);
    }
}

/// The keys seen among the first `n` documents: each stands for a document
/// with those fields, and every document with a key is found among them.
proof fn lemma_seen_keys(ks: Seq<Option<DocKeyV>>, n: int)
    requires
        0 <= n <= ks.len(),
    ensures
        forall|p: int| #![trigger seen_keys(ks, n)[p]]
            0 <= p < seen_keys(ks, n).len() ==> 0 <= seen_keys(ks, n)[p].1 < n && has_fields(
                ks[seen_keys(ks, n)[p].1],
                seen_keys(ks, n)[p].0.fields,
            ),
        forall|j: int| 0 <= j < n && (#[trigger] ks[j]) is Some ==> find_fields(
            seen_keys(ks, n),
            ks[j]->0.fields,
            seen_keys(ks, n).len() as int,
        ) is Some,
    decreases n,
{
    if n > 0 {
        lemma_seen_keys(ks, n - 1);
        let s = seen_keys(ks, n - 1);
        let s2 = seen_keys(ks, n);
        match ks[n - 1] {
            None => {
                assert(s2 == s);
            },
            Some(k) => {
                lemma_find_fields_some(s, k.fields, s.len() as int);
                match find_fields(s, k.fields, s.len() as int) {
                    Some(p) => {
                        assert(s2 == s.update(p, (s[p].0, n - 1)));
                        assert forall|q: int| 0 <= q < s2.len() implies 0 <= (#[trigger] s2[q]).1 < n && has_fields(
                            ks[s2[q].1],
                            s2[q].0.fields,
                        ) by {
                            if q != p {
                                assert(s2[q] == s[q]);
                            }
                        }
                        assert forall|f: Seq<(Seq<char>, Option<Seq<char>>)>| find_fields(s2, f, s2.len() as int) == #[trigger] find_fields(
                            s,
                            f,
                            s.len() as int,
                        ) by {
                            assert forall|i: int| 0 <= i < s.len() implies (#[trigger] s2[i]).0.fields == s[i].0.fields by {}
                            lemma_find_fields_agree(s2, s, f, s.len() as int);
                        }
                    },
                    None => {
                        assert(s2 == s.push((k, n - 1)));
                        assert forall|q: int| 0 <= q < s2.len() implies 0 <= (#[trigger] s2[q]).1 < n && has_fields(
                            ks[s2[q].1],
                            s2[q].0.fields,
                        ) by {
                            if q < s.len() {
                                assert(s2[q] == s[q]);
                            }
                        }
                        assert forall|j: int| 0 <= j < n && (#[trigger] ks[j]) is Some implies find_fields(
                            s2,
                            ks[j]->0.fields,
                            s2.len() as int,
                        ) is Some by {
                            let f = ks[j]->0.fields;
                            assert forall|i: int| 0 <= i < s.len() implies (#[trigger] s2[i]).0.fields == s[i].0.fields by {}
                            lemma_find_fields_agree(s2, s, f, s.len() as int);
                        }
                    },
                }
            },
        }
    }
}

/// What is kept of the keys seen on the right: each of them that the left
/// lacks, and nothing else.
proof fn lemma_not_on_left(sr: Seq<(DocKeyV, int)>, sl: Seq<(DocKeyV, int)>, m: int)
    requires
        0 <= m <= sr.len(),
    ensures
        forall|q: int| #![trigger not_on_left(sr, sl, m)[q]]
            0 <= q < not_on_left(sr, sl, m).len() ==> sr.contains(not_on_left(sr, sl, m)[q]) && find_fields(
                sl,
                not_on_left(sr, sl, m)[q].0.fields,
                sl.len() as int,
            ) is None,
        forall|p: int| 0 <= p < m && find_fields(sl, (#[trigger] sr[p]).0.fields, sl.len() as int) is None ==> not_on_left(
            sr,
            sl,
            m,
        ).contains(sr[p]),
    decreases m,
{
    if m > 0 {
        lemma_not_on_left(sr, sl, m - 1);
        let a = not_on_left(sr, sl, m - 1);
        let r = not_on_left(sr, sl, m);
        if find_fields(sl, sr[m - 1].0.fields, sl.len() as int) is None {
            assert(r == a + seq![sr[m - 1]]);
            assert(r[a.len() as int] == sr[m - 1]);
            assert forall|q: int| 0 <= q < r.len() implies sr.contains(#[trigger] r[q]) && find_fields(
                sl,
                r[q].0.fields,
                sl.len() as int,
            ) is None by {
                if q < a.len() {
                    assert(r[q] == a[q]);
                } else {
                    assert(sr[m - 1] == r[q]);
                }
            }
            assert forall|p: int| 0 <= p < m && find_fields(sl, (#[trigger] sr[p]).0.fields, sl.len() as int) is None implies r.contains(sr[p]) by {
                if p < m - 1 {
                    let q = choose|q: int| 0 <= q < a.len() && a[q] == sr[p];
                    assert(r[q] == a[q]);
                }
            }
        } else {
            assert(r =~= a);
        }
    }
}

proof fn lemma_sorted_insert_multiset(s: Seq<(DocKeyV, int)>, e: (DocKeyV, int))
    ensures
        sorted_insert(s, e).to_multiset() =~= s.to_multiset().insert(e),
    decreases s.len(),
{
    broadcast use vstd::seq_lib::group_to_multiset_ensures;

    if s.len() == 0 {
        assert(sorted_insert(s, e) =~= Seq::<(DocKeyV, int)>::empty().push(e));
    } else if compare_fields(e.0.fields, s[0].0.fields) < 0 {
        vstd::seq_lib::lemma_multiset_commutative(seq![e], s);
        assert(seq![e] =~= Seq::<(DocKeyV, int)>::empty().push(e));
    } else {
        lemma_sorted_insert_multiset(s.skip(1), e);
        vstd::seq_lib::lemma_multiset_commutative(seq![s[0]], sorted_insert(s.skip(1), e));
        vstd::seq_lib::lemma_multiset_commutative(seq![s[0]], s.skip(1));
        assert(seq![s[0]] + s.skip(1) =~= s);
        assert(seq![s[0]] =~= Seq::<(DocKeyV, int)>::empty().push(s[0]));
    }
}

/// Sorting by fields keeps every entry, as many times as it occurs.
proof fn lemma_sort_by_fields_multiset(s: Seq<(DocKeyV, int)>)
    ensures
        sort_by_fields(s).to_multiset() =~= s.to_multiset(),
    decreases s.len(),
{
    broadcast use vstd::seq_lib::group_to_multiset_ensures;

    if s.len() > 0 {
        lemma_sort_by_fields_multiset(s.drop_last());
        lemma_sorted_insert_multiset(sort_by_fields(s.drop_last()), s.last());
        assert(s =~= s.drop_last().push(s.last()));
    }
}

/// The keys reported as added are exactly those the right has and the left
/// lacks: each names a document on the right with that key, no document on
/// the left has it, and every document on the right whose key the left
/// lacks has its key reported.
pub proof fn lemma_added_keys(kl: Seq<Option<DocKeyV>>, kr: Seq<Option<DocKeyV>>)
    ensures
        forall|p: int| #![trigger added_keys(kl, kr)[p]]
            0 <= p < added_keys(kl, kr).len() ==> {
                let a = added_keys(kl, kr)[p];
                &&& 0 <= a.1 < kr.len()
                &&& has_fields(kr[a.1], a.0.fields)
                &&& forall|i: int| 0 <= i < kl.len() ==> !has_fields(#[trigger] kl[i], a.0.fields)
            },
        forall|j: int| #![trigger kr[j]]
            0 <= j < kr.len() && kr[j] is Some && (forall|i: int| 0 <= i < kl.len() ==> !has_fields(
                #[trigger] kl[i],
                kr[j]->0.fields,
            )) ==> exists|p: int| 0 <= p < added_keys(kl, kr).len() && (#[trigger] added_keys(kl, kr)[p]).0.fields == kr[j]->0.fields,
{
    broadcast use vstd::seq_lib::group_to_multiset_ensures;

    let sr = seen_keys(kr, kr.len() as int);
    let sl = seen_keys(kl, kl.len() as int);
    lemma_seen_keys(kr, kr.len() as int);
    lemma_seen_keys(kl, kl.len() as int);
    let nol = not_on_left(sr, sl, sr.len() as int);
    lemma_not_on_left(sr, sl, sr.len() as int);
    lemma_sort_by_fields_multiset(nol);
    let ad = added_keys(kl, kr);
    assert(ad == sort_by_fields(nol));
    assert forall|p: int| 0 <= p < ad.len() implies {
        let a = #[trigger] ad[p];
        &&& 0 <= a.1 < kr.len()
        &&& has_fields(kr[a.1], a.0.fields)
        &&& forall|i: int| 0 <= i < kl.len() ==> !has_fields(#[trigger] kl[i], a.0.fields)
    } by {
        let a = ad[p];
        assert(ad.contains(a));
        assert(ad.to_multiset().count(a) > 0);
        assert(nol.contains(a));
        let q = choose|q: int| 0 <= q < nol.len() && nol[q] == a;
        assert(sr.contains(nol[q]));
        let x = choose|x: int| 0 <= x < sr.len() && sr[x] == a;
        assert(sr[x] == a);
        assert forall|i: int| 0 <= i < kl.len() implies !has_fields(#[trigger] kl[i], a.0.fields) by {
            if has_fields(kl[i], a.0.fields) {
                assert(kl[i] is Some);
                assert(kl[i]->0.fields == a.0.fields);
            }
        }
    }
    assert forall|j: int| #![trigger kr[j]]
        0 <= j < kr.len() && kr[j] is Some && (forall|i: int| 0 <= i < kl.len() ==> !has_fields(
            #[trigger] kl[i],
            kr[j]->0.fields,
        )) implies exists|p: int| 0 <= p < ad.len() && (#[trigger] ad[p]).0.fields == kr[j]->0.fields by {
        let f = kr[j]->0.fields;
        assert(find_fields(sr, f, sr.len() as int) is Some);
        lemma_find_fields_some(sr, f, sr.len() as int);
        let x = find_fields(sr, f, sr.len() as int)->0;
        assert(sr[x].0.fields == f);
        lemma_find_fields_some(sl, f, sl.len() as int);
        if find_fields(sl, f, sl.len() as int) is Some {
            let y = find_fields(sl, f, sl.len() as int)->0;
            assert(has_fields(kl[sl[y].1], sl[y].0.fields));
            assert(false);
        }
        assert(nol.contains(sr[x]));
        assert(nol.to_multiset().count(sr[x]) > 0);
        assert(ad.to_multiset().count(sr[x]) > 0);
        assert(ad.contains(sr[x]));
        let p = choose|p: int| 0 <= p < ad.len() && ad[p] == sr[x];
        assert(ad[p].0.fields == f);
    }
}

/// The differences between the documents of two files, as
/// [`doc_differences`] states.
pub fn diff(ctx: &Context, lefts: &[YamlSource], rights: &[YamlSource]) -> (r: Vec<DocDifference>)
    ensures
        doc_diffs_view(r@) == doc_differences(ctx.spec_identifier(), lefts@, rights@),
{
    let (matches, missing, added) = matching_docs(lefts, rights, ctx.identifier);
    let ghost st = pairing(ctx.identifier, lefts@, rights@);
    proof {
        lemma_match_bounds(keys_of(ctx.identifier, lefts@), keys_of(ctx.identifier, rights@), lefts@.len() as int);
    }
    let mut out: Vec<DocDifference> = Vec::new();
    let mut i: usize = 0;
    assert(doc_diffs_view(out@) =~= changed_docs(st.matches, lefts@, rights@, 0));
    while i < matches.len()
        invariant
            i <= matches@.len(),
            st == pairing(ctx.spec_identifier(), lefts@, rights@),
            matches_view(matches@) == st.matches,
            forall|k: int| 0 <= k < st.matches.len() ==> 0 <= (#[trigger] st.matches[k]).1 < lefts@.len(),
            forall|k: int| 0 <= k < st.matches.len() ==> 0 <= (#[trigger] st.matches[k]).2 < rights@.len(),
            doc_diffs_view(out@) == changed_docs(st.matches, lefts@, rights@, i as int),
        decreases matches.len() - i,
    {
        let m = &matches[i];
        assert(st.matches[i as int] == (m.key@, m.left as int, m.right as int));
        let ctx_d = DiffContext::with_ordering(ArrayOrdering::Dynamic);
        let diffs = diff_nodes(ctx_d, &lefts[m.left].yaml, &rights[m.right].yaml);
        let ghost before = doc_diffs_view(out@);
        if diffs.len() > 0 {
            out.push(DocDifference::Changed {
                key: m.key.copy(),
                left_doc_idx: m.left,
                right_doc_idx: m.right,
                differences: diffs,
            });
        }
        assert(doc_diffs_view(out@) =~= changed_docs(st.matches, lefts@, rights@, i + 1));
        i = i + 1;
    }
    let ghost part1 = doc_diffs_view(out@);
    let mut k: usize = 0;
    assert(part1 + missing_diffs(st.missing.take(0)) =~= part1);
    while k < missing.len()
        invariant
            k <= missing@.len(),
            missing_view(missing@) == st.missing,
            doc_diffs_view(out@) == part1 + missing_diffs(st.missing.take(k as int)),
        decreases missing.len() - k,
    {
        let ghost before = doc_diffs_view(out@);
        out.push(DocDifference::Missing(MissingDoc { key: missing[k].key.copy(), left: missing[k].left }));
        assert(st.missing[k as int] == (missing@[k as int].key@, missing@[k as int].left as int));
        assert(doc_diffs_view(out@) =~= before.push(missing_diff(st.missing[k as int])));
        assert(missing_diffs(st.missing.take(k + 1)) =~= missing_diffs(st.missing.take(k as int)).push(missing_diff(st.missing[k as int])));
        assert(doc_diffs_view(out@) =~= part1 + missing_diffs(st.missing.take(k + 1)));
        k = k + 1;
    }
    assert(st.missing.take(k as int) =~= st.missing);
    let ghost part2 = doc_diffs_view(out@);
    let ghost av = added_view(added@);
    let mut k: usize = 0;
    assert(part2 + added_diffs(av.take(0)) =~= part2);
    while k < added.len()
        invariant
            k <= added@.len(),
            av == added_view(added@),
            doc_diffs_view(out@) == part2 + added_diffs(av.take(k as int)),
        decreases added.len() - k,
    {
        let ghost before = doc_diffs_view(out@);
        out.push(DocDifference::Addition(AdditionalDoc { key: added[k].key.copy(), right: added[k].right }));
        assert(av[k as int] == (added@[k as int].key@, added@[k as int].right as int));
        assert(doc_diffs_view(out@) =~= before.push(added_diff(av[k as int])));
        assert(added_diffs(av.take(k + 1)) =~= added_diffs(av.take(k as int)).push(added_diff(av[k as int])));
        assert(doc_diffs_view(out@) =~= part2 + added_diffs(av.take(k + 1)));
        k = k + 1;
    }
    assert(av.take(k as int) =~= av);
    out
}

// ---------------------------------------------------------------------------
// Documents compared with themselves
// ---------------------------------------------------------------------------

/// Keys that are all present, each with fields of its own.
pub open spec fn distinct_keys(ks: Seq<Option<DocKeyV>>) -> bool {
    &&& forall|i: int| 0 <= i < ks.len() ==> (#[trigger] ks[i]) is Some
    &&& forall|i: int, j: int| 0 <= i < j < ks.len() ==> (#[trigger] ks[i])->0.fields != (#[trigger] ks[j])->0.fields
}

proof fn lemma_first_right_none(kr: Seq<Option<DocKeyV>>, f: Seq<(Seq<char>, Option<Seq<char>>)>, n: int)
    requires
        0 <= n <= kr.len(),
        forall|j: int| 0 <= j < n ==> !has_fields(#[trigger] kr[j], f),
    ensures
        first_right(kr, f, n) is None,
    decreases n,
{
    if n > 0 {
        lemma_first_right_none(kr, f, n - 1);
    }
}

/// An entry of `s` is found by its own fields.
proof fn lemma_find_fields_hit(s: Seq<(DocKeyV, int)>, k: int, n: int)
    requires
        0 <= k < n <= s.len(),
    ensures
        find_fields(s, s[k].0.fields, n) is Some,
    decreases n,
{
    if n - 1 > k {
        lemma_find_fields_hit(s, k, n - 1);
    }
}

/// Pairing keys with themselves: after `n` documents, each has been paired
/// with the document at its own index, and none is missing.
proof fn lemma_self_run(ks: Seq<Option<DocKeyV>>, n: int)
    requires
        distinct_keys(ks),
        0 <= n <= ks.len(),
    ensures
        match_run(ks, ks, n).matches =~= Seq::new(n as nat, |i: int| (ks[i]->0, i, i)),
        match_run(ks, ks, n).missing.len() == 0,
    decreases n,
{
    if n > 0 {
        let m = n - 1;
        lemma_self_run(ks, m);
        let key = ks[m]->0;
        assert(ks[m] is Some);
        assert forall|j: int| 0 <= j < m implies !has_fields(#[trigger] ks[j], key.fields) by {
            assert(ks[j] is Some);
        }
        lemma_first_right_none(ks, key.fields, m);
        assert(first_right(ks, key.fields, m + 1) == Some(m));
        lemma_first_right_stable(ks, key.fields, m + 1, ks.len() as int);
    }
}

/// Documents compared with themselves differ nowhere, where each has a
/// key of its own.
pub proof fn lemma_self_no_differences(id: Identifier, docs: Seq<YamlSource>)
    requires
        distinct_keys(keys_of(id, docs)),
    ensures
        doc_differences(id, docs, docs) == Seq::<DocDifferenceV>::empty(),
{
    let ks = keys_of(id, docs);
    let n = docs.len() as int;
    lemma_self_run(ks, n);
    let st = pairing(id, docs, docs);
    assert(st == match_run(ks, ks, n));
    lemma_self_changed(st.matches, docs, n);
    let sl = seen_keys(ks, n);
    assert forall|k: int| 0 <= k < sl.len() implies find_fields(sl, (#[trigger] sl[k]).0.fields, sl.len() as int) is Some by {
        lemma_find_fields_hit(sl, k, sl.len() as int);
    }
    lemma_self_not_on_left(sl, sl, sl.len() as int);
    assert(missing_diffs(st.missing) =~= Seq::<DocDifferenceV>::empty());
    assert(added_diffs(sort_by_fields(Seq::<(DocKeyV, int)>::empty())) =~= Seq::<DocDifferenceV>::empty());
    assert(doc_differences(id, docs, docs) =~= Seq::<DocDifferenceV>::empty());
}

proof fn lemma_self_changed(ms: Seq<(DocKeyV, int, int)>, docs: Seq<YamlSource>, n: int)
    requires
        0 <= n <= ms.len(),
        ms.len() == docs.len(),
        forall|i: int| 0 <= i < ms.len() ==> (#[trigger] ms[i]).1 == i && ms[i].2 == i,
    ensures
        changed_docs(ms, docs, docs, n) == Seq::<DocDifferenceV>::empty(),
    decreases n,
{
    if n > 0 {
        lemma_self_changed(ms, docs, n - 1);
        let m = ms[n - 1];
        lemma_diff_self(Seq::empty(), ArrayOrdering::Dynamic, docs[m.1].yaml@);
        assert(changed_docs(ms, docs, docs, n) =~= Seq::<DocDifferenceV>::empty());
    }
}

proof fn lemma_self_not_on_left(sr: Seq<(DocKeyV, int)>, sl: Seq<(DocKeyV, int)>, n: int)
    requires
        0 <= n <= sr.len(),
        forall|k: int| 0 <= k < sr.len() ==> find_fields(sl, (#[trigger] sr[k]).0.fields, sl.len() as int) is Some,
    ensures
        not_on_left(sr, sl, n) == Seq::<(DocKeyV, int)>::empty(),
    decreases n,
{
    if n > 0 {
        lemma_self_not_on_left(sr, sl, n - 1);
        assert(find_fields(sl, sr[n - 1].0.fields, sl.len() as int) is Some);
        assert(not_on_left(sr, sl, n) =~= Seq::<(DocKeyV, int)>::empty());
    }
}

/// Paired by index, every document has a key of its own.
pub proof fn lemma_by_index_distinct(docs: Seq<YamlSource>)
    ensures
        distinct_keys(keys_of(Identifier::ByIndex, docs)),
{
    let ks = keys_of(Identifier::ByIndex, docs);
    assert forall|i: int, j: int| 0 <= i < j < ks.len() implies (#[trigger] ks[i])->0.fields != (#[trigger] ks[j])->0.fields by {
        if ks[i]->0.fields == ks[j]->0.fields {
            assert(ks[i]->0.fields[0] == ks[j]->0.fields[0]);
            lemma_decimal_injective(i as nat, j as nat);
        }
    }
}

/// A set of documents compared with itself, paired by index, differs
/// nowhere.
pub proof fn lemma_by_index_self(docs: Seq<YamlSource>)
    ensures
        doc_differences(Identifier::ByIndex, docs, docs) == Seq::<DocDifferenceV>::empty(),
{
    lemma_by_index_distinct(docs);
    lemma_self_no_differences(Identifier::ByIndex, docs);
}

// ---------------------------------------------------------------------------
// The order in which differences are shown
// ---------------------------------------------------------------------------

/// Keys seen only on the right first, then documents missing on the right,
/// then changed documents.
pub open spec fn doc_rank(d: DocDifferenceV) -> int {
    match d {
        DocDifferenceV::Addition(..) => 0,
        DocDifferenceV::Missing(..) => 1,
        DocDifferenceV::Changed(..) => 2,
    }
}

pub open spec fn doc_key(d: DocDifferenceV) -> DocKeyV {
    match d {
        DocDifferenceV::Addition(k, _) => k,
        DocDifferenceV::Missing(k, _) => k,
        DocDifferenceV::Changed(k, _, _, _) => k,
    }
}

/// The order of two differences: by kind, then by the fields of their key.
pub open spec fn doc_order(a: DocDifferenceV, b: DocDifferenceV) -> int {
    if doc_rank(a) < doc_rank(b) {
        -1
    } else if doc_rank(a) > doc_rank(b) {
        1
    } else {
        compare_fields(doc_key(a).fields, doc_key(b).fields)
    }
}

/// `e` placed after every element of `s` that is not greater.
pub open spec fn insert_in_order(s: Seq<DocDifferenceV>, e: DocDifferenceV) -> Seq<DocDifferenceV>
    decreases s.len(),
{
    if s.len() == 0 {
        seq![e]
    } else if doc_order(s.last(), e) > 0 {
        insert_in_order(s.drop_last(), e).push(s.last())
    } else {
        s.push(e)
    }
}

/// The differences in order, equal ones as they came.
pub open spec fn sort_docs(s: Seq<DocDifferenceV>) -> Seq<DocDifferenceV>
    decreases s.len(),
{
    if s.len() == 0 {
        seq![]
    } else {
        insert_in_order(sort_docs(s.drop_last()), s.last())
    }
}

pub proof fn lemma_insert_in_order_multiset(s: Seq<DocDifferenceV>, e: DocDifferenceV)
    ensures
        insert_in_order(s, e).to_multiset() =~= s.to_multiset().insert(e),
    decreases s.len(),
{
    broadcast use vstd::seq_lib::group_to_multiset_ensures;

    if s.len() > 0 {
        assert(s =~= s.drop_last().push(s.last()));
        if doc_order(s.last(), e) > 0 {
            lemma_insert_in_order_multiset(s.drop_last(), e);
        }
    }
}

/// Sorting keeps every difference, as many times as it occurs.
pub proof fn lemma_sort_docs_permutes(s: Seq<DocDifferenceV>)
    ensures
        sort_docs(s).to_multiset() =~= s.to_multiset(),
    decreases s.len(),
{
    broadcast use vstd::seq_lib::group_to_multiset_ensures;

    if s.len() > 0 {
        lemma_sort_docs_permutes(s.drop_last());
        lemma_insert_in_order_multiset(sort_docs(s.drop_last()), s.last());
        assert(s =~= s.drop_last().push(s.last()));
    }
}

proof fn lemma_compare_text_le(a: Seq<char>, b: Seq<char>, c: Seq<char>)
    ensures
        compare_text(a, b) <= 0 && compare_text(b, c) <= 0 ==> compare_text(a, c) <= 0,
        compare_text(a, b) < 0 && compare_text(b, c) <= 0 ==> compare_text(a, c) < 0,
        compare_text(a, b) <= 0 && compare_text(b, c) < 0 ==> compare_text(a, c) < 0,
{
    lemma_compare_text_sign(a, b);
    lemma_compare_text_sign(b, c);
    lemma_compare_text_sign(a, c);
    if compare_text(a, b) < 0 && compare_text(b, c) < 0 {
        lemma_compare_text_trans(a, b, c);
    }
}

proof fn lemma_compare_value_le(a: Option<Seq<char>>, b: Option<Seq<char>>, c: Option<Seq<char>>)
    ensures
        -1 <= compare_value(a, b) <= 1,
        compare_value(a, b) == 0 <==> a == b,
        compare_value(a, b) <= 0 && compare_value(b, c) <= 0 ==> compare_value(a, c) <= 0,
        compare_value(a, b) < 0 && compare_value(b, c) <= 0 ==> compare_value(a, c) < 0,
        compare_value(a, b) <= 0 && compare_value(b, c) < 0 ==> compare_value(a, c) < 0,
{
    match (a, b, c) {
        (Some(x), Some(y), Some(z)) => {
            lemma_compare_text_le(x, y, z);
            lemma_compare_text_sign(x, y);
        },
        (Some(x), Some(y), None) => lemma_compare_text_sign(x, y),
        _ => {},
    }
}

/// The order of fields is transitive.
pub proof fn lemma_compare_fields_le(
    a: Seq<(Seq<char>, Option<Seq<char>>)>,
    b: Seq<(Seq<char>, Option<Seq<char>>)>,
    c: Seq<(Seq<char>, Option<Seq<char>>)>,
)
    ensures
        compare_fields(a, b) <= 0 && compare_fields(b, c) <= 0 ==> compare_fields(a, c) <= 0,
        compare_fields(a, b) < 0 && compare_fields(b, c) <= 0 ==> compare_fields(a, c) < 0,
        compare_fields(a, b) <= 0 && compare_fields(b, c) < 0 ==> compare_fields(a, c) < 0,
    decreases a.len(),
{
    if a.len() > 0 && b.len() > 0 && c.len() > 0 {
        lemma_compare_text_le(a[0].0, b[0].0, c[0].0);
        lemma_compare_text_sign(a[0].0, b[0].0);
        lemma_compare_text_sign(b[0].0, c[0].0);
        lemma_compare_text_sign(a[0].0, c[0].0);
        lemma_compare_value_le(a[0].1, b[0].1, c[0].1);
        lemma_compare_value_le(b[0].1, c[0].1, a[0].1);
        lemma_compare_value_le(a[0].1, c[0].1, b[0].1);
        lemma_compare_fields_le(a.skip(1), b.skip(1), c.skip(1));
    }
}

/// The order of differences is transitive.
pub proof fn lemma_doc_order_le(a: DocDifferenceV, b: DocDifferenceV, c: DocDifferenceV)
    ensures
        doc_order(a, b) <= 0 && doc_order(b, c) <= 0 ==> doc_order(a, c) <= 0,
{
    lemma_compare_fields_le(doc_key(a).fields, doc_key(b).fields, doc_key(c).fields);
}

/// Every two differences in a list stand in order.
pub open spec fn docs_in_order(s: Seq<DocDifferenceV>) -> bool {
    forall|i: int, j: int| 0 <= i < j < s.len() ==> doc_order(#[trigger] s[i], #[trigger] s[j]) <= 0
}

proof fn lemma_insert_in_order_sorted(s: Seq<DocDifferenceV>, e: DocDifferenceV)
    requires
        docs_in_order(s),
    ensures
        docs_in_order(insert_in_order(s, e)),
    decreases s.len(),
{
    broadcast use vstd::seq_lib::group_to_multiset_ensures;

    if s.len() == 0 {
    } else if doc_order(s.last(), e) > 0 {
        let t = s.drop_last();
        assert forall|i: int, j: int| 0 <= i < j < t.len() implies doc_order(#[trigger] t[i], #[trigger] t[j]) <= 0 by {
            assert(t[i] == s[i] && t[j] == s[j]);
        }
        lemma_insert_in_order_sorted(t, e);
        lemma_insert_in_order_multiset(t, e);
        let u = insert_in_order(t, e);
        let last = s.last();
        lemma_compare_fields_flip(doc_key(last).fields, doc_key(e).fields);
        assert forall|i: int| 0 <= i < u.len() implies doc_order(#[trigger] u[i], last) <= 0 by {
            assert(u.to_multiset().count(u[i]) > 0);
            assert(t.to_multiset().insert(e).count(u[i]) > 0);
            if u[i] != e {
                assert(t.contains(u[i]));
                let k = choose|k: int| 0 <= k < t.len() && t[k] == u[i];
                assert(s[k] == t[k]);
                assert(s[s.len() - 1] == last);
            }
        }
        let v = u.push(last);
        assert forall|i: int, j: int| 0 <= i < j < v.len() implies doc_order(#[trigger] v[i], #[trigger] v[j]) <= 0 by {
            if j < u.len() {
                assert(v[i] == u[i] && v[j] == u[j]);
            } else {
                assert(v[i] == u[i]);
            }
        }
    } else {
        let last = s.last();
        let v = s.push(e);
        assert forall|i: int, j: int| 0 <= i < j < v.len() implies doc_order(#[trigger] v[i], #[trigger] v[j]) <= 0 by {
            if j < s.len() {
                assert(v[i] == s[i] && v[j] == s[j]);
            } else if i < s.len() - 1 {
                assert(v[i] == s[i]);
                assert(doc_order(s[i], s[s.len() - 1]) <= 0);
                lemma_doc_order_le(s[i], last, e);
            }
        }
    }
}

/// The differences as shown stand in order.
pub proof fn lemma_sort_docs_sorted(s: Seq<DocDifferenceV>)
    ensures
        docs_in_order(sort_docs(s)),
    decreases s.len(),
{
    if s.len() > 0 {
        lemma_sort_docs_sorted(s.drop_last());
        lemma_insert_in_order_sorted(sort_docs(s.drop_last()), s.last());
    }
}

impl DocDifference {
    /// The order of two differences, as [`doc_order`] states.
    pub fn compare(&self, other: &DocDifference) -> (r: i8)
        ensures
            r == doc_order(self@, other@),
    {
        let (ra, ka): (u8, &DocKey) = match self {
            DocDifference::Addition(a) => (0, &a.key),
            DocDifference::Missing(m) => (1, &m.key),
            DocDifference::Changed { key, .. } => (2, key),
        };
        let (rb, kb): (u8, &DocKey) = match other {
            DocDifference::Addition(a) => (0, &a.key),
            DocDifference::Missing(m) => (1, &m.key),
            DocDifference::Changed { key, .. } => (2, key),
        };
        if ra < rb {
            -1
        } else if ra > rb {
            1
        } else {
            ka.fields.compare(&kb.fields)
        }
    }

    /// The key of the document the difference is about.
    pub fn key(&self) -> (r: &DocKey)
        ensures
            r@ == doc_key(self@),
    {
        match self {
            DocDifference::Addition(a) => &a.key,
            DocDifference::Missing(m) => &m.key,
            DocDifference::Changed { key, .. } => key,
        }
    }
}

/// The differences in the order they are shown, as [`sort_docs`] states.
pub fn sort_doc_differences(differences: Vec<DocDifference>) -> (r: Vec<DocDifference>)
    ensures
        doc_diffs_view(r@) == sort_docs(doc_diffs_view(differences@)),
        docs_in_order(doc_diffs_view(r@)),
        doc_diffs_view(r@).to_multiset() == doc_diffs_view(differences@).to_multiset(),
{
    proof {
        lemma_sort_docs_sorted(doc_diffs_view(differences@));
        lemma_sort_docs_permutes(doc_diffs_view(differences@));
    }
    let ghost all = doc_diffs_view(differences@);
    let mut rest = differences;
    let mut out: Vec<DocDifference> = Vec::new();
    let n = rest.len();
    assert(all.take(0) =~= Seq::<DocDifferenceV>::empty());
    assert(all.skip(0) =~= all);
    while rest.len() > 0
        invariant
            rest@.len() <= n,
            n == all.len(),
            doc_diffs_view(rest@) == all.skip(n - rest@.len()),
            doc_diffs_view(out@) == sort_docs(all.take(n - rest@.len())),
        decreases rest.len(),
    {
        let ghost k = n - rest@.len();
        let ghost rv = doc_diffs_view(rest@);
        let e = rest.remove(0);
        assert(rv[0] == e@);
        assert(e@ == all[k]);
        assert(doc_diffs_view(rest@) =~= rv.skip(1));
        assert(all.skip(k + 1) =~= all.skip(k).skip(1));
        assert(all.take(k + 1).drop_last() =~= all.take(k));
        insert_doc(&mut out, e);
    }
    assert(all.take(n as int) =~= all);
    out
}

/// Places `e` after every element of a sorted list that is not greater.
fn insert_doc(s: &mut Vec<DocDifference>, e: DocDifference)
    ensures
        doc_diffs_view(final(s)@) == insert_in_order(doc_diffs_view(old(s)@), e@),
{
    let ghost before = doc_diffs_view(s@);
    let mut j = s.len();
    assert(before.take(j as int) =~= before);
    assert(before.skip(j as int) =~= Seq::<DocDifferenceV>::empty());
    while j > 0
        invariant
            j <= s@.len(),
            before == doc_diffs_view(s@),
            insert_in_order(before, e@) == insert_in_order(before.take(j as int), e@) + before.skip(j as int),
        ensures
            j == 0 || doc_order(before[j - 1], e@) <= 0,
            insert_in_order(before, e@) == insert_in_order(before.take(j as int), e@) + before.skip(j as int),
        decreases j,
    {
        let c = s[j - 1].compare(&e);
        if c <= 0 {
            assert(before[j - 1] == s@[j - 1]@);
            break;
        }
        let ghost t = before.take(j as int);
        assert(t.last() == before[j - 1]);
        assert(t.drop_last() =~= before.take(j - 1));
        assert(before.skip(j - 1) =~= seq![before[j - 1]] + before.skip(j as int));
        assert(insert_in_order(t, e@) =~= insert_in_order(before.take(j - 1), e@).push(before[j - 1]));
        j = j - 1;
    }
    proof {
        let t = before.take(j as int);
        if j > 0 {
            assert(t.last() == before[j - 1]);
            assert(insert_in_order(t, e@) == t.push(e@));
        }
    }
    s.insert(j, e);
    assert(doc_diffs_view(s@) =~= insert_in_order(before.take(j as int), e@) + before.skip(j as int));
}

/// Setting a field puts that very key and value among the fields.
pub proof fn lemma_put_field_holds(s: Seq<(Seq<char>, Option<Seq<char>>)>, k: Seq<char>, v: Option<Seq<char>>)
    ensures
        put_field(s, k, v).contains((k, v)),
    decreases s.len(),
{
    let r = put_field(s, k, v);
    if s.len() == 0 || s[0].0 == k || compare_text(s[0].0, k) > 0 {
        assert(r[0] == (k, v));
    } else {
        lemma_put_field_holds(s.skip(1), k, v);
        let t = put_field(s.skip(1), k, v);
        let j = choose|j: int| 0 <= j < t.len() && t[j] == (k, v);
        assert(r[j + 1] == t[j]);
    }
}

/// In fields whose keys are in increasing order, a key stands once.
pub proof fn lemma_sorted_key_once(s: Seq<(Seq<char>, Option<Seq<char>>)>, i: int, j: int)
    requires
        keys_sorted(s),
        0 <= i < s.len(),
        0 <= j < s.len(),
        s[i].0 == s[j].0,
    ensures
        i == j,
{
    lemma_compare_text_sign(s[i].0, s[j].0);
    if i < j {
        assert(compare_text(s[i].0, s[j].0) < 0);
    } else if j < i {
        assert(compare_text(s[j].0, s[i].0) < 0);
    }
}

/// The key of a Talos document has its fields in increasing key order,
/// each key once.
proof fn lemma_talos_fields_sorted(idx: int, file: Seq<char>, doc: NodeV)
    ensures
        identify(Identifier::TalosDocuments, idx, file, doc) matches Some(k) && keys_sorted(k.fields),
{
    let f0 = put_field(no_fields(), "kind"@, string_of(get(doc, "kind"@)));
    lemma_put_field(no_fields(), "kind"@, string_of(get(doc, "kind"@)));
    let f1 = put_some(f0, "apiVersion"@, string_of(get(doc, "apiVersion"@)));
    lemma_put_field(f0, "apiVersion"@, string_of(get(doc, "apiVersion"@)));
    let f2 = put_some(f1, "version"@, string_of(get(doc, "version"@)));
    lemma_put_field(f1, "version"@, string_of(get(doc, "version"@)));
    let f3 = if get(doc, "machine"@) is Some { put_field(f2, "machine"@, Some("present"@)) } else { f2 };
    lemma_put_field(f2, "machine"@, Some("present"@));
    let f4 = if get(doc, "cluster"@) is Some { put_field(f3, "cluster"@, Some("present"@)) } else { f3 };
    lemma_put_field(f3, "cluster"@, Some("present"@));
    lemma_put_field(f4, "name"@, string_of(get(doc, "name"@)));
}

/// A Talos document with a string `name` has that name among the fields of
/// its key, under `name`.
pub proof fn lemma_talos_key_holds_name(idx: int, file: Seq<char>, doc: NodeV, n: Seq<char>)
    requires
        string_of(get(doc, "name"@)) == Some(n),
    ensures
        identify(Identifier::TalosDocuments, idx, file, doc) matches Some(k) && k.fields.contains(("name"@, Some(n)))
            && keys_sorted(k.fields),
{
    lemma_talos_key_fields(idx, file, doc);
}

/// Two Talos documents with different string names get keys with different
/// fields, so neither is paired with the other's counterpart, whatever
/// their files and positions.
pub proof fn lemma_talos_names_tell_apart(
    i1: int,
    file1: Seq<char>,
    d1: NodeV,
    a: Seq<char>,
    i2: int,
    file2: Seq<char>,
    d2: NodeV,
    b: Seq<char>,
)
    requires
        string_of(get(d1, "name"@)) == Some(a),
        string_of(get(d2, "name"@)) == Some(b),
        a != b,
    ensures
        identify(Identifier::TalosDocuments, i1, file1, d1) matches Some(k1)
            && identify(Identifier::TalosDocuments, i2, file2, d2) matches Some(k2) && k1.fields != k2.fields,
{
    lemma_talos_key_holds_name(i1, file1, d1, a);
    lemma_talos_key_holds_name(i2, file2, d2, b);
    let k1 = identify(Identifier::TalosDocuments, i1, file1, d1)->0;
    let k2 = identify(Identifier::TalosDocuments, i2, file2, d2)->0;
    if k1.fields == k2.fields {
        let x = choose|x: int| 0 <= x < k1.fields.len() && k1.fields[x] == ("name"@, Some(a));
        let y = choose|y: int| 0 <= y < k2.fields.len() && k2.fields[y] == ("name"@, Some(b));
        lemma_sorted_key_once(k1.fields, x, y);
    }
}

/// Setting one field keeps every entry of another key.
pub proof fn lemma_put_field_keeps(
    s: Seq<(Seq<char>, Option<Seq<char>>)>,
    k: Seq<char>,
    v: Option<Seq<char>>,
    k2: Seq<char>,
    v2: Option<Seq<char>>,
)
    requires
        s.contains((k2, v2)),
        k2 != k,
    ensures
        put_field(s, k, v).contains((k2, v2)),
    decreases s.len(),
{
    let r = put_field(s, k, v);
    let j = choose|j: int| 0 <= j < s.len() && s[j] == (k2, v2);
    if s[0].0 == k {
        assert(j != 0);
        assert(r[j] == s[j]);
    } else if compare_text(s[0].0, k) > 0 {
        assert(r[j + 1] == s[j]);
    } else if j == 0 {
        assert(r[0] == s[0]);
    } else {
        assert(s.skip(1)[j - 1] == s[j]);
        lemma_put_field_keeps(s.skip(1), k, v, k2, v2);
        let t = put_field(s.skip(1), k, v);
        let x = choose|x: int| 0 <= x < t.len() && t[x] == (k2, v2);
        assert(r[x + 1] == t[x]);
    }
}

/// The key of a Kubernetes document by group, version, kind and name holds
/// its `apiVersion`, `kind` and `metadata.name` strings (none where a field
/// is no string); a document without `metadata` has no key.
pub proof fn lemma_gvk_key_fields(idx: int, file: Seq<char>, doc: NodeV)
    ensures
        get(doc, "metadata"@) is None ==> identify(Identifier::KubernetesGvk, idx, file, doc) is None,
        get(doc, "metadata"@) matches Some(md) ==> identify(Identifier::KubernetesGvk, idx, file, doc) matches Some(k)
            && k.file == file
            && k.fields.contains(("api_version"@, string_of(get(doc, "apiVersion"@))))
            && k.fields.contains(("kind"@, string_of(get(doc, "kind"@))))
            && k.fields.contains(("metadata.name"@, string_of(get(md, "name"@)))),
{
    reveal_strlit("api_version");
    reveal_strlit("kind");
    reveal_strlit("metadata.name");
    if let Some(md) = get(doc, "metadata"@) {
        let a = string_of(get(doc, "apiVersion"@));
        let kd = string_of(get(doc, "kind"@));
        let nm = string_of(get(md, "name"@));
        let f0 = put_field(no_fields(), "api_version"@, a);
        let f1 = put_field(f0, "kind"@, kd);
        lemma_put_field_holds(no_fields(), "api_version"@, a);
        lemma_put_field_holds(f0, "kind"@, kd);
        lemma_put_field_holds(f1, "metadata.name"@, nm);
        assert("api_version"@.len() != "kind"@.len());
        assert("api_version"@.len() != "metadata.name"@.len());
        assert("kind"@.len() != "metadata.name"@.len());
        lemma_put_field_keeps(f0, "kind"@, kd, "api_version"@, a);
        lemma_put_field_keeps(f1, "metadata.name"@, nm, "api_version"@, a);
        lemma_put_field_keeps(f1, "metadata.name"@, nm, "kind"@, kd);
    }
}

/// The key of a Kubernetes document by names holds its `metadata.name` and
/// `metadata.namespace` strings; a document without `metadata` has no key.
pub proof fn lemma_names_key_fields(idx: int, file: Seq<char>, doc: NodeV)
    ensures
        get(doc, "metadata"@) is None ==> identify(Identifier::KubernetesNames, idx, file, doc) is None,
        get(doc, "metadata"@) matches Some(md) ==> identify(Identifier::KubernetesNames, idx, file, doc) matches Some(k)
            && k.file == file
            && k.fields.contains(("metadata.name"@, string_of(get(md, "name"@))))
            && k.fields.contains(("metadata.namespace"@, string_of(get(md, "namespace"@)))),
{
    reveal_strlit("metadata.name");
    reveal_strlit("metadata.namespace");
    if let Some(md) = get(doc, "metadata"@) {
        let nm = string_of(get(md, "name"@));
        let ns = string_of(get(md, "namespace"@));
        let f0 = put_field(no_fields(), "metadata.name"@, nm);
        lemma_put_field_holds(no_fields(), "metadata.name"@, nm);
        lemma_put_field_holds(f0, "metadata.namespace"@, ns);
        assert("metadata.name"@.len() != "metadata.namespace"@.len());
        lemma_put_field_keeps(f0, "metadata.namespace"@, ns, "metadata.name"@, nm);
    }
}

proof fn lemma_put_some_keeps(
    s: Seq<(Seq<char>, Option<Seq<char>>)>,
    k: Seq<char>,
    v: Option<Seq<char>>,
    k2: Seq<char>,
    v2: Option<Seq<char>>,
)
    requires
        s.contains((k2, v2)),
        k2 != k,
    ensures
        put_some(s, k, v).contains((k2, v2)),
        put_field(s, k, v).contains((k2, v2)),
{
    lemma_put_field_keeps(s, k, v, k2, v2);
}

/// The key of a Talos document holds its `kind` string (none where it is no
/// string); its `apiVersion`, `version` and `name` strings where they are
/// strings; and `machine` and `cluster` marked present where the document
/// has them. Its fields stand in increasing key order, each once.
pub proof fn lemma_talos_key_fields(idx: int, file: Seq<char>, doc: NodeV)
    ensures
        identify(Identifier::TalosDocuments, idx, file, doc) matches Some(k) && k.file == file && keys_sorted(k.fields)
            && k.fields.contains(("kind"@, string_of(get(doc, "kind"@))))
            && (string_of(get(doc, "apiVersion"@)) matches Some(x) ==> k.fields.contains(("apiVersion"@, Some(x))))
            && (string_of(get(doc, "version"@)) matches Some(x) ==> k.fields.contains(("version"@, Some(x))))
            && (string_of(get(doc, "name"@)) matches Some(x) ==> k.fields.contains(("name"@, Some(x))))
            && (get(doc, "machine"@) is Some ==> k.fields.contains(("machine"@, Some("present"@))))
            && (get(doc, "cluster"@) is Some ==> k.fields.contains(("cluster"@, Some("present"@)))),
{
    reveal_strlit("kind");
    reveal_strlit("apiVersion");
    reveal_strlit("version");
    reveal_strlit("machine");
    reveal_strlit("cluster");
    reveal_strlit("name");
    let kk = "kind"@;
    let ka = "apiVersion"@;
    let kv = "version"@;
    let km = "machine"@;
    let kc = "cluster"@;
    let kn = "name"@;
    assert(kk[0] != kn[0] && kv[0] != km[0] && kv[0] != kc[0] && km[0] != kc[0]);
    assert(kk != kn && kv != km && kv != kc && km != kc);
    assert(ka.len() != kk.len() && ka.len() != kv.len() && ka.len() != km.len() && ka.len() != kc.len() && ka.len()
        != kn.len());
    assert(kk.len() != kv.len() && kk.len() != km.len() && kk.len() != kc.len());
    assert(kn.len() != kv.len() && kn.len() != km.len() && kn.len() != kc.len());
    lemma_talos_fields_sorted(idx, file, doc);
    let sk = string_of(get(doc, "kind"@));
    let sa = string_of(get(doc, "apiVersion"@));
    let sv = string_of(get(doc, "version"@));
    let sn = string_of(get(doc, "name"@));
    let pr = Some("present"@);
    let f0 = put_field(no_fields(), kk, sk);
    let f1 = put_some(f0, ka, sa);
    let f2 = put_some(f1, kv, sv);
    let f3 = if get(doc, "machine"@) is Some { put_field(f2, km, pr) } else { f2 };
    let f4 = if get(doc, "cluster"@) is Some { put_field(f3, kc, pr) } else { f3 };
    let f5 = put_some(f4, kn, sn);
    // kind
    lemma_put_field_holds(no_fields(), kk, sk);
    lemma_put_some_keeps(f0, ka, sa, kk, sk);
    lemma_put_some_keeps(f1, kv, sv, kk, sk);
    lemma_put_some_keeps(f2, km, pr, kk, sk);
    lemma_put_some_keeps(f3, kc, pr, kk, sk);
    lemma_put_some_keeps(f4, kn, sn, kk, sk);
    // apiVersion
    if sa is Some {
        lemma_put_field_holds(f0, ka, sa);
        lemma_put_some_keeps(f1, kv, sv, ka, sa);
        lemma_put_some_keeps(f2, km, pr, ka, sa);
        lemma_put_some_keeps(f3, kc, pr, ka, sa);
        lemma_put_some_keeps(f4, kn, sn, ka, sa);
    }
    // version
    if sv is Some {
        lemma_put_field_holds(f1, kv, sv);
        lemma_put_some_keeps(f2, km, pr, kv, sv);
        lemma_put_some_keeps(f3, kc, pr, kv, sv);
        lemma_put_some_keeps(f4, kn, sn, kv, sv);
    }
    // machine
    if get(doc, "machine"@) is Some {
        lemma_put_field_holds(f2, km, pr);
        lemma_put_some_keeps(f3, kc, pr, km, pr);
        lemma_put_some_keeps(f4, kn, sn, km, pr);
    }
    // cluster
    if get(doc, "cluster"@) is Some {
        lemma_put_field_holds(f3, kc, pr);
        lemma_put_some_keeps(f4, kn, sn, kc, pr);
    }
    // name
    if sn is Some {
        lemma_put_field_holds(f4, kn, sn);
    }
}

} // verus!
