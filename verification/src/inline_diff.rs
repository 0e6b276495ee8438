//! Character-level differences within a changed string, as runs of text
//! that are emphasised or not.
use vstd::prelude::*;

verus! {

/// What happened to a piece of text.
#[derive(Debug, Clone, Copy, PartialEq, Eq, Structural)]
pub enum ChangeKind {
    Equal,
    Delete,
    Insert,
}

/// The changes, character by character, that `similar::TextDiff::from_chars`
/// finds between two texts, in order, each with its text.
pub uninterp spec fn char_changes(left: Seq<char>, right: Seq<char>) -> Seq<(ChangeKind, Seq<char>)>;

pub open spec fn changes_view(s: Seq<(ChangeKind, String)>) -> Seq<(ChangeKind, Seq<char>)> {
    s.map_values(|c: (ChangeKind, String)| (c.0, c.1@))
}

/// The texts of the changes other than those of kind `skip`, in order.
pub open spec fn side_text(cs: Seq<(ChangeKind, Seq<char>)>, skip: ChangeKind) -> Seq<char>
    decreases cs.len(),
{
    if cs.len() == 0 {
        seq![]
    } else {
        side_text(cs.drop_last(), skip) + if cs.last().0 == skip {
            seq![]
        } else {
            cs.last().1
        }
    }
}

/// The changes between two texts, from
/// `similar::TextDiff::from_chars(..).iter_all_changes()`, each as its tag
/// and its value. The contract names the result as a function of the two
/// texts (the diff runs without a deadline), and states what the crate's
/// diff operations guarantee: they cover both texts in order, so the equal
/// and deleted characters spell the left text, the equal and inserted ones
/// the right text.
#[verifier::external_body]
fn changes_of(left: &str, right: &str) -> (r: Vec<(ChangeKind, String)>)
    ensures
        changes_view(r@) == char_changes(left@, right@),
        side_text(changes_view(r@), ChangeKind::Insert) == left@,
        side_text(changes_view(r@), ChangeKind::Delete) == right@,
{
    let diff = similar::TextDiff::from_chars(left, right);
    let mut out = Vec::new();
    for c in diff.iter_all_changes() {
        let kind = match c.tag() {
            similar::ChangeTag::Equal => ChangeKind::Equal,
            similar::ChangeTag::Delete => ChangeKind::Delete,
            similar::ChangeTag::Insert => ChangeKind::Insert,
        };
        out.push((kind, c.value().to_string()));
    }
    out
}

/// A run of text, and whether it is emphasised.
#[derive(Debug, Clone, PartialEq, Eq)]
pub struct InlinePart {
    pub text: String,
    pub emphasized: bool,
}

pub open spec fn parts_view(s: Seq<InlinePart>) -> Seq<(Seq<char>, bool)> {
    s.map_values(|p: InlinePart| (p.text@, p.emphasized))
}

/// The parts found so far on each side, and the run being collected on
/// each side.
pub ghost struct Grouping {
    pub left: Seq<(Seq<char>, bool)>,
    pub right: Seq<(Seq<char>, bool)>,
    pub cur_left: Seq<char>,
    pub left_emph: bool,
    pub cur_right: Seq<char>,
    pub right_emph: bool,
}

/// One change taken into the runs: equal text ends the emphasised runs on
/// both sides and joins both plain runs; deleted text joins an emphasised
/// run on the left, inserted text one on the right, each ending a plain
/// run there first. Empty text changes nothing.
pub open spec fn group_step(g: Grouping, c: (ChangeKind, Seq<char>)) -> Grouping {
    let (kind, ch) = c;
    if ch.len() == 0 {
        g
    } else {
        match kind {
            ChangeKind::Equal => {
                let (left, cl) = if g.cur_left.len() > 0 && g.left_emph {
                    (g.left.push((g.cur_left, true)), Seq::<char>::empty())
                } else {
                    (g.left, g.cur_left)
                };
                let (right, cr) = if g.cur_right.len() > 0 && g.right_emph {
                    (g.right.push((g.cur_right, true)), Seq::<char>::empty())
                } else {
                    (g.right, g.cur_right)
                };
                Grouping { left, right, cur_left: cl + ch, left_emph: false, cur_right: cr + ch, right_emph: false }
            },
            ChangeKind::Delete => {
                let (left, cl) = if g.cur_left.len() > 0 && !g.left_emph {
                    (g.left.push((g.cur_left, false)), Seq::<char>::empty())
                } else {
                    (g.left, g.cur_left)
                };
                Grouping { left, cur_left: cl + ch, left_emph: true, ..g }
            },
            ChangeKind::Insert => {
                let (right, cr) = if g.cur_right.len() > 0 && !g.right_emph {
                    (g.right.push((g.cur_right, false)), Seq::<char>::empty())
                } else {
                    (g.right, g.cur_right)
                };
                Grouping { right, cur_right: cr + ch, right_emph: true, ..g }
            },
        }
    }
}

/// The runs after the first `n` changes.
pub open spec fn grouping(cs: Seq<(ChangeKind, Seq<char>)>, n: int) -> Grouping
    decreases n,
{
    if n <= 0 || n > cs.len() {
        Grouping {
            left: seq![],
            right: seq![],
            cur_left: seq![],
            left_emph: false,
            cur_right: seq![],
            right_emph: false,
        }
    } else {
        group_step(grouping(cs, n - 1), cs[n - 1])
    }
}

/// The parts on each side: the runs of all changes, the last ones included
/// where they hold text.
pub open spec fn inline_parts(cs: Seq<(ChangeKind, Seq<char>)>) -> (Seq<(Seq<char>, bool)>, Seq<(Seq<char>, bool)>) {
    let g = grouping(cs, cs.len() as int);
    (
        if g.cur_left.len() > 0 { g.left.push((g.cur_left, g.left_emph)) } else { g.left },
        if g.cur_right.len() > 0 { g.right.push((g.cur_right, g.right_emph)) } else { g.right },
    )
}

fn take_string(s: &mut String) -> (r: String)
    ensures
        r@ == old(s)@,
        final(s)@ == Seq::<char>::empty(),
{
    let mut t = String::new();
    std::mem::swap(s, &mut t);
    t
}

/// Groups changes into the parts of each side, as [`inline_parts`] states:
/// the left side holds the equal and deleted text, the right side the equal
/// and inserted text.
pub fn group_changes(changes: &Vec<(ChangeKind, String)>) -> (r: (Vec<InlinePart>, Vec<InlinePart>))
    ensures
        (parts_view(r.0@), parts_view(r.1@)) == inline_parts(changes_view(changes@)),
{
    let ghost cs = changes_view(changes@);
    let mut left_parts: Vec<InlinePart> = Vec::new();
    let mut right_parts: Vec<InlinePart> = Vec::new();
    let mut cur_left = String::new();
    let mut left_emph = false;
    let mut cur_right = String::new();
    let mut right_emph = false;
    let mut i: usize = 0;
    proof {
        assert(parts_view(left_parts@) =~= Seq::<(Seq<char>, bool)>::empty());
        assert(parts_view(right_parts@) =~= Seq::<(Seq<char>, bool)>::empty());
    }
    while i < changes.len()
        invariant
            i <= changes@.len(),
            cs == changes_view(changes@),
            ({
                let g = grouping(cs, i as int);
                &&& parts_view(left_parts@) == g.left
                &&& parts_view(right_parts@) == g.right
                &&& cur_left@ == g.cur_left
                &&& left_emph == g.left_emph
                &&& cur_right@ == g.cur_right
                &&& right_emph == g.right_emph
            }),
        decreases changes.len() - i,
    {
        let (kind, ch) = (changes[i].0, &changes[i].1);
        assert(cs[i as int] == (kind, ch@));
        let ghost lb = parts_view(left_parts@);
        let ghost rb = parts_view(right_parts@);
        if !ch.as_str().is_empty() {
            match kind {
                ChangeKind::Equal => {
                    if !cur_left.as_str().is_empty() && left_emph {
                        let t = take_string(&mut cur_left);
                        left_parts.push(InlinePart { text: t, emphasized: true });
                        assert(parts_view(left_parts@) =~= lb.push((t@, true)));
                    }
                    if !cur_right.as_str().is_empty() && right_emph {
                        let t = take_string(&mut cur_right);
                        right_parts.push(InlinePart { text: t, emphasized: true });
                        assert(parts_view(right_parts@) =~= rb.push((t@, true)));
                    }
                    cur_left.append(ch.as_str());
                    left_emph = false;
                    cur_right.append(ch.as_str());
                    right_emph = false;
                },
                ChangeKind::Delete => {
                    if !cur_left.as_str().is_empty() && !left_emph {
                        let t = take_string(&mut cur_left);
                        left_parts.push(InlinePart { text: t, emphasized: false });
                        assert(parts_view(left_parts@) =~= lb.push((t@, false)));
                    }
                    cur_left.append(ch.as_str());
                    left_emph = true;
                },
                ChangeKind::Insert => {
                    if !cur_right.as_str().is_empty() && !right_emph {
                        let t = take_string(&mut cur_right);
                        right_parts.push(InlinePart { text: t, emphasized: false });
                        assert(parts_view(right_parts@) =~= rb.push((t@, false)));
                    }
                    cur_right.append(ch.as_str());
                    right_emph = true;
                },
            }
        }
        i = i + 1;
    }
    if !cur_left.as_str().is_empty() {
        let ghost lb = parts_view(left_parts@);
        let t = take_string(&mut cur_left);
        left_parts.push(InlinePart { text: t, emphasized: left_emph });
        assert(parts_view(left_parts@) =~= lb.push((t@, left_emph)));
    }
    if !cur_right.as_str().is_empty() {
        let ghost rb = parts_view(right_parts@);
        let t = take_string(&mut cur_right);
        right_parts.push(InlinePart { text: t, emphasized: right_emph });
        assert(parts_view(right_parts@) =~= rb.push((t@, right_emph)));
    }
    (left_parts, right_parts)
}

/// The texts of the parts, one after the other.
pub open spec fn parts_plain(ps: Seq<(Seq<char>, bool)>) -> Seq<char>
    decreases ps.len(),
{
    if ps.len() == 0 {
        seq![]
    } else {
        parts_plain(ps.drop_last()) + ps.last().0
    }
}

pub proof fn lemma_parts_plain_push(ps: Seq<(Seq<char>, bool)>, p: (Seq<char>, bool))
    ensures
        parts_plain(ps.push(p)) == parts_plain(ps) + p.0,
{
    assert(ps.push(p).drop_last() =~= ps);
}

/// The runs so far, with the runs being collected, spell the text of each
/// side so far.
pub proof fn lemma_grouping_spells(cs: Seq<(ChangeKind, Seq<char>)>, n: int)
    requires
        0 <= n <= cs.len(),
    ensures
        parts_plain(grouping(cs, n).left) + grouping(cs, n).cur_left == side_text(cs.take(n), ChangeKind::Insert),
        parts_plain(grouping(cs, n).right) + grouping(cs, n).cur_right == side_text(cs.take(n), ChangeKind::Delete),
    decreases n,
{
    if n == 0 {
        assert(cs.take(0) =~= Seq::<(ChangeKind, Seq<char>)>::empty());
        assert(parts_plain(Seq::<(Seq<char>, bool)>::empty()) + Seq::<char>::empty() =~= Seq::<char>::empty());
    } else {
        lemma_grouping_spells(cs, n - 1);
        let g = grouping(cs, n - 1);
        let c = cs[n - 1];
        assert(cs.take(n).drop_last() =~= cs.take(n - 1));
        assert(cs.take(n).last() == c);
        lemma_parts_plain_push(g.left, (g.cur_left, true));
        lemma_parts_plain_push(g.left, (g.cur_left, false));
        lemma_parts_plain_push(g.right, (g.cur_right, true));
        lemma_parts_plain_push(g.right, (g.cur_right, false));
        let sl = side_text(cs.take(n - 1), ChangeKind::Insert);
        let sr = side_text(cs.take(n - 1), ChangeKind::Delete);
        if c.1.len() == 0 {
            assert(sl + c.1 =~= sl);
            assert(sr + c.1 =~= sr);
        } else {
            match c.0 {
                ChangeKind::Equal => {
                    assert(parts_plain(g.left) + g.cur_left + c.1 =~= sl + c.1);
                    assert(parts_plain(g.right) + g.cur_right + c.1 =~= sr + c.1);
                },
                ChangeKind::Delete => {
                    assert(parts_plain(g.left) + g.cur_left + c.1 =~= sl + c.1);
                },
                ChangeKind::Insert => {
                    assert(parts_plain(g.right) + g.cur_right + c.1 =~= sr + c.1);
                },
            }
        }
    }
}

/// The parts of each side spell that side's text.
pub proof fn lemma_inline_parts_spell(cs: Seq<(ChangeKind, Seq<char>)>)
    ensures
        parts_plain(inline_parts(cs).0) == side_text(cs, ChangeKind::Insert),
        parts_plain(inline_parts(cs).1) == side_text(cs, ChangeKind::Delete),
{
    lemma_grouping_spells(cs, cs.len() as int);
    assert(cs.take(cs.len() as int) =~= cs);
    let g = grouping(cs, cs.len() as int);
    lemma_parts_plain_push(g.left, (g.cur_left, g.left_emph));
    lemma_parts_plain_push(g.right, (g.cur_right, g.right_emph));
    if g.cur_left.len() == 0 {
        assert(parts_plain(g.left) + g.cur_left =~= parts_plain(g.left));
    }
    if g.cur_right.len() == 0 {
        assert(parts_plain(g.right) + g.cur_right =~= parts_plain(g.right));
    }
}

/// The parts of two texts: the left with its deleted runs emphasised, the
/// right with its inserted runs emphasised. The parts of each side spell
/// that side's text.
pub fn compute_inline_diff(left: &str, right: &str) -> (r: (Vec<InlinePart>, Vec<InlinePart>))
    ensures
        (parts_view(r.0@), parts_view(r.1@)) == inline_parts(char_changes(left@, right@)),
        parts_plain(parts_view(r.0@)) == left@,
        parts_plain(parts_view(r.1@)) == right@,
{
    let changes = changes_of(left, right);
    let r = group_changes(&changes);
    proof {
        lemma_inline_parts_spell(changes_view(changes@));
    }
    r
}

/// The first position from `i` on where `a` is followed by `b`.
pub open spec fn find_pair(s: Seq<char>, a: char, b: char, i: int) -> Option<int>
    decreases s.len() - i,
{
    if i < 0 || i + 1 >= s.len() {
        None
    } else if s[i] == a && s[i + 1] == b {
        Some(i)
    } else {
        find_pair(s, a, b, i + 1)
    }
}

/// What precedes the value on a YAML line: up to and including the first
/// `: `, else the first `- `, else nothing.
pub open spec fn yaml_prefix(line: Seq<char>) -> Seq<char> {
    match find_pair(line, ':', ' ', 0) {
        Some(p) => line.take(p + 2),
        None => match find_pair(line, '-', ' ', 0) {
            Some(p) => line.take(p + 2),
            None => seq![],
        },
    }
}

pub proof fn lemma_find_pair(s: Seq<char>, a: char, b: char, i: int)
    requires
        0 <= i,
    ensures
        find_pair(s, a, b, i) matches Some(p) ==> i <= p && p + 1 < s.len(),
    decreases s.len() - i,
{
    if i + 1 < s.len() && !(s[i] == a && s[i + 1] == b) {
        lemma_find_pair(s, a, b, i + 1);
    }
}

fn find_pair_exec(s: &str, a: char, b: char) -> (r: Option<usize>)
    ensures
        match find_pair(s@, a, b, 0) {
            Some(p) => r == Some(p as usize),
            None => r is None,
        },
        r matches Some(x) ==> x + 1 < s@.len() <= usize::MAX,
{
    let n = s.unicode_len();
    let mut i: usize = 0;
    proof {
        lemma_find_pair(s@, a, b, 0);
    }
    while i < n && n - i > 1
        invariant
            i <= n,
            n == s@.len(),
            find_pair(s@, a, b, 0) == find_pair(s@, a, b, i as int),
        decreases n - i,
    {
        if s.get_char(i) == a && s.get_char(i + 1) == b {
            return Some(i);
        }
        i = i + 1;
    }
    None
}

/// The YAML prefix of a line, as [`yaml_prefix`] states.
pub fn extract_yaml_prefix(line: &str) -> (r: &str)
    ensures
        r@ == yaml_prefix(line@),
{
    proof {
        lemma_find_pair(line@, ':', ' ', 0);
        lemma_find_pair(line@, '-', ' ', 0);
    }
    match find_pair_exec(line, ':', ' ') {
        Some(p) => line.substring_char(0, p + 2),
        None => match find_pair_exec(line, '-', ' ') {
            Some(p) => line.substring_char(0, p + 2),
            None => {
                let e = line.substring_char(0, 0);
                assert(e@ =~= Seq::<char>::empty());
                e
            },
        },
    }
}

} // verus!
