//! Measuring, padding and styling text for a terminal.
use owo_colors::OwoColorize;
use vstd::prelude::*;

verus! {

// ---------------------------------------------------------------------------
// Names for what outside functions compute.
// ---------------------------------------------------------------------------

/// Whether `c` is printable ASCII, `' '..='~'`.
pub open spec fn is_printable_ascii(c: char) -> bool {
    ' ' <= c && c <= '~'
}

/// Whether every character of `s` is printable ASCII.
pub open spec fn all_printable_ascii(s: Seq<char>) -> bool {
    forall|i: int| 0 <= i < s.len() ==> #[trigger] is_printable_ascii(s[i])
}

/// The display width of a character outside printable ASCII, as
/// `unicode_width::UnicodeWidthChar::width` gives it from its tables, with
/// control characters (for which it gives `None`) counted as 0.
pub uninterp spec fn other_char_width(c: char) -> nat;

/// The display width of one character: one column for printable ASCII,
/// which `unicode_width` settles before it consults any table, and
/// [`other_char_width`] otherwise.
#[verifier::opaque]
pub open spec fn char_width(c: char) -> nat {
    if is_printable_ascii(c) {
        1
    } else {
        other_char_width(c)
    }
}

/// The display width of a string outside printable ASCII, as
/// `unicode_width::UnicodeWidthStr::width` gives it.
pub uninterp spec fn other_str_width(s: Seq<char>) -> nat;

/// The display width of a string: for printable ASCII `unicode_width` adds
/// one column a character, so it is the length; [`other_str_width`]
/// otherwise.
#[verifier::opaque]
pub open spec fn str_width(s: Seq<char>) -> nat {
    if all_printable_ascii(s) {
        s.len()
    } else {
        other_str_width(s)
    }
}

/// The visible width of a string that may hold ANSI escape sequences,
/// `ansi_width::ansi_width`.
pub uninterp spec fn ansi_width(s: Seq<char>) -> nat;

/// Display width of one character.
///
/// Calls `unicode_width::UnicodeWidthChar::width` and maps `None` to 0.
/// The contract states what the crate's source shows: printable ASCII
/// (`' '..='~'`) is 1 column, other characters are named by
/// [`other_char_width`], the control ranges `U+0000..U+0020` and
/// `U+007F..U+00A0` give `None` and thus 0, and every width comes from a
/// `u8` table entry, so it is at most 255.
#[verifier::external_body]
pub(crate) fn width_of_char(c: char) -> (w: usize)
    ensures
        w == char_width(c),
        !is_printable_ascii(c) ==> w == other_char_width(c),
        w <= 255,
        (' ' <= c && c <= '~') ==> w == 1,
        (c < ' ' || ('\x7f' <= c && c < '\u{a0}')) ==> w == 0,
{
    unicode_width::UnicodeWidthChar::width(c).unwrap_or(0)
}

/// Display width of a string, `unicode_width::UnicodeWidthStr::width`: the
/// length for printable ASCII, as the crate's source counts it, and
/// [`other_str_width`] otherwise.
#[verifier::external_body]
pub(crate) fn width_of_str(s: &str) -> (w: usize)
    ensures
        w == str_width(s@),
        !all_printable_ascii(s@) ==> w == other_str_width(s@),
{
    unicode_width::UnicodeWidthStr::width(s)
}

/// Visible width of a string, `ansi_width::ansi_width`. The contract names
/// the result and states what the crate's source shows for printable
/// ASCII: with no escape character it adds `unicode_width`'s one column a
/// character, so the width is the length.
#[verifier::external_body]
pub(crate) fn visible_width(s: &str) -> (w: usize)
    ensures
        w == ansi_width(s@),
        all_printable_ascii(s@) ==> w == s@.len(),
{
    ansi_width::ansi_width(s)
}

/// Appends one character, `String::push`.
#[verifier::external_body]
pub(crate) fn push_char(s: &mut String, c: char)
    ensures
        final(s)@ == old(s)@.push(c),
{
    s.push(c);
}

// ---------------------------------------------------------------------------
// ANSI styles of `owo_colors`. Each wraps the text in the escape sequences
// that the crate's `Display` impls write.
// ---------------------------------------------------------------------------

/// `ESC [ <code> m` as characters.
pub open spec fn sgr(code: Seq<char>) -> Seq<char> {
    seq!['\x1b', '['] + code + seq!['m']
}

pub open spec fn green_spec(s: Seq<char>) -> Seq<char> {
    sgr(seq!['3', '2']) + s + sgr(seq!['3', '9'])
}

pub open spec fn red_spec(s: Seq<char>) -> Seq<char> {
    sgr(seq!['3', '1']) + s + sgr(seq!['3', '9'])
}

pub open spec fn yellow_spec(s: Seq<char>) -> Seq<char> {
    sgr(seq!['3', '3']) + s + sgr(seq!['3', '9'])
}

pub open spec fn dimmed_spec(s: Seq<char>) -> Seq<char> {
    sgr(seq!['2']) + s + sgr(seq!['0'])
}

pub open spec fn bold_spec(s: Seq<char>) -> Seq<char> {
    sgr(seq!['1']) + s + sgr(seq!['0'])
}

/// `OwoColorize::green` rendered to a string: `ESC[32m`, the text, `ESC[39m`.
#[verifier::external_body]
pub(crate) fn paint_green(s: &str) -> (r: String)
    ensures
        r@ == green_spec(s@),
{
    s.green().to_string()
}

/// `OwoColorize::red` rendered to a string: `ESC[31m`, the text, `ESC[39m`.
#[verifier::external_body]
pub(crate) fn paint_red(s: &str) -> (r: String)
    ensures
        r@ == red_spec(s@),
{
    s.red().to_string()
}

/// `OwoColorize::yellow` rendered to a string: `ESC[33m`, the text, `ESC[39m`.
#[verifier::external_body]
pub(crate) fn paint_yellow(s: &str) -> (r: String)
    ensures
        r@ == yellow_spec(s@),
{
    s.yellow().to_string()
}

/// `OwoColorize::dimmed` rendered to a string: `ESC[2m`, the text, `ESC[0m`.
#[verifier::external_body]
pub(crate) fn paint_dimmed(s: &str) -> (r: String)
    ensures
        r@ == dimmed_spec(s@),
{
    s.dimmed().to_string()
}

/// `OwoColorize::bold` rendered to a string: `ESC[1m`, the text, `ESC[0m`.
#[verifier::external_body]
pub(crate) fn paint_bold(s: &str) -> (r: String)
    ensures
        r@ == bold_spec(s@),
{
    s.bold().to_string()
}

// ---------------------------------------------------------------------------
// Padding and numbers.
// ---------------------------------------------------------------------------

pub open spec fn spaces(n: nat) -> Seq<char> {
    Seq::new(n, |i: int| ' ')
}

/// Left-aligned in a field of `w` characters, as `format!("{s:<w$}")` does:
/// the fill counts characters, not display columns.
pub open spec fn pad_right(s: Seq<char>, w: int) -> Seq<char> {
    if s.len() >= w {
        s
    } else {
        s + spaces((w - s.len()) as nat)
    }
}

/// Right-aligned in a field of `w` characters, as `format!("{s:>w$}")`.
pub open spec fn pad_left(s: Seq<char>, w: int) -> Seq<char> {
    if s.len() >= w {
        s
    } else {
        spaces((w - s.len()) as nat) + s
    }
}

pub open spec fn digit_char(d: nat) -> char {
    if d == 0 { '0' }
    else if d == 1 { '1' }
    else if d == 2 { '2' }
    else if d == 3 { '3' }
    else if d == 4 { '4' }
    else if d == 5 { '5' }
    else if d == 6 { '6' }
    else if d == 7 { '7' }
    else if d == 8 { '8' }
    else { '9' }
}

/// The decimal digits of `n`, as `Display` for integers writes them.
pub open spec fn decimal(n: nat) -> Seq<char>
    decreases n,
{
    if n < 10 {
        seq![digit_char(n)]
    } else {
        decimal(n / 10).push(digit_char(n % 10))
    }
}

pub proof fn lemma_decimal_len(n: nat)
    ensures
        decimal(n).len() >= 1,
        n >= 10 ==> decimal(n).len() >= 2,
    decreases n,
{
    if n >= 10 {
        lemma_decimal_len(n / 10);
    }
}

/// Different numbers are written differently.
pub proof fn lemma_decimal_injective(a: nat, b: nat)
    requires
        decimal(a) == decimal(b),
    ensures
        a == b,
    decreases a,
{
    lemma_decimal_len(a);
    lemma_decimal_len(b);
    if a >= 10 && b >= 10 {
        assert(decimal(a).drop_last() =~= decimal(a / 10));
        assert(decimal(b).drop_last() =~= decimal(b / 10));
        assert(decimal(a).last() == digit_char(a % 10));
        assert(decimal(b).last() == digit_char(b % 10));
        lemma_decimal_injective(a / 10, b / 10);
        assert(a % 10 == b % 10);
    } else if a < 10 && b < 10 {
        assert(decimal(a)[0] == digit_char(a));
        assert(decimal(b)[0] == digit_char(b));
    }
}

/// `a - b`, or 0 where `b > a`.
pub open spec fn sat_sub(a: int, b: int) -> int {
    if a >= b {
        a - b
    } else {
        0
    }
}

/// The number of bytes of the UTF-8 encoding of `s`, as `str::len` gives it.
pub open spec fn byte_len(s: Seq<char>) -> int {
    (vstd::utf8::encode_utf8(s).len() as usize) as int
}

/// Appends `n` spaces.
pub fn push_spaces(s: &mut String, n: usize)
    ensures
        final(s)@ == old(s)@ + spaces(n as nat),
{
    let mut i: usize = 0;
    while i < n
        invariant
            i <= n,
            s@ == old(s)@ + spaces(i as nat),
        decreases n - i,
    {
        push_char(s, ' ');
        i = i + 1;
        assert(s@ =~= old(s)@ + spaces(i as nat));
    }
}

/// `format!("{s:<w$}")`.
pub fn padded_right(s: &str, w: usize) -> (r: String)
    ensures
        r@ == pad_right(s@, w as int),
{
    let mut r = s.to_owned();
    let n = s.unicode_len();
    if n < w {
        push_spaces(&mut r, w - n);
    }
    r
}

/// `format!("{s:>w$}")`.
pub fn padded_left(s: &str, w: usize) -> (r: String)
    ensures
        r@ == pad_left(s@, w as int),
{
    let mut r = String::new();
    let n = s.unicode_len();
    if n < w {
        push_spaces(&mut r, w - n);
    }
    r.append(s);
    proof {
        if n >= w {
            assert(r@ =~= s@);
        }
    }
    r
}

pub fn digit(d: usize) -> (c: char)
    requires
        d < 10,
    ensures
        c == digit_char(d as nat),
{
    if d == 0 { '0' }
    else if d == 1 { '1' }
    else if d == 2 { '2' }
    else if d == 3 { '3' }
    else if d == 4 { '4' }
    else if d == 5 { '5' }
    else if d == 6 { '6' }
    else if d == 7 { '7' }
    else if d == 8 { '8' }
    else { '9' }
}

/// The decimal representation of `n`.
pub fn decimal_string(n: usize) -> (r: String)
    ensures
        r@ == decimal(n as nat),
    decreases n,
{
    if n < 10 {
        let mut r = String::new();
        push_char(&mut r, digit(n));
        assert(r@ =~= decimal(n as nat));
        r
    } else {
        let mut r = decimal_string(n / 10);
        push_char(&mut r, digit(n % 10));
        r
    }
}

} // verus!
