//! Character-level text model shared by the parser: character classes,
//! leading/trailing runs, trimming, and conversions between `str`, `String`
//! and character slices.
use vstd::prelude::*;

verus! {

/// The character classes the parser scans for.
#[derive(Clone, Copy, Debug, PartialEq, Eq, Structural)]
pub enum CharClass {
    /// INI whitespace: space, tab, form feed, vertical tab.
    Space,
    /// Unicode `White_Space` (what `char::is_whitespace` accepts).
    WhiteSpace,
    /// A line terminator: `\n` or `\r`.
    LineBreak,
    /// The end of a section header: `]`.
    Close,
    /// A key/value separator: `=` or `:`.
    Separator,
    /// An ASCII decimal digit.
    Decimal,
    /// An ASCII hexadecimal digit (either case).
    Hex,
}

/// INI whitespace: space, tab, form feed (U+000C) and vertical tab (U+000B).
pub open spec fn spec_is_space(c: char) -> bool {
    c == ' ' || c == '\t' || c == '\x0c' || c == '\x0b'
}

/// The Unicode `White_Space` property.
pub open spec fn spec_is_white_space(c: char) -> bool {
    let u = c as u32;
    (0x09 <= u && u <= 0x0d) || u == 0x20 || u == 0x85 || u == 0xa0 || u == 0x1680 || (0x2000
        <= u && u <= 0x200a) || u == 0x2028 || u == 0x2029 || u == 0x202f || u == 0x205f || u
        == 0x3000
}

pub open spec fn spec_is_dec_digit(c: char) -> bool {
    '0' <= c && c <= '9'
}

pub open spec fn spec_is_hex_digit(c: char) -> bool {
    ('0' <= c && c <= '9') || ('a' <= c && c <= 'f') || ('A' <= c && c <= 'F')
}

pub open spec fn in_class(c: char, cls: CharClass) -> bool {
    match cls {
        CharClass::Space => spec_is_space(c),
        CharClass::WhiteSpace => spec_is_white_space(c),
        CharClass::LineBreak => c == '\n' || c == '\r',
        CharClass::Close => c == ']',
        CharClass::Separator => c == '=' || c == ':',
        CharClass::Decimal => spec_is_dec_digit(c),
        CharClass::Hex => spec_is_hex_digit(c),
    }
}

/// Length of the leading run of `s` whose characters are (`inside == true`)
/// or are not (`inside == false`) in `cls`. With `inside == false` this is the
/// index of the first character of the class, or `s.len()` if there is none.
pub open spec fn span(s: Seq<char>, cls: CharClass, inside: bool) -> nat
    decreases s.len(),
{
    if s.len() > 0 && in_class(s[0], cls) == inside {
        1 + span(s.drop_first(), cls, inside)
    } else {
        0
    }
}

/// Length of the trailing run of `s` whose characters are in `cls`.
pub open spec fn rspan(s: Seq<char>, cls: CharClass) -> nat
    decreases s.len(),
{
    if s.len() > 0 && in_class(s.last(), cls) {
        1 + rspan(s.drop_last(), cls)
    } else {
        0
    }
}

/// `s` without its leading characters of class `cls`.
pub open spec fn trim_start_by(s: Seq<char>, cls: CharClass) -> Seq<char> {
    s.skip(span(s, cls, true) as int)
}

/// `s` without its trailing characters of class `cls`.
pub open spec fn trim_end_by(s: Seq<char>, cls: CharClass) -> Seq<char> {
    s.take(s.len() - rspan(s, cls))
}

/// `s` without its leading and trailing characters of class `cls`.
pub open spec fn trim_by(s: Seq<char>, cls: CharClass) -> Seq<char> {
    trim_end_by(trim_start_by(s, cls), cls)
}

/// INI trimming: leading and trailing INI whitespace removed.
pub open spec fn spec_trim(s: Seq<char>) -> Seq<char> {
    trim_by(s, CharClass::Space)
}

/// Number of UTF-8 bytes that encode `s`.
pub open spec fn byte_len(s: Seq<char>) -> nat {
    vstd::utf8::encode_utf8(s).len()
}

/// The byte length of `s` as `str::len` reports it.
pub open spec fn str_len(s: Seq<char>) -> usize {
    byte_len(s) as usize
}

/// A run is characterised by its content: if the first `k` characters are on
/// the `inside` side of `cls` and the next one (if any) is not, the run is `k`.
pub proof fn lemma_span_is(s: Seq<char>, cls: CharClass, inside: bool, k: int)
    requires
        0 <= k <= s.len(),
        forall|j: int| 0 <= j < k ==> in_class(#[trigger] s[j], cls) == inside,
        k == s.len() || in_class(s[k], cls) != inside,
    ensures
        span(s, cls, inside) == k,
    decreases k,
{
    if k > 0 {
        let t = s.drop_first();
        assert forall|j: int| 0 <= j < k - 1 implies in_class(#[trigger] t[j], cls) == inside by {
            assert(t[j] == s[j + 1]);
        }
        if k < s.len() {
            assert(t[k - 1] == s[k]);
        }
        lemma_span_is(t, cls, inside, k - 1);
    }
}

/// A leading run never exceeds the sequence, and everything in it is on the
/// `inside` side of the class.
pub proof fn lemma_span_bounds(s: Seq<char>, cls: CharClass, inside: bool)
    ensures
        span(s, cls, inside) <= s.len(),
        forall|j: int| 0 <= j < span(s, cls, inside) ==> in_class(#[trigger] s[j], cls) == inside,
        span(s, cls, inside) < s.len() ==> in_class(s[span(s, cls, inside) as int], cls) != inside,
    decreases s.len(),
{
    if s.len() > 0 && in_class(s[0], cls) == inside {
        let t = s.drop_first();
        lemma_span_bounds(t, cls, inside);
        assert forall|j: int| 0 <= j < span(s, cls, inside) implies in_class(
            #[trigger] s[j],
            cls,
        ) == inside by {
            if j > 0 {
                assert(s[j] == t[j - 1]);
            }
        }
    }
}

/// The trailing run is characterised by its content, as for [`lemma_span_is`].
pub proof fn lemma_rspan_is(s: Seq<char>, cls: CharClass, k: int)
    requires
        0 <= k <= s.len(),
        forall|j: int| s.len() - k <= j < s.len() ==> in_class(#[trigger] s[j], cls),
        k == s.len() || !in_class(s[s.len() - 1 - k], cls),
    ensures
        rspan(s, cls) == k,
    decreases k,
{
    if k > 0 {
        let t = s.drop_last();
        assert(in_class(s[s.len() - 1], cls));
        assert forall|j: int| t.len() - (k - 1) <= j < t.len() implies in_class(
            #[trigger] t[j],
            cls,
        ) by {
            assert(t[j] == s[j]);
        }
        if k < s.len() {
            assert(t[t.len() - 1 - (k - 1)] == s[s.len() - 1 - k]);
        }
        lemma_rspan_is(t, cls, k - 1);
    }
}

/// A trailing run never exceeds the sequence.
pub proof fn lemma_rspan_bounds(s: Seq<char>, cls: CharClass)
    ensures
        rspan(s, cls) <= s.len(),
    decreases s.len(),
{
    if s.len() > 0 && in_class(s.last(), cls) {
        lemma_rspan_bounds(s.drop_last(), cls);
    }
}

/// Whether `c` has the Unicode `White_Space` property.
///
/// Trusted: calls `char::is_whitespace`, whose documentation defines it as the
/// Unicode `White_Space` property; the contract lists that property's code
/// points (U+0009..U+000D, U+0020, U+0085, U+00A0, U+1680, U+2000..U+200A,
/// U+2028, U+2029, U+202F, U+205F, U+3000).
#[verifier::external_body]
fn char_is_whitespace(c: char) -> (r: bool)
    ensures
        r == spec_is_white_space(c),
{
    c.is_whitespace()
}

/// Class membership, computed.
pub fn is_in_class(c: char, cls: CharClass) -> (r: bool)
    ensures
        r == in_class(c, cls),
{
    match cls {
        CharClass::Space => is_space(c),
        CharClass::WhiteSpace => char_is_whitespace(c),
        CharClass::LineBreak => c == '\n' || c == '\r',
        CharClass::Close => c == ']',
        CharClass::Separator => c == '=' || c == ':',
        CharClass::Decimal => '0' <= c && c <= '9',
        CharClass::Hex => ('0' <= c && c <= '9') || ('a' <= c && c <= 'f') || ('A' <= c && c
            <= 'F'),
    }
}

/// Whether `c` is INI whitespace (space, tab, form feed, vertical tab).
pub fn is_space(c: char) -> (r: bool)
    ensures
        r == spec_is_space(c),
{
    c == ' ' || c == '\t' || c == '\x0c' || c == '\x0b'
}

/// Length of the leading run of `s` on the `inside` side of `cls`.
pub fn scan(s: &[char], cls: CharClass, inside: bool) -> (n: usize)
    ensures
        n == span(s@, cls, inside),
        n <= s@.len(),
{
    let mut i: usize = 0;
    while i < s.len() && is_in_class(s[i], cls) == inside
        invariant
            i <= s@.len(),
            forall|j: int| 0 <= j < i ==> in_class(#[trigger] s@[j], cls) == inside,
        decreases s@.len() - i,
    {
        i = i + 1;
    }
    proof {
        lemma_span_is(s@, cls, inside, i as int);
    }
    i
}

/// Length of the trailing run of `s` in `cls`.
pub fn rscan(s: &[char], cls: CharClass) -> (n: usize)
    ensures
        n == rspan(s@, cls),
        n <= s@.len(),
{
    let mut k: usize = 0;
    while k < s.len() && is_in_class(s[s.len() - 1 - k], cls)
        invariant
            k <= s@.len(),
            forall|j: int| s@.len() - k <= j < s@.len() ==> in_class(#[trigger] s@[j], cls),
        decreases s@.len() - k,
    {
        k = k + 1;
    }
    proof {
        lemma_rspan_is(s@, cls, k as int);
    }
    k
}

/// `s` with its leading and trailing characters of class `cls` removed.
pub fn trim_class(s: &[char], cls: CharClass) -> (r: &[char])
    ensures
        r@ == trim_by(s@, cls),
{
    let a = scan(s, cls, true);
    let t = &s[a..s.len()];
    assert(t@ == trim_start_by(s@, cls));
    let b = rscan(t, cls);
    &t[0..t.len() - b]
}

/// Remove leading/trailing INI whitespace.
pub fn trim(s: &[char]) -> (r: &[char])
    ensures
        r@ == spec_trim(s@),
{
    trim_class(s, CharClass::Space)
}

/// The characters of `s`, in order.
pub fn str_chars(s: &str) -> (r: Vec<char>)
    ensures
        r@ == s@,
{
    let mut out: Vec<char> = Vec::new();
    for c in it: s.chars()
        invariant
            it.seq() == s@,
            out@ == s@.take(it.index() as int),
    {
        out.push(c);
    }
    out
}

/// Append one character to a `String`.
///
/// Trusted: calls `String::push`, which appends the character at the end.
#[verifier::external_body]
fn push_char(s: &mut String, c: char)
    ensures
        final(s)@ == old(s)@.push(c),
{
    s.push(c)
}

/// A `String` holding exactly the characters of `cs`.
pub fn string_from_chars(cs: &[char]) -> (r: String)
    ensures
        r@ == cs@,
{
    let mut out = String::new();
    let mut i: usize = 0;
    while i < cs.len()
        invariant
            i <= cs@.len(),
            out@ == cs@.take(i as int),
        decreases cs@.len() - i,
    {
        push_char(&mut out, cs[i]);
        assert(cs@.take(i as int).push(cs@[i as int]) =~= cs@.take(i + 1));
        i = i + 1;
    }
    assert(cs@.take(cs@.len() as int) =~= cs@);
    out
}

/// Whether two strings hold the same characters.
///
/// Trusted: calls `<str as PartialEq>::eq`, which compares the two strings'
/// contents.
#[verifier::external_body]
pub(crate) fn str_eq(a: &str, b: &str) -> (r: bool)
    ensures
        r == (a@ == b@),
{
    a == b
}

/// Whether `a` and `b` hold the same characters.
pub fn chars_eq(a: &[char], b: &[char]) -> (r: bool)
    ensures
        r == (a@ == b@),
{
    if a.len() != b.len() {
        return false;
    }
    let mut i: usize = 0;
    while i < a.len()
        invariant
            a@.len() == b@.len(),
            i <= a@.len(),
            forall|j: int| 0 <= j < i ==> a@[j] == b@[j],
        decreases a@.len() - i,
    {
        if a[i] != b[i] {
            return false;
        }
        i = i + 1;
    }
    assert(a@ =~= b@);
    true
}

} // verus!
