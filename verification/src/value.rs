//! Turning raw INI values into stored strings, and stored strings into typed
//! values: quote and inline-comment handling, integers, booleans, and the
//! decimal form that integers are stored in.
use vstd::prelude::*;

use crate::text::{
    is_space, lemma_span_bounds, rscan, scan, span, spec_is_space,
    string_from_chars, trim_by, trim_class, trim_end_by, trim_start_by, CharClass,
};
use vstd::arithmetic::div_mod::{
    lemma_add_mod_noop, lemma_fundamental_div_mod_converse, lemma_mul_mod_noop_left,
};

verus! {

// ------------------------------------------------------------------------
// Cleaning a raw value
// ------------------------------------------------------------------------
/// What a backslash escape inside double quotes stands for: `\n`, `\r`, `\t`
/// become control characters, any other character stands for itself.
pub open spec fn unescape(c: char) -> char {
    if c == 'n' {
        '\n'
    } else if c == 'r' {
        '\r'
    } else if c == 't' {
        '\t'
    } else {
        c
    }
}

/// The contents of a value quoted with `q`, given the text after the opening
/// quote: everything up to the closing quote (or the end), with backslash
/// escapes resolved when `q` is `"`. A backslash at the very end is dropped.
pub open spec fn quoted_body(s: Seq<char>, q: char) -> Seq<char>
    decreases s.len(),
{
    if s.len() == 0 {
        Seq::empty()
    } else if s[0] == q {
        Seq::empty()
    } else if q == '"' && s[0] == '\\' {
        if s.len() == 1 {
            Seq::empty()
        } else {
            seq![unescape(s[1])] + quoted_body(s.skip(2), q)
        }
    } else {
        seq![s[0]] + quoted_body(s.drop_first(), q)
    }
}

/// An unquoted value up to its inline comment: a `;` or `#` ends the value
/// when it starts the value or follows INI whitespace. `prev_space` says
/// whether the character before `s` counts as whitespace.
pub open spec fn unquoted_body(s: Seq<char>, prev_space: bool) -> Seq<char>
    decreases s.len(),
{
    if s.len() == 0 {
        Seq::empty()
    } else if (s[0] == ';' || s[0] == '#') && prev_space {
        Seq::empty()
    } else {
        seq![s[0]] + unquoted_body(s.drop_first(), spec_is_space(s[0]))
    }
}

/// The stored form of the raw text after a key's separator. Leading INI
/// whitespace is skipped; a value that then starts with `"` or `'` is the
/// quoted body; otherwise it is cut at its inline comment and trailing INI
/// whitespace is removed.
pub open spec fn spec_clean_value(raw: Seq<char>) -> Seq<char> {
    let src = trim_start_by(raw, CharClass::Space);
    if src.len() > 0 && (src[0] == '"' || src[0] == '\'') {
        quoted_body(src.drop_first(), src[0])
    } else {
        trim_end_by(unquoted_body(src, true), CharClass::Space)
    }
}

fn unescape_char(c: char) -> (r: char)
    ensures
        r == unescape(c),
{
    if c == 'n' {
        '\n'
    } else if c == 'r' {
        '\r'
    } else if c == 't' {
        '\t'
    } else {
        c
    }
}

/// Strip quotes and inline comments from a raw value.
pub fn clean_value(raw: &[char]) -> (r: String)
    ensures
        r@ == spec_clean_value(raw@),
{
    let a = scan(raw, CharClass::Space, true);
    let src = &raw[a..raw.len()];
    assert(src@ == trim_start_by(raw@, CharClass::Space));
    let n = src.len();
    if n > 0 && (src[0] == '"' || src[0] == '\'') {
        let q = src[0];
        let ghost full = quoted_body(src@.drop_first(), q);
        let mut out: Vec<char> = Vec::new();
        let mut i: usize = 1;
        let mut done = false;
        assert(src@.skip(1) =~= src@.drop_first());
        while !done && i < n
            invariant
                n == src@.len(),
                1 <= i <= n,
                full == quoted_body(src@.drop_first(), q),
                !done ==> out@ + quoted_body(src@.skip(i as int), q) == full,
                done ==> out@ == full,
            decreases n - i + (if done { 0int } else { 1int }),
        {
            let ghost rest = src@.skip(i as int);
            let c = src[i];
            assert(rest[0] == c);
            if c == q {
                assert(quoted_body(rest, q) == Seq::<char>::empty());
                assert(out@ + Seq::<char>::empty() =~= out@);
                done = true;
            } else if q == '"' && c == '\\' {
                if i + 1 < n {
                    let e = unescape_char(src[i + 1]);
                    assert(rest[1] == src@[i + 1]);
                    assert(rest.skip(2) =~= src@.skip(i + 2));
                    let ghost before = out@;
                    out.push(e);
                    assert(before + (seq![e] + quoted_body(src@.skip(i + 2), q)) =~= out@
                        + quoted_body(src@.skip(i + 2), q));
                    i = i + 2;
                } else {
                    assert(rest.len() == 1);
                    assert(out@ + Seq::<char>::empty() =~= out@);
                    done = true;
                }
            } else {
                assert(rest.drop_first() =~= src@.skip(i + 1));
                let ghost before = out@;
                out.push(c);
                assert(before + (seq![c] + quoted_body(src@.skip(i + 1), q)) =~= out@
                    + quoted_body(src@.skip(i + 1), q));
                i = i + 1;
            }
        }
        if !done {
            assert(src@.skip(n as int) =~= Seq::<char>::empty());
            assert(out@ + Seq::<char>::empty() =~= out@);
        }
        string_from_chars(out.as_slice())
    } else {
        let mut out: Vec<char> = Vec::new();
        let mut prev_space = true;
        let mut i: usize = 0;
        let mut done = false;
        let ghost full = unquoted_body(src@, true);
        assert(src@.skip(0) =~= src@);
        while !done && i < n
            invariant
                n == src@.len(),
                i <= n,
                full == unquoted_body(src@, true),
                !done ==> out@ + unquoted_body(src@.skip(i as int), prev_space) == full,
                done ==> out@ == full,
            decreases n - i + (if done { 0int } else { 1int }),
        {
            let ghost rest = src@.skip(i as int);
            let c = src[i];
            assert(rest[0] == c);
            if (c == ';' || c == '#') && prev_space {
                assert(out@ + Seq::<char>::empty() =~= out@);
                done = true;
            } else {
                assert(rest.drop_first() =~= src@.skip(i + 1));
                let ghost before = out@;
                prev_space = is_space(c);
                out.push(c);
                assert(before + (seq![c] + unquoted_body(src@.skip(i + 1), prev_space)) =~= out@
                    + unquoted_body(src@.skip(i + 1), prev_space));
                i = i + 1;
            }
        }
        if !done {
            assert(src@.skip(n as int) =~= Seq::<char>::empty());
            assert(out@ + Seq::<char>::empty() =~= out@);
        }
        let b = rscan(out.as_slice(), CharClass::Space);
        let kept = &out.as_slice()[0..out.len() - b];
        string_from_chars(kept)
    }
}

// ------------------------------------------------------------------------
// Integers
// ------------------------------------------------------------------------
/// The numeric value of an ASCII decimal or hexadecimal digit.
pub open spec fn digit_value(c: char) -> int {
    if '0' <= c && c <= '9' {
        c as int - '0' as int
    } else if 'a' <= c && c <= 'f' {
        c as int - 'a' as int + 10
    } else if 'A' <= c && c <= 'F' {
        c as int - 'A' as int + 10
    } else {
        0
    }
}

/// The number that the digits `s` denote in `base`.
pub open spec fn digits_value(s: Seq<char>, base: int) -> int
    decreases s.len(),
{
    if s.len() == 0 {
        0
    } else {
        digits_value(s.drop_last(), base) * base + digit_value(s.last())
    }
}

/// 2 to the 64th.
pub open spec fn two_pow_64() -> int {
    0x1_0000_0000_0000_0000
}

/// `x` reduced to 64 bits and read as a two's-complement `i64`.
pub open spec fn wrap_i64(x: int) -> i64 {
    let r = x % two_pow_64();
    if r <= i64::MAX {
        r as i64
    } else {
        (r - two_pow_64()) as i64
    }
}

/// An integer value: after leading INI whitespace, an optional `+`/`-`, then
/// either `0x`/`0X` and hexadecimal digits or decimal digits. Digits are read
/// as far as they go and anything after them is ignored; without a digit the
/// value is not an integer. The number is reduced to 64 bits (two's
/// complement), so out-of-range values wrap.
pub open spec fn spec_parse_int(v: Seq<char>) -> Option<i64> {
    let s = trim_start_by(v, CharClass::Space);
    let signed = s.len() > 0 && (s[0] == '+' || s[0] == '-');
    let neg = s.len() > 0 && s[0] == '-';
    let b = if signed {
        s.drop_first()
    } else {
        s
    };
    let hex = b.len() >= 2 && b[0] == '0' && (b[1] == 'x' || b[1] == 'X');
    let cls = if hex {
        CharClass::Hex
    } else {
        CharClass::Decimal
    };
    let base: int = if hex {
        16
    } else {
        10
    };
    let body = if hex {
        b.skip(2)
    } else {
        b
    };
    let ds = body.take(span(body, cls, true) as int);
    if ds.len() == 0 {
        None
    } else if neg {
        Some(wrap_i64(-digits_value(ds, base)))
    } else {
        Some(wrap_i64(digits_value(ds, base)))
    }
}

fn digit_of(c: char) -> (d: u64)
    requires
        ('0' <= c && c <= '9') || ('a' <= c && c <= 'f') || ('A' <= c && c <= 'F'),
    ensures
        d == digit_value(c),
        d < 16,
{
    if '0' <= c && c <= '9' {
        (c as u32 - '0' as u32) as u64
    } else if 'a' <= c && c <= 'f' {
        (c as u32 - 'a' as u32 + 10) as u64
    } else {
        (c as u32 - 'A' as u32 + 10) as u64
    }
}

/// An unsigned 64-bit pattern read as a two's-complement `i64`.
fn to_i64(x: u64) -> (r: i64)
    ensures
        r == wrap_i64(x as int),
{
    assert(x as int % two_pow_64() == x) by {
        lemma_fundamental_div_mod_converse(x as int, two_pow_64(), 0, x as int);
    }
    if x <= i64::MAX as u64 {
        x as i64
    } else {
        ((x - 9223372036854775808u64) as i64) + i64::MIN
    }
}

proof fn lemma_digit_step(v: u64, big: int, base: u64, d: u64)
    requires
        v as int == big % two_pow_64(),
        base == 10 || base == 16,
        d < 16,
    ensures
        v.wrapping_mul(base).wrapping_add(d) as int == (big * base + d) % two_pow_64(),
{
    let m = two_pow_64();
    let p = v.wrapping_mul(base);
    assert(p as int == (v as int * base as int) % m);
    lemma_mul_mod_noop_left(big, base as int, m);
    assert(p as int == (big * base) % m);
    lemma_add_mod_noop(big * base, d as int, m);
    assert((d as int) % m == d) by {
        lemma_fundamental_div_mod_converse(d as int, m, 0, d as int);
    }
    let r = p.wrapping_add(d);
    if p as int + d as int > u64::MAX {
        assert(r as int == p as int + d - m);
        assert((p as int + d as int) % m == p as int + d - m) by {
            lemma_fundamental_div_mod_converse(p as int + d as int, m, 1, p as int + d - m);
        }
    } else {
        assert((p as int + d as int) % m == p as int + d) by {
            lemma_fundamental_div_mod_converse(p as int + d as int, m, 0, p as int + d);
        }
    }
}

proof fn lemma_neg_mod(v: u64, big: int)
    requires
        v as int == big % two_pow_64(),
    ensures
        0u64.wrapping_sub(v) as int == (-big) % two_pow_64(),
{
    let m = two_pow_64();
    let q = big / m;
    vstd::arithmetic::div_mod::lemma_fundamental_div_mod(big, m);
    assert(big == q * m + v) by (nonlinear_arith)
        requires
            big == m * (big / m) + big % m,
            q == big / m,
            v == big % m,
    ;
    if v == 0 {
        assert(-big == (-q) * m + 0) by (nonlinear_arith)
            requires
                big == q * m + v,
                v == 0,
        ;
        lemma_fundamental_div_mod_converse(-big, m, -q, 0);
    } else {
        assert(-big == (-q - 1) * m + (m - v)) by (nonlinear_arith)
            requires
                big == q * m + v,
        ;
        lemma_fundamental_div_mod_converse(-big, m, -q - 1, m - v);
    }
}

/// Parse a decimal or `0x`-hex integer with an optional sign, ignoring
/// trailing junk; `None` if no digit was read.
pub fn parse_int(v: &[char]) -> (r: Option<i64>)
    ensures
        r == spec_parse_int(v@),
{
    let a = scan(v, CharClass::Space, true);
    let s = &v[a..v.len()];
    assert(s@ == trim_start_by(v@, CharClass::Space));
    let mut neg = false;
    let mut i: usize = 0;
    if s.len() > 0 && (s[0] == '+' || s[0] == '-') {
        neg = s[0] == '-';
        i = 1;
    }
    let b = &s[i..s.len()];
    assert(i == 1 ==> b@ =~= s@.drop_first());
    assert(i == 0 ==> b@ =~= s@);
    let hex = b.len() >= 2 && b[0] == '0' && (b[1] == 'x' || b[1] == 'X');
    let cls = if hex {
        CharClass::Hex
    } else {
        CharClass::Decimal
    };
    let base: u64 = if hex {
        16
    } else {
        10
    };
    let body = if hex {
        &b[2..b.len()]
    } else {
        b
    };
    assert(hex ==> body@ =~= b@.skip(2));
    let n = scan(body, cls, true);
    proof {
        lemma_span_bounds(body@, cls, true);
    }
    if n == 0 {
        assert(body@.take(0) =~= Seq::<char>::empty());
        return None;
    }
    let ghost ds = body@.take(n as int);
    let mut val: u64 = 0;
    let mut j: usize = 0;
    assert(0 == 0int % two_pow_64());
    assert(body@.take(0) =~= Seq::<char>::empty());
    while j < n
        invariant
            j <= n <= body@.len(),
            base == 10 || base == 16,
            cls == (if base == 16 {
                CharClass::Hex
            } else {
                CharClass::Decimal
            }),
            forall|k: int| 0 <= k < n ==> crate::text::in_class(#[trigger] body@[k], cls),
            val as int == digits_value(body@.take(j as int), base as int) % two_pow_64(),
        decreases n - j,
    {
        let c = body[j];
        assert(crate::text::in_class(body@[j as int], cls));
        let d = digit_of(c);
        proof {
            lemma_digit_step(val, digits_value(body@.take(j as int), base as int), base, d);
            assert(body@.take(j + 1).drop_last() =~= body@.take(j as int));
        }
        val = val.wrapping_mul(base).wrapping_add(d);
        j = j + 1;
    }
    if neg {
        proof {
            lemma_neg_mod(val, digits_value(ds, base as int));
        }
        Some(to_i64(0u64.wrapping_sub(val)))
    } else {
        Some(to_i64(val))
    }
}

// ------------------------------------------------------------------------
// Booleans
// ------------------------------------------------------------------------
/// The code point of `c` with ASCII upper-case letters lowered.
pub open spec fn ascii_lower(c: char) -> int {
    if 'A' <= c && c <= 'Z' {
        c as int + 32
    } else {
        c as int
    }
}

/// ASCII case-insensitive equality of two character sequences.
pub open spec fn eq_ignore_ascii_case(a: Seq<char>, b: Seq<char>) -> bool {
    a.len() == b.len() && forall|i: int| 0 <= i < a.len() ==> ascii_lower(a[i]) == ascii_lower(
        b[i],
    )
}

pub open spec fn word_true() -> Seq<char> {
    seq!['t', 'r', 'u', 'e']
}

pub open spec fn word_false() -> Seq<char> {
    seq!['f', 'a', 'l', 's', 'e']
}

/// A boolean value: after trimming Unicode whitespace, `true`, `yes`, `on`
/// (any ASCII case) or `1` is true; `false`, `no`, `off` (any ASCII case) or
/// `0` is false; anything else is not a boolean.
pub open spec fn spec_parse_bool(v: Seq<char>) -> Option<bool> {
    let t = trim_by(v, CharClass::WhiteSpace);
    if eq_ignore_ascii_case(t, word_true()) || eq_ignore_ascii_case(t, seq!['y', 'e', 's'])
        || eq_ignore_ascii_case(t, seq!['o', 'n']) || t == seq!['1'] {
        Some(true)
    } else if eq_ignore_ascii_case(t, word_false()) || eq_ignore_ascii_case(t, seq!['n', 'o'])
        || eq_ignore_ascii_case(t, seq!['o', 'f', 'f']) || t == seq!['0'] {
        Some(false)
    } else {
        None
    }
}

fn lower_code(c: char) -> (r: u32)
    ensures
        r == ascii_lower(c),
{
    if 'A' <= c && c <= 'Z' {
        c as u32 + 32
    } else {
        c as u32
    }
}

fn ci_eq(a: &[char], b: &[char]) -> (r: bool)
    ensures
        r == eq_ignore_ascii_case(a@, b@),
{
    if a.len() != b.len() {
        return false;
    }
    let mut i: usize = 0;
    while i < a.len()
        invariant
            a@.len() == b@.len(),
            i <= a@.len(),
            forall|j: int| 0 <= j < i ==> ascii_lower(a@[j]) == ascii_lower(b@[j]),
        decreases a@.len() - i,
    {
        if lower_code(a[i]) != lower_code(b[i]) {
            return false;
        }
        i = i + 1;
    }
    true
}

/// Recognise a boolean value.
pub fn parse_bool(v: &[char]) -> (r: Option<bool>)
    ensures
        r == spec_parse_bool(v@),
{
    let t = trim_class(v, CharClass::WhiteSpace);
    let w_true = ['t', 'r', 'u', 'e'];
    let w_yes = ['y', 'e', 's'];
    let w_on = ['o', 'n'];
    let w_one = ['1'];
    let w_false = ['f', 'a', 'l', 's', 'e'];
    let w_no = ['n', 'o'];
    let w_off = ['o', 'f', 'f'];
    let w_zero = ['0'];
    assert(w_true@ == word_true());
    assert(w_yes@ == seq!['y', 'e', 's']);
    assert(w_on@ == seq!['o', 'n']);
    assert(w_one@ == seq!['1']);
    assert(w_false@ == word_false());
    assert(w_no@ == seq!['n', 'o']);
    assert(w_off@ == seq!['o', 'f', 'f']);
    assert(w_zero@ == seq!['0']);
    if ci_eq(t, &w_true) || ci_eq(t, &w_yes) || ci_eq(t, &w_on) || crate::text::chars_eq(
        t,
        &w_one,
    ) {
        Some(true)
    } else if ci_eq(t, &w_false) || ci_eq(t, &w_no) || ci_eq(t, &w_off) || crate::text::chars_eq(
        t,
        &w_zero,
    ) {
        Some(false)
    } else {
        None
    }
}

// ------------------------------------------------------------------------
// Decimal form of integers
// ------------------------------------------------------------------------
/// The ASCII digit for `d` (0 to 9).
pub open spec fn digit_char(d: int) -> char {
    seq!['0', '1', '2', '3', '4', '5', '6', '7', '8', '9'][d]
}

/// The decimal digits of `n`, most significant first, without leading zeros.
pub open spec fn decimal_digits(n: nat) -> Seq<char>
    decreases n,
{
    if n < 10 {
        seq![digit_char(n as int)]
    } else {
        decimal_digits(n / 10).push(digit_char((n % 10) as int))
    }
}

/// The decimal form of `v`: its digits, after a `-` when it is negative.
pub open spec fn spec_decimal(v: int) -> Seq<char> {
    if v < 0 {
        seq!['-'] + decimal_digits((-v) as nat)
    } else {
        decimal_digits(v as nat)
    }
}

/// The decimal form of `v`.
///
/// Trusted: calls `i64`'s `ToString` (its `Display`), which writes the value
/// in base ten, with a leading `-` for negative values and no leading zeros.
#[verifier::external_body]
pub(crate) fn i64_to_decimal(v: i64) -> (r: String)
    ensures
        r@ == spec_decimal(v as int),
{
    v.to_string()
}

} // verus!
