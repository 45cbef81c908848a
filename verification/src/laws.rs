//! Properties of the library as a whole, stated over the model that the
//! operations' contracts use, and proved.
use vstd::prelude::*;

use crate::document::{spec_get_bool, spec_get_int};
use crate::lines::spec_next_line;
use crate::model::{
    has_key, is_at, key_index, lemma_key_index_unique, lookup, spec_handle_line, spec_load,
    spec_remove, spec_set, unique_keys, unlimited, EntryView, Limits,
};
use crate::text::{
    lemma_rspan_is, lemma_span_is, rspan, span, spec_is_dec_digit, spec_trim, trim_by,
    trim_end_by, trim_start_by, CharClass,
};
use crate::value::{
    ascii_lower, decimal_digits, digit_char, digit_value, digits_value, eq_ignore_ascii_case,
    quoted_body, spec_clean_value, unquoted_body,
    spec_decimal, spec_parse_bool, spec_parse_int, two_pow_64, word_false, word_true, wrap_i64,
};
use vstd::arithmetic::div_mod::lemma_fundamental_div_mod_converse;

verus! {

// ------------------------------------------------------------------------
// Setting and reading back
// ------------------------------------------------------------------------
/// A successful set keeps the keys unique.
pub proof fn law_set_keeps_keys_unique(
    m: Seq<EntryView>,
    lim: Limits,
    section: Seq<char>,
    key: Seq<char>,
    value: Seq<char>,
)
    requires
        unique_keys(m),
        spec_set(m, lim, section, key, value) is Ok,
    ensures
        unique_keys(spec_set(m, lim, section, key, value)->Ok_0),
{
    let r = spec_set(m, lim, section, key, value)->Ok_0;
    if has_key(m, section, key) {
        let i = key_index(m, section, key);
        assert(is_at(m, i, section, key));
        assert forall|a: int, b: int| 0 <= a < r.len() && 0 <= b < r.len() && a != b implies !(
        #[trigger] r[a].0 == #[trigger] r[b].0 && r[a].1 == r[b].1) by {
            assert(m[a].0 == r[a].0 && m[a].1 == r[a].1);
            assert(m[b].0 == r[b].0 && m[b].1 == r[b].1);
        }
    } else {
        assert forall|a: int, b: int| 0 <= a < r.len() && 0 <= b < r.len() && a != b implies !(
        #[trigger] r[a].0 == #[trigger] r[b].0 && r[a].1 == r[b].1) by {
            if a == m.len() {
                assert(!is_at(m, b, section, key));
            } else if b == m.len() {
                assert(!is_at(m, a, section, key));
            } else {
                assert(m[a] == r[a] && m[b] == r[b]);
            }
        }
    }
}

/// What a successful set writes is what a read gives back, and every other
/// section/key reads as before.
pub proof fn law_get_after_set(
    m: Seq<EntryView>,
    lim: Limits,
    section: Seq<char>,
    key: Seq<char>,
    value: Seq<char>,
    other_section: Seq<char>,
    other_key: Seq<char>,
)
    requires
        unique_keys(m),
        spec_set(m, lim, section, key, value) is Ok,
    ensures
        lookup(spec_set(m, lim, section, key, value)->Ok_0, section, key) == Some(value),
        (other_section, other_key) != (section, key) ==> lookup(
            spec_set(m, lim, section, key, value)->Ok_0,
            other_section,
            other_key,
        ) == lookup(m, other_section, other_key),
{
    let r = spec_set(m, lim, section, key, value)->Ok_0;
    law_set_keeps_keys_unique(m, lim, section, key, value);
    let i = if has_key(m, section, key) {
        key_index(m, section, key)
    } else {
        m.len() as int
    };
    assert(is_at(r, i, section, key));
    lemma_key_index_unique(r, section, key, i);
    if (other_section, other_key) != (section, key) {
        if has_key(m, other_section, other_key) {
            let j = key_index(m, other_section, other_key);
            assert(is_at(m, j, other_section, other_key));
            assert(j != i);
            assert(r[j] == m[j]);
            lemma_key_index_unique(r, other_section, other_key, j);
        } else {
            if has_key(r, other_section, other_key) {
                let j = key_index(r, other_section, other_key);
                assert(is_at(r, j, other_section, other_key));
                assert(j != i);
                assert(is_at(m, j, other_section, other_key));
            }
        }
    }
}

/// Overwriting an existing key keeps the number of entries; adding a new key
/// appends it after all existing entries, whose order is kept.
pub proof fn law_set_size_and_order(
    m: Seq<EntryView>,
    lim: Limits,
    section: Seq<char>,
    key: Seq<char>,
    value: Seq<char>,
)
    requires
        spec_set(m, lim, section, key, value) is Ok,
    ensures
        has_key(m, section, key) ==> spec_set(m, lim, section, key, value)->Ok_0.len() == m.len(),
        !has_key(m, section, key) ==> spec_set(m, lim, section, key, value)->Ok_0 == m.push(
            (section, key, value),
        ),
{
}

/// A document without limits never refuses a set, and overwriting an
/// existing key is never refused for want of room.
pub proof fn law_set_refusals(
    m: Seq<EntryView>,
    lim: Limits,
    section: Seq<char>,
    key: Seq<char>,
    value: Seq<char>,
)
    ensures
        unlimited(lim) ==> spec_set(m, lim, section, key, value) is Ok,
        has_key(m, section, key) ==> spec_set(m, lim, section, key, value) != Err::<
            Seq<EntryView>,
            crate::model::Error,
        >(crate::model::Error::Full),
{
}

// ------------------------------------------------------------------------
// Removing
// ------------------------------------------------------------------------
/// After a successful remove the key is gone and every other key reads as
/// before; a remove fails exactly when the key is absent.
pub proof fn law_remove(
    m: Seq<EntryView>,
    section: Seq<char>,
    key: Seq<char>,
    other_section: Seq<char>,
    other_key: Seq<char>,
)
    requires
        unique_keys(m),
    ensures
        spec_remove(m, section, key) is Err <==> !has_key(m, section, key),
        spec_remove(m, section, key) matches Ok(r) ==> {
            &&& !has_key(r, section, key)
            &&& r.len() + 1 == m.len()
            &&& ((other_section, other_key) != (section, key) ==> lookup(
                r,
                other_section,
                other_key,
            ) == lookup(m, other_section, other_key))
        },
{
    if has_key(m, section, key) {
        let i = key_index(m, section, key);
        assert(is_at(m, i, section, key));
        let r = m.remove(i);
        assert forall|a: int| 0 <= a < r.len() implies r[a] == m[if a < i {
            a
        } else {
            a + 1
        }] by {}
        if has_key(r, section, key) {
            let a = key_index(r, section, key);
            assert(is_at(r, a, section, key));
            let a2 = if a < i {
                a
            } else {
                a + 1
            };
            assert(m[a2].0 == m[i].0 && m[a2].1 == m[i].1);
        }
        assert(unique_keys(r)) by {
            assert forall|a: int, b: int|
                0 <= a < r.len() && 0 <= b < r.len() && a != b implies !(#[trigger] r[a].0
                == #[trigger] r[b].0 && r[a].1 == r[b].1) by {
                let a2 = if a < i {
                    a
                } else {
                    a + 1
                };
                let b2 = if b < i {
                    b
                } else {
                    b + 1
                };
                assert(r[a] == m[a2] && r[b] == m[b2]);
            }
        }
        if (other_section, other_key) != (section, key) {
            if has_key(m, other_section, other_key) {
                let j = key_index(m, other_section, other_key);
                assert(is_at(m, j, other_section, other_key));
                let j2 = if j < i {
                    j
                } else {
                    j - 1
                };
                assert(j != i);
                assert(r[j2] == m[j]);
                lemma_key_index_unique(r, other_section, other_key, j2);
            } else if has_key(r, other_section, other_key) {
                let a = key_index(r, other_section, other_key);
                assert(is_at(r, a, other_section, other_key));
                let a2 = if a < i {
                    a
                } else {
                    a + 1
                };
                assert(is_at(m, a2, other_section, other_key));
            }
        }
    }
}

/// Adding a new key and then removing it gives back the document as it was.
pub proof fn law_remove_undoes_add(
    m: Seq<EntryView>,
    lim: Limits,
    section: Seq<char>,
    key: Seq<char>,
    value: Seq<char>,
)
    requires
        !has_key(m, section, key),
        spec_set(m, lim, section, key, value) is Ok,
    ensures
        spec_remove(spec_set(m, lim, section, key, value)->Ok_0, section, key) == Ok::<
            Seq<EntryView>,
            crate::model::Error,
        >(m),
{
    let r = m.push((section, key, value));
    assert(is_at(r, m.len() as int, section, key));
    let j = key_index(r, section, key);
    assert(is_at(r, j, section, key));
    if j < m.len() {
        assert(is_at(m, j, section, key));
    }
    assert(r.remove(m.len() as int) =~= m);
}

// ------------------------------------------------------------------------
// Typed values read back
// ------------------------------------------------------------------------
proof fn lemma_digit_chars(d: int)
    requires
        0 <= d < 10,
    ensures
        spec_is_dec_digit(digit_char(d)),
        digit_value(digit_char(d)) == d,
{
    if d == 0 {
        assert(digit_char(d) == '0');
    } else if d == 1 {
        assert(digit_char(d) == '1');
    } else if d == 2 {
        assert(digit_char(d) == '2');
    } else if d == 3 {
        assert(digit_char(d) == '3');
    } else if d == 4 {
        assert(digit_char(d) == '4');
    } else if d == 5 {
        assert(digit_char(d) == '5');
    } else if d == 6 {
        assert(digit_char(d) == '6');
    } else if d == 7 {
        assert(digit_char(d) == '7');
    } else if d == 8 {
        assert(digit_char(d) == '8');
    } else {
        assert(digit_char(d) == '9');
    }
}

proof fn lemma_decimal_digits(n: nat)
    ensures
        decimal_digits(n).len() >= 1,
        forall|i: int|
            0 <= i < decimal_digits(n).len() ==> spec_is_dec_digit(
                #[trigger] decimal_digits(n)[i],
            ),
        digits_value(decimal_digits(n), 10) == n,
    decreases n,
{
    if n < 10 {
        lemma_digit_chars(n as int);
        let s = decimal_digits(n);
        assert(s.drop_last() =~= Seq::<char>::empty());
        assert(digits_value(s.drop_last(), 10) == 0);
        assert(s.last() == digit_char(n as int));
        assert(digits_value(s, 10) == digits_value(s.drop_last(), 10) * 10 + digit_value(
            s.last(),
        ));
    } else {
        lemma_decimal_digits(n / 10);
        lemma_digit_chars((n % 10) as int);
        let s = decimal_digits(n);
        assert(s.drop_last() =~= decimal_digits(n / 10));
        assert(s.last() == digit_char((n % 10) as int));
        assert(digits_value(s, 10) == digits_value(s.drop_last(), 10) * 10 + digit_value(
            s.last(),
        ));
        assert(n == (n / 10) * 10 + n % 10);
        assert forall|i: int| 0 <= i < s.len() implies spec_is_dec_digit(#[trigger] s[i]) by {
            if i < s.len() - 1 {
                assert(s[i] == decimal_digits(n / 10)[i]);
            }
        }
    }
}

/// Reading the digits of `n` as a decimal integer gives `n` back.
proof fn lemma_parse_digits(n: nat, text: Seq<char>, neg: bool)
    requires
        text == (if neg {
            seq!['-'] + decimal_digits(n)
        } else {
            decimal_digits(n)
        }),
    ensures
        spec_parse_int(text) == Some(wrap_i64(
            if neg {
                -(n as int)
            } else {
                n as int
            },
        )),
{
    let dd = decimal_digits(n);
    lemma_decimal_digits(n);
    lemma_span_is(text, CharClass::Space, true, 0);
    assert(trim_start_by(text, CharClass::Space) =~= text);
    let b = if neg {
        text.drop_first()
    } else {
        text
    };
    assert(b =~= dd);
    assert(spec_is_dec_digit(dd[0]));
    if dd.len() >= 2 {
        assert(spec_is_dec_digit(dd[1]));
    }
    assert forall|j: int| 0 <= j < dd.len() implies crate::text::in_class(
        #[trigger] dd[j],
        CharClass::Decimal,
    ) == true by {
        assert(spec_is_dec_digit(dd[j]));
    }
    lemma_span_is(dd, CharClass::Decimal, true, dd.len() as int);
    assert(dd.take(dd.len() as int) =~= dd);
}

/// The decimal form that integers are stored in reads back as the same
/// integer, for every `i64`.
pub proof fn law_int_round_trip(v: i64)
    ensures
        spec_parse_int(spec_decimal(v as int)) == Some(v),
{
    let m = two_pow_64();
    if v < 0 {
        let n = (-(v as int)) as nat;
        lemma_parse_digits(n, spec_decimal(v as int), true);
        lemma_fundamental_div_mod_converse(v as int, m, -1, v + m);
    } else {
        let n = v as nat;
        lemma_parse_digits(n, spec_decimal(v as int), false);
        lemma_fundamental_div_mod_converse(v as int, m, 0, v as int);
    }
}

/// An integer set under a key reads back as that integer.
pub proof fn law_get_int_after_set_int(
    m: Seq<EntryView>,
    lim: Limits,
    section: Seq<char>,
    key: Seq<char>,
    v: i64,
    fallback: i64,
)
    requires
        unique_keys(m),
        spec_set(m, lim, section, key, spec_decimal(v as int)) is Ok,
    ensures
        spec_get_int(
            spec_set(m, lim, section, key, spec_decimal(v as int))->Ok_0,
            section,
            key,
            fallback,
        ) == v,
{
    law_get_after_set(m, lim, section, key, spec_decimal(v as int), section, key);
    law_int_round_trip(v);
}

/// The words that booleans are stored as read back as the same booleans.
pub proof fn law_bool_round_trip(b: bool)
    ensures
        spec_parse_bool(
            if b {
                "true"@
            } else {
                "false"@
            },
        ) == Some(b),
{
    reveal_strlit("true");
    reveal_strlit("false");
    let w = if b {
        "true"@
    } else {
        "false"@
    };
    if b {
        assert(w =~= word_true());
    } else {
        assert(w =~= word_false());
    }
    lemma_span_is(w, CharClass::WhiteSpace, true, 0);
    let t = trim_start_by(w, CharClass::WhiteSpace);
    assert(t =~= w);
    lemma_rspan_is(w, CharClass::WhiteSpace, 0);
    assert(trim_by(w, CharClass::WhiteSpace) =~= w);
}

/// A boolean set under a key reads back as that boolean.
pub proof fn law_get_bool_after_set_bool(
    m: Seq<EntryView>,
    lim: Limits,
    section: Seq<char>,
    key: Seq<char>,
    b: bool,
    fallback: bool,
)
    requires
        unique_keys(m),
        spec_set(
            m,
            lim,
            section,
            key,
            if b {
                "true"@
            } else {
                "false"@
            },
        ) is Ok,
    ensures
        spec_get_bool(
            spec_set(
                m,
                lim,
                section,
                key,
                if b {
                    "true"@
                } else {
                    "false"@
                },
            )->Ok_0,
            section,
            key,
            fallback,
        ) == b,
{
    let w = if b {
        "true"@
    } else {
        "false"@
    };
    law_get_after_set(m, lim, section, key, w, section, key);
    law_bool_round_trip(b);
}

// ------------------------------------------------------------------------
// Syntax
// ------------------------------------------------------------------------
proof fn lemma_quoted_plain(v: Seq<char>, q: char, rest: Seq<char>)
    requires
        q == '\'' || q == '"',
        forall|i: int| 0 <= i < v.len() ==> #[trigger] v[i] != q && v[i] != '\\',
    ensures
        quoted_body(v + seq![q] + rest, q) == v,
    decreases v.len(),
{
    let s = v + seq![q] + rest;
    if v.len() == 0 {
        assert(s[0] == q);
    } else {
        assert(s[0] == v[0]);
        assert(v[0] != q && v[0] != '\\');
        assert(s.drop_first() =~= v.drop_first() + seq![q] + rest);
        assert forall|i: int| 0 <= i < v.drop_first().len() implies #[trigger] v.drop_first()[i]
            != q && v.drop_first()[i] != '\\' by {
            assert(v.drop_first()[i] == v[i + 1]);
        }
        lemma_quoted_plain(v.drop_first(), q, rest);
        assert(seq![v[0]] + v.drop_first() =~= v);
    }
}

/// A quoted value keeps its text exactly, spaces and comment characters
/// included, when it holds no quote of its kind and no backslash.
pub proof fn law_quoted_value(v: Seq<char>, q: char)
    requires
        q == '\'' || q == '"',
        forall|i: int| 0 <= i < v.len() ==> #[trigger] v[i] != q && v[i] != '\\',
    ensures
        spec_clean_value(seq![q] + v + seq![q]) == v,
{
    let raw = seq![q] + v + seq![q];
    lemma_span_is(raw, CharClass::Space, true, 0);
    assert(trim_start_by(raw, CharClass::Space) =~= raw);
    assert(raw.drop_first() =~= v + seq![q] + Seq::<char>::empty());
    lemma_quoted_plain(v, q, Seq::<char>::empty());
}

/// Blank lines and lines whose first non-blank character is `;` or `#`
/// change neither the document nor the current section.
pub proof fn law_comment_lines_ignored(
    m: Seq<EntryView>,
    lim: Limits,
    section: Seq<char>,
    raw: Seq<char>,
)
    requires
        ({
            let t = crate::text::spec_trim(raw);
            t.len() == 0 || t[0] == ';' || t[0] == '#'
        }),
    ensures
        spec_handle_line(m, lim, section, raw) == Ok::<
            (Seq<EntryView>, Seq<char>),
            crate::model::Error,
        >((m, section)),
{
}

/// LF, CRLF and a lone CR each end a line: the line is the text before the
/// terminator and reading goes on right after it.
pub proof fn law_line_endings(line: Seq<char>, term: Seq<char>, rest: Seq<char>)
    requires
        term == seq!['\n'] || term == seq!['\r', '\n'] || term == seq!['\r'],
        forall|i: int| 0 <= i < line.len() ==> #[trigger] line[i] != '\n' && line[i] != '\r',
        term == seq!['\r'] ==> !(rest.len() > 0 && rest[0] == '\n'),
    ensures
        spec_next_line(line + term + rest) == (line, rest),
{
    let s = line + term + rest;
    let k = line.len() as int;
    assert forall|j: int| 0 <= j < k implies crate::text::in_class(
        #[trigger] s[j],
        CharClass::LineBreak,
    ) == false by {
        assert(s[j] == line[j]);
    }
    assert(s[k] == term[0]);
    lemma_span_is(s, CharClass::LineBreak, false, k);
    assert(s.take(k) =~= line);
    if term == seq!['\r', '\n'] {
        assert(s[k + 1] == '\n');
        assert(s.skip(k + 2) =~= rest);
    } else if term == seq!['\r'] {
        if k + 1 < s.len() {
            assert(s[k + 1] == rest[0]);
        }
        assert(s.skip(k + 1) =~= rest);
    } else {
        assert(s.skip(k + 1) =~= rest);
    }
}

// ------------------------------------------------------------------------
// Loading
// ------------------------------------------------------------------------
proof fn lemma_set_keeps_keys(
    m: Seq<EntryView>,
    lim: Limits,
    section: Seq<char>,
    key: Seq<char>,
    value: Seq<char>,
    s: Seq<char>,
    k: Seq<char>,
)
    requires
        has_key(m, s, k),
        spec_set(m, lim, section, key, value) is Ok,
    ensures
        has_key(spec_set(m, lim, section, key, value)->Ok_0, s, k),
{
    let r = spec_set(m, lim, section, key, value)->Ok_0;
    let j = key_index(m, s, k);
    assert(is_at(m, j, s, k));
    if has_key(m, section, key) {
        let i = key_index(m, section, key);
        assert(is_at(m, i, section, key));
        assert(is_at(r, j, s, k));
    } else {
        assert(is_at(r, j, s, k));
    }
}

/// Loading text into a document never loses a key it already had, whether
/// the load succeeds or stops at an error.
pub proof fn law_load_keeps_keys(
    m: Seq<EntryView>,
    lim: Limits,
    section: Seq<char>,
    text: Seq<char>,
    s: Seq<char>,
    k: Seq<char>,
)
    requires
        has_key(m, s, k),
    ensures
        has_key(spec_load(m, lim, section, text).0, s, k),
    decreases text.len(),
{
    if text.len() > 0 {
        let (line, next) = spec_next_line(text);
        match spec_handle_line(m, lim, section, line) {
            Err(_) => {},
            Ok((m2, s2)) => {
                let t = crate::text::spec_trim(line);
                if !(t.len() == 0 || t[0] == ';' || t[0] == '#') && t[0] != '[' {
                    let sep = span(t, CharClass::Separator, false) as int;
                    let key = crate::text::spec_trim(t.take(sep));
                    lemma_set_keeps_keys(
                        m,
                        lim,
                        section,
                        key,
                        spec_clean_value(t.skip(sep + 1)),
                        s,
                        k,
                    );
                }
                law_load_keeps_keys(m2, lim, s2, next, s, k);
            },
        }
    }
}


// ------------------------------------------------------------------------
// Where a key ends
// ------------------------------------------------------------------------
/// A key/value line is split at its first `=` or `:`: when the trimmed line
/// is `k`, a separator, then `v`, and `k` holds neither `=` nor `:`, handling
/// the line sets the trimmed `k` in the current section to the cleaned `v`
/// (so a value may itself hold `=` or `:`), and a read of that key then gives
/// the cleaned `v` back.
pub proof fn law_key_ends_at_first_separator(
    m: Seq<EntryView>,
    lim: Limits,
    section: Seq<char>,
    raw: Seq<char>,
    k: Seq<char>,
    sep: char,
    v: Seq<char>,
)
    requires
        spec_trim(raw) == k + seq![sep] + v,
        sep == '=' || sep == ':',
        k.len() > 0,
        k[0] != ';' && k[0] != '#' && k[0] != '[',
        forall|j: int| 0 <= j < k.len() ==> #[trigger] k[j] != '=' && k[j] != ':',
        spec_trim(k).len() > 0,
    ensures
        spec_handle_line(m, lim, section, raw) == (match spec_set(
            m,
            lim,
            section,
            spec_trim(k),
            spec_clean_value(v),
        ) {
            Ok(m2) => Ok((m2, section)),
            Err(e) => Err(e),
        }),
        unique_keys(m) ==> (spec_handle_line(m, lim, section, raw) matches Ok((m2, s2)) ==> {
            &&& s2 == section
            &&& lookup(m2, section, spec_trim(k)) == Some(spec_clean_value(v))
        }),
{
    let t = spec_trim(raw);
    let n = k.len() as int;
    assert forall|j: int| 0 <= j < n implies crate::text::in_class(
        #[trigger] t[j],
        CharClass::Separator,
    ) == false by {
        assert(t[j] == k[j]);
    }
    assert(t[n] == sep);
    lemma_span_is(t, CharClass::Separator, false, n);
    assert(t[0] == k[0]);
    assert(t.take(n) =~= k);
    assert(t.skip(n + 1) =~= v);
    if unique_keys(m) && spec_set(m, lim, section, spec_trim(k), spec_clean_value(v)) is Ok {
        law_get_after_set(
            m,
            lim,
            section,
            spec_trim(k),
            spec_clean_value(v),
            section,
            spec_trim(k),
        );
    }
}

// ------------------------------------------------------------------------
// Inline comments
// ------------------------------------------------------------------------
proof fn lemma_unquoted_plain(x: Seq<char>, y: Seq<char>, p: bool)
    requires
        forall|j: int| 0 <= j < x.len() ==> #[trigger] x[j] != ';' && x[j] != '#',
    ensures
        unquoted_body(x + y, p) == x + unquoted_body(
            y,
            if x.len() > 0 {
                crate::text::spec_is_space(x.last())
            } else {
                p
            },
        ),
    decreases x.len(),
{
    if x.len() > 0 {
        let s = x + y;
        assert(s[0] == x[0]);
        assert(s.drop_first() =~= x.drop_first() + y);
        assert forall|j: int| 0 <= j < x.drop_first().len() implies #[trigger] x.drop_first()[j]
            != ';' && x.drop_first()[j] != '#' by {
            assert(x.drop_first()[j] == x[j + 1]);
        }
        lemma_unquoted_plain(x.drop_first(), y, crate::text::spec_is_space(x[0]));
        if x.len() > 1 {
            assert(x.drop_first().last() == x.last());
        }
        assert(seq![x[0]] + (x.drop_first() + unquoted_body(
            y,
            if x.len() > 0 {
                crate::text::spec_is_space(x.last())
            } else {
                p
            },
        )) =~= x + unquoted_body(
            y,
            if x.len() > 0 {
                crate::text::spec_is_space(x.last())
            } else {
                p
            },
        ));
    } else {
        assert(x + y =~= y);
        assert(x + unquoted_body(y, p) =~= unquoted_body(y, p));
    }
}

/// An inline comment is cut off: when an unquoted value `v` (no quote, `;`
/// or `#` in it) is followed by INI whitespace (space, tab, form feed or
/// vertical tab), then `;` or `#`, then any text, the stored value is that of
/// `v` alone.
pub proof fn law_inline_comment_cut(v: Seq<char>, w: char, h: char, c: Seq<char>)
    requires
        w == ' ' || w == '\t' || w == '\x0c' || w == '\x0b',
        h == ';' || h == '#',
        forall|j: int|
            0 <= j < v.len() ==> #[trigger] v[j] != ';' && v[j] != '#' && v[j] != '"' && v[j]
                != '\'',
    ensures
        spec_clean_value(v + seq![w, h] + c) == spec_clean_value(v),
{
    let raw = v + seq![w, h] + c;
    let a = span(v, CharClass::Space, true) as int;
    crate::text::lemma_span_bounds(v, CharClass::Space, true);
    if a < v.len() {
        assert forall|j: int| 0 <= j < a implies crate::text::in_class(
            #[trigger] raw[j],
            CharClass::Space,
        ) == true by {
            assert(raw[j] == v[j]);
        }
        assert(raw[a] == v[a]);
        lemma_span_is(raw, CharClass::Space, true, a);
        let vs = v.skip(a);
        assert(raw.skip(a) =~= vs + (seq![w, h] + c));
        assert(vs[0] == v[a]);
        assert forall|j: int| 0 <= j < vs.len() implies #[trigger] vs[j] != ';' && vs[j] != '#' by {
            assert(vs[j] == v[a + j]);
        }
        lemma_unquoted_plain(vs, seq![w, h] + c, true);
        lemma_unquoted_plain(vs, Seq::<char>::empty(), true);
        assert(vs + Seq::<char>::empty() =~= vs);
        let tail = seq![w, h] + c;
        assert(tail[0] == w);
        assert(tail.drop_first()[0] == h);
        assert(unquoted_body(tail.drop_first(), true) == Seq::<char>::empty());
        assert(unquoted_body(tail, crate::text::spec_is_space(vs.last())) =~= seq![w]);
        let body = vs + seq![w];
        assert(body.drop_last() =~= vs);
        assert(rspan(body, CharClass::Space) == 1 + rspan(vs, CharClass::Space));
        crate::text::lemma_rspan_bounds(vs, CharClass::Space);
        assert(trim_end_by(body, CharClass::Space) =~= trim_end_by(vs, CharClass::Space));
    } else {
        assert forall|j: int| 0 <= j < a + 1 implies crate::text::in_class(
            #[trigger] raw[j],
            CharClass::Space,
        ) == true by {
            if j < a {
                assert(raw[j] == v[j]);
            } else {
                assert(raw[j] == w);
            }
        }
        assert(raw[a + 1] == h);
        lemma_span_is(raw, CharClass::Space, true, a + 1);
        let src = raw.skip(a + 1);
        assert(src[0] == h);
        assert(unquoted_body(src, true) == Seq::<char>::empty());
        assert(v.skip(a) =~= Seq::<char>::empty());
        assert(unquoted_body(Seq::<char>::empty(), true) == Seq::<char>::empty());
        assert(trim_end_by(Seq::<char>::empty(), CharClass::Space) =~= Seq::<char>::empty());
    }
}

// ------------------------------------------------------------------------
// Hexadecimal integers
// ------------------------------------------------------------------------
/// `0x` (or `0X`) followed by hexadecimal digits, either case, reads as the
/// number those digits denote in base 16, whenever it fits in an `i64`.
pub proof fn law_hex_value(h: Seq<char>, x: char)
    requires
        x == 'x' || x == 'X',
        h.len() > 0,
        forall|j: int|
            0 <= j < h.len() ==> ('0' <= #[trigger] h[j] && h[j] <= '9') || ('a' <= h[j] && h[j]
                <= 'f') || ('A' <= h[j] && h[j] <= 'F'),
        digits_value(h, 16) <= i64::MAX,
    ensures
        spec_parse_int(seq!['0', x] + h) == Some(digits_value(h, 16) as i64),
{
    let text = seq!['0', x] + h;
    assert(text[0] == '0');
    lemma_span_is(text, CharClass::Space, true, 0);
    assert(trim_start_by(text, CharClass::Space) =~= text);
    assert(text[1] == x);
    assert(text.skip(2) =~= h);
    assert forall|j: int| 0 <= j < h.len() implies crate::text::in_class(
        #[trigger] h[j],
        CharClass::Hex,
    ) == true by {}
    lemma_span_is(h, CharClass::Hex, true, h.len() as int);
    assert(h.take(h.len() as int) =~= h);
    lemma_digits_value_nonneg(h, 16);
    lemma_fundamental_div_mod_converse(
        digits_value(h, 16),
        two_pow_64(),
        0,
        digits_value(h, 16),
    );
}

proof fn lemma_digits_value_nonneg(s: Seq<char>, base: int)
    requires
        base >= 0,
    ensures
        digits_value(s, base) >= 0,
    decreases s.len(),
{
    if s.len() > 0 {
        lemma_digits_value_nonneg(s.drop_last(), base);
        assert(digits_value(s.drop_last(), base) * base >= 0) by (nonlinear_arith)
            requires
                digits_value(s.drop_last(), base) >= 0,
                base >= 0,
        ;
    }
}

// ------------------------------------------------------------------------
// Booleans ignore ASCII case
// ------------------------------------------------------------------------
/// The boolean words are read without regard to ASCII case: any spelling of
/// `true`, `yes`, `on` with some letters upper-cased is true, and of `false`,
/// `no`, `off` is false.
pub proof fn law_bool_words_ignore_case(u: Seq<char>, w: Seq<char>)
    requires
        w == seq!['t', 'r', 'u', 'e'] || w == seq!['y', 'e', 's'] || w == seq!['o', 'n'] || w
            == seq!['f', 'a', 'l', 's', 'e'] || w == seq!['n', 'o'] || w == seq!['o', 'f', 'f'],
        u.len() == w.len(),
        forall|i: int| 0 <= i < u.len() ==> #[trigger] u[i] == w[i] || u[i] as int + 32 == w[i] as int,
    ensures
        spec_parse_bool(u) == Some(
            w == seq!['t', 'r', 'u', 'e'] || w == seq!['y', 'e', 's'] || w == seq!['o', 'n'],
        ),
{
    assert forall|i: int| 0 <= i < u.len() implies 'a' <= #[trigger] w[i] && w[i] <= 'z' by {}
    assert forall|i: int| 0 <= i < u.len() implies ascii_lower(#[trigger] u[i]) == w[i] as int
        && !crate::text::spec_is_white_space(u[i]) by {
        assert('a' <= w[i] && w[i] <= 'z');
    }
    assert(!crate::text::spec_is_white_space(u[0]));
    assert(!crate::text::spec_is_white_space(u[u.len() - 1]));
    lemma_span_is(u, CharClass::WhiteSpace, true, 0);
    assert(trim_start_by(u, CharClass::WhiteSpace) =~= u);
    lemma_rspan_is(u, CharClass::WhiteSpace, 0);
    assert(trim_by(u, CharClass::WhiteSpace) =~= u);
    assert(eq_ignore_ascii_case(u, w)) by {
        assert forall|i: int| 0 <= i < u.len() implies ascii_lower(u[i]) == ascii_lower(w[i]) by {
            assert(ascii_lower(u[i]) == w[i] as int);
            assert('a' <= w[i] && w[i] <= 'z');
        }
    }
    let ut = ascii_lower(u[0]);
    assert(ut == w[0] as int);
    if w == seq!['n', 'o'] {
        assert(ascii_lower(u[0]) != ascii_lower(seq!['o', 'n'][0]));
    }
    if w == seq!['o', 'f', 'f'] {
        assert(ascii_lower(u[0]) != ascii_lower(seq!['y', 'e', 's'][0]));
    }
    if w == seq!['o', 'n'] || w == seq!['n', 'o'] {
        assert(u != seq!['1']);
        assert(u != seq!['0']);
    }
}

// ------------------------------------------------------------------------
// Removing keeps order
// ------------------------------------------------------------------------
/// Removing the entry at position `i` leaves exactly the other entries, in
/// their original order.
pub proof fn law_remove_keeps_order(m: Seq<EntryView>, section: Seq<char>, key: Seq<char>, i: int)
    requires
        unique_keys(m),
        is_at(m, i, section, key),
    ensures
        spec_remove(m, section, key) == Ok::<Seq<EntryView>, crate::model::Error>(
            m.subrange(0, i) + m.subrange(i + 1, m.len() as int),
        ),
{
    lemma_key_index_unique(m, section, key, i);
    assert(m.remove(i) =~= m.subrange(0, i) + m.subrange(i + 1, m.len() as int));
}

} // verus!
