//! The mathematical model of a document: an ordered sequence of
//! `(section, key, value)` triples, and what each operation does to it.
use vstd::prelude::*;

use crate::lines::spec_next_line;
use crate::text::{span, spec_trim, str_len, CharClass};
use crate::value::spec_clean_value;

verus! {

/// One stored entry: `(section, key, value)`.
pub type EntryView = (Seq<char>, Seq<char>, Seq<char>);

/// Errors of parsing and mutation.
#[derive(Debug, Clone, Copy, PartialEq, Eq, Structural)]
pub enum Error {
    /// Malformed line in the input.
    Syntax,
    /// A section/key/value exceeded a configured limit.
    TooLong,
    /// The document is at its configured entry capacity.
    Full,
    /// Requested section/key does not exist.
    NotFound,
}

/// Optional capacity limits. By default a document has none and grows freely.
#[derive(Debug, Clone, Copy)]
pub struct Limits {
    /// Maximum number of key/value pairs (`None` = unlimited).
    pub max_entries: Option<usize>,
    /// Max section-name length in bytes (`None` = unlimited).
    pub max_section: Option<usize>,
    /// Max key length in bytes (`None` = unlimited).
    pub max_key: Option<usize>,
    /// Max value length in bytes (`None` = unlimited).
    pub max_value: Option<usize>,
}

/// No limit is set.
pub open spec fn unlimited(lim: Limits) -> bool {
    lim.max_entries is None && lim.max_section is None && lim.max_key is None && lim.max_value
        is None
}

/// A length is over a limit.
pub open spec fn exceeds(len: usize, limit: Option<usize>) -> bool {
    match limit {
        Some(max) => len > max,
        None => false,
    }
}

/// Entry `i` of `m` is addressed by `section`/`key`.
pub open spec fn is_at(m: Seq<EntryView>, i: int, section: Seq<char>, key: Seq<char>) -> bool {
    0 <= i < m.len() && m[i].0 == section && m[i].1 == key
}

/// Some entry of `m` is addressed by `section`/`key`.
pub open spec fn has_key(m: Seq<EntryView>, section: Seq<char>, key: Seq<char>) -> bool {
    exists|i: int| is_at(m, i, section, key)
}

/// The position of the entry addressed by `section`/`key` (meaningful when
/// [`has_key`] holds).
pub open spec fn key_index(m: Seq<EntryView>, section: Seq<char>, key: Seq<char>) -> int {
    choose|i: int| is_at(m, i, section, key)
}

/// The value stored under `section`/`key`, if any.
pub open spec fn lookup(m: Seq<EntryView>, section: Seq<char>, key: Seq<char>) -> Option<
    Seq<char>,
> {
    if has_key(m, section, key) {
        Some(m[key_index(m, section, key)].2)
    } else {
        None
    }
}

/// No two entries share a section and key.
pub open spec fn unique_keys(m: Seq<EntryView>) -> bool {
    forall|i: int, j: int|
        0 <= i < m.len() && 0 <= j < m.len() && i != j ==> !(#[trigger] m[i].0 == #[trigger] m[j].0
            && m[i].1 == m[j].1)
}

/// Every entry, and the number of entries, respects the limits.
pub open spec fn within_limits(m: Seq<EntryView>, lim: Limits) -> bool {
    &&& (match lim.max_entries {
        Some(max) => m.len() <= max,
        None => true,
    })
    &&& forall|i: int|
        0 <= i < m.len() ==> {
            &&& !exceeds(str_len((#[trigger] m[i]).0), lim.max_section)
            &&& !exceeds(str_len(m[i].1), lim.max_key)
            &&& !exceeds(str_len(m[i].2), lim.max_value)
        }
}

/// Setting `section`/`key` to `value`: an existing entry is overwritten in
/// place, otherwise a new entry is appended. A value over the value limit is
/// refused first; only a new entry is checked against the section and key
/// limits and the entry capacity.
pub open spec fn spec_set(
    m: Seq<EntryView>,
    lim: Limits,
    section: Seq<char>,
    key: Seq<char>,
    value: Seq<char>,
) -> Result<Seq<EntryView>, Error> {
    if exceeds(str_len(value), lim.max_value) {
        Err(Error::TooLong)
    } else if has_key(m, section, key) {
        Ok(m.update(key_index(m, section, key), (section, key, value)))
    } else if exceeds(str_len(section), lim.max_section) || exceeds(str_len(key), lim.max_key) {
        Err(Error::TooLong)
    } else if lim.max_entries matches Some(max) && m.len() >= max {
        Err(Error::Full)
    } else {
        Ok(m.push((section, key, value)))
    }
}

/// Removing `section`/`key`: the entry is taken out, the others keep their
/// order; `NotFound` if there is none.
pub open spec fn spec_remove(m: Seq<EntryView>, section: Seq<char>, key: Seq<char>) -> Result<
    Seq<EntryView>,
    Error,
> {
    if has_key(m, section, key) {
        Ok(m.remove(key_index(m, section, key)))
    } else {
        Err(Error::NotFound)
    }
}

/// One line of INI text, given the document and the current section. Blank
/// and comment lines change nothing; `[name]` makes the trimmed `name` the
/// current section; `key = value` / `key : value` sets the trimmed key in the
/// current section to the cleaned value. Returns the new document and section.
pub open spec fn spec_handle_line(
    m: Seq<EntryView>,
    lim: Limits,
    section: Seq<char>,
    raw: Seq<char>,
) -> Result<(Seq<EntryView>, Seq<char>), Error> {
    let t = spec_trim(raw);
    if t.len() == 0 || t[0] == ';' || t[0] == '#' {
        Ok((m, section))
    } else if t[0] == '[' {
        let rest = t.drop_first();
        let close = span(rest, CharClass::Close, false) as int;
        if close >= rest.len() {
            Err(Error::Syntax)
        } else {
            let name = spec_trim(rest.take(close));
            if exceeds(str_len(name), lim.max_section) {
                Err(Error::TooLong)
            } else {
                Ok((m, name))
            }
        }
    } else {
        let sep = span(t, CharClass::Separator, false) as int;
        if sep >= t.len() {
            Err(Error::Syntax)
        } else {
            let key = spec_trim(t.take(sep));
            if key.len() == 0 {
                Err(Error::Syntax)
            } else {
                match spec_set(m, lim, section, key, spec_clean_value(t.skip(sep + 1))) {
                    Ok(m2) => Ok((m2, section)),
                    Err(e) => Err(e),
                }
            }
        }
    }
}

/// Loading the text `rest` line by line into `m`, starting in `section`.
/// Stops at the first failing line: the entries of the lines before it stay,
/// and its error is returned.
pub open spec fn spec_load(
    m: Seq<EntryView>,
    lim: Limits,
    section: Seq<char>,
    rest: Seq<char>,
) -> (Seq<EntryView>, Result<(), Error>)
    decreases rest.len(),
{
    if rest.len() == 0 {
        (m, Ok(()))
    } else {
        let (line, next) = spec_next_line(rest);
        match spec_handle_line(m, lim, section, line) {
            Err(e) => (m, Err(e)),
            Ok((m2, s2)) => spec_load(m2, lim, s2, next),
        }
    }
}

/// With unique keys, an entry that matches is the one [`key_index`] names.
pub proof fn lemma_key_index_unique(m: Seq<EntryView>, section: Seq<char>, key: Seq<char>, i: int)
    requires
        unique_keys(m),
        is_at(m, i, section, key),
    ensures
        has_key(m, section, key),
        key_index(m, section, key) == i,
        lookup(m, section, key) == Some(m[i].2),
{
    let j = key_index(m, section, key);
    assert(is_at(m, j, section, key));
    if i != j {
        assert(m[i].0 == m[j].0);
    }
}

} // verus!
