//! The in-memory INI document: loading, typed getters and mutation.
use vstd::prelude::*;

use crate::lines::split_lines;
use crate::model::{
    exceeds, has_key, is_at, key_index, lemma_key_index_unique, lookup, spec_handle_line,
    spec_load, spec_remove, spec_set, unique_keys, unlimited, within_limits, EntryView, Error,
    Limits,
};
use crate::text::{scan, str_chars, str_eq, str_len, string_from_chars, trim, CharClass};
use crate::value::{
    clean_value, i64_to_decimal, parse_bool, parse_int, spec_decimal, spec_parse_bool,
    spec_parse_int,
};

verus! {

impl Error {
    /// Human-readable description of the error.
    pub fn as_str(&self) -> (r: &'static str)
        ensures
            *self == Error::Syntax ==> r@ == "syntax error"@,
            *self == Error::TooLong ==> r@ == "value too long for storage"@,
            *self == Error::Full ==> r@ == "document is full"@,
            *self == Error::NotFound ==> r@ == "key not found"@,
    {
        match self {
            Error::Syntax => "syntax error",
            Error::TooLong => "value too long for storage",
            Error::Full => "document is full",
            Error::NotFound => "key not found",
        }
    }
}

impl Limits {
    /// A conservative fixed capacity: 64 entries; section/key up to 63 bytes,
    /// value up to 127 bytes.
    pub fn compact() -> (r: Limits)
        ensures
            r.max_entries == Some(64usize),
            r.max_section == Some(63usize),
            r.max_key == Some(63usize),
            r.max_value == Some(127usize),
    {
        Limits {
            max_entries: Some(64),
            max_section: Some(63),
            max_key: Some(63),
            max_value: Some(127),
        }
    }
}

impl Default for Limits {
    /// No limits: a document grows freely.
    fn default() -> (r: Self)
        ensures
            unlimited(r),
    {
        Limits { max_entries: None, max_section: None, max_key: None, max_value: None }
    }
}

/// One stored key/value pair.
#[derive(Debug, Clone, PartialEq, Eq)]
pub struct Entry {
    pub section: String,
    pub key: String,
    pub value: String,
}

impl View for Entry {
    type V = EntryView;

    open spec fn view(&self) -> EntryView {
        (self.section@, self.key@, self.value@)
    }
}

/// An in-memory INI document: an ordered collection of [`Entry`] values.
#[derive(Debug, Clone)]
pub struct Document {
    entries: Vec<Entry>,
    limits: Limits,
}

impl View for Document {
    type V = Seq<EntryView>;

    closed spec fn view(&self) -> Seq<EntryView> {
        self.entries@.map_values(|e: Entry| e@)
    }
}

/// The integer read back from `section`/`key`: the stored value parsed as an
/// integer, or `fallback` if the key is absent or the value is not one.
pub open spec fn spec_get_int(
    m: Seq<EntryView>,
    section: Seq<char>,
    key: Seq<char>,
    fallback: i64,
) -> i64 {
    match lookup(m, section, key) {
        Some(v) => match spec_parse_int(v) {
            Some(n) => n,
            None => fallback,
        },
        None => fallback,
    }
}

/// The boolean read back from `section`/`key`, or `fallback` if the key is
/// absent or the value is not a boolean.
pub open spec fn spec_get_bool(
    m: Seq<EntryView>,
    section: Seq<char>,
    key: Seq<char>,
    fallback: bool,
) -> bool {
    match lookup(m, section, key) {
        Some(v) => match spec_parse_bool(v) {
            Some(b) => b,
            None => fallback,
        },
        None => fallback,
    }
}

/// `Ok(())` when `len` is within `limit`, `TooLong` otherwise.
fn check_len(len: usize, limit: Option<usize>) -> (r: Result<(), Error>)
    ensures
        r is Err <==> exceeds(len, limit),
        r is Err ==> r == Err::<(), Error>(Error::TooLong),
{
    match limit {
        Some(max) => if len > max {
            Err(Error::TooLong)
        } else {
            Ok(())
        },
        None => Ok(()),
    }
}

impl Document {
    /// The configured limits.
    pub closed spec fn limits_view(&self) -> Limits {
        self.limits
    }

    /// Keys are unique and every entry respects the configured limits.
    pub open spec fn wf(&self) -> bool {
        unique_keys(self@) && within_limits(self@, self.limits_view())
    }

    /// Create an empty document with no limits.
    pub fn new() -> (r: Self)
        ensures
            r.wf(),
            r@ == Seq::<EntryView>::empty(),
            unlimited(r.limits_view()),
    {
        let r = Document { entries: Vec::new(), limits: Limits::default() };
        assert(r@ =~= Seq::<EntryView>::empty());
        r
    }

    /// Create an empty document that enforces the given limits.
    pub fn with_limits(limits: Limits) -> (r: Self)
        ensures
            r.wf(),
            r@ == Seq::<EntryView>::empty(),
            r.limits_view() == limits,
    {
        let r = Document { entries: Vec::new(), limits };
        assert(r@ =~= Seq::<EntryView>::empty());
        r
    }

    /// Number of stored entries.
    pub fn len(&self) -> (r: usize)
        ensures
            r == self@.len(),
    {
        self.entries.len()
    }

    /// Whether the document holds no entries.
    pub fn is_empty(&self) -> (r: bool)
        ensures
            r == (self@.len() == 0),
    {
        self.entries.len() == 0
    }

    /// Reset the document to empty, keeping the configured limits.
    pub fn clear(&mut self)
        ensures
            final(self).wf(),
            final(self)@ == Seq::<EntryView>::empty(),
            final(self).limits_view() == old(self).limits_view(),
    {
        self.entries.clear();
        assert(self@ =~= Seq::<EntryView>::empty());
    }

    /// All entries, in insertion order.
    pub fn entries(&self) -> (r: &[Entry])
        ensures
            r@.map_values(|e: Entry| e@) == self@,
    {
        self.entries.as_slice()
    }

    /// Position of the entry for `section`/`key`, if any.
    fn find_index(&self, section: &str, key: &str) -> (r: Option<usize>)
        requires
            self.wf(),
        ensures
            r is None <==> !has_key(self@, section@, key@),
            r matches Some(i) ==> i == key_index(self@, section@, key@) && i < self@.len(),
    {
        let n = self.entries.len();
        let mut i: usize = 0;
        while i < n
            invariant
                n == self.entries@.len(),
                n == self@.len(),
                i <= n,
                self.wf(),
                forall|j: int| 0 <= j < i ==> !is_at(self@, j, section@, key@),
            decreases n - i,
        {
            let e = &self.entries[i];
            assert(self@[i as int] == e@);
            if str_eq(e.section.as_str(), section) && str_eq(e.key.as_str(), key) {
                proof {
                    lemma_key_index_unique(self@, section@, key@, i as int);
                }
                return Some(i);
            }
            i = i + 1;
        }
        None
    }

    /// The entry for `section`/`key`, if any.
    fn find(&self, section: &str, key: &str) -> (r: Option<&Entry>)
        requires
            self.wf(),
        ensures
            r is None <==> !has_key(self@, section@, key@),
            r matches Some(e) ==> e@ == self@[key_index(self@, section@, key@)],
    {
        match self.find_index(section, key) {
            Some(i) => Some(&self.entries[i]),
            None => None,
        }
    }

    /// Whether `section`/`key` exists. Use `""` for the global section.
    pub fn has(&self, section: &str, key: &str) -> (r: bool)
        requires
            self.wf(),
        ensures
            r == has_key(self@, section@, key@),
    {
        self.find(section, key).is_some()
    }

    /// The raw string value, or `fallback` if absent.
    pub fn get_string<'a>(&'a self, section: &str, key: &str, fallback: &'a str) -> (r: &'a str)
        requires
            self.wf(),
        ensures
            r@ == (match lookup(self@, section@, key@) {
                Some(v) => v,
                None => fallback@,
            }),
    {
        match self.find(section, key) {
            Some(e) => e.value.as_str(),
            None => fallback,
        }
    }

    /// The value as an `i64` (decimal, or `0x`-prefixed hex), or `fallback`
    /// if the key is absent or the value is not an integer.
    pub fn get_int(&self, section: &str, key: &str, fallback: i64) -> (r: i64)
        requires
            self.wf(),
        ensures
            r == spec_get_int(self@, section@, key@, fallback),
    {
        match self.find(section, key) {
            Some(e) => {
                let cs = str_chars(e.value.as_str());
                match parse_int(cs.as_slice()) {
                    Some(n) => n,
                    None => fallback,
                }
            },
            None => fallback,
        }
    }

    /// The value as a boolean: `true/false`, `yes/no`, `on/off` (any ASCII
    /// case) or `1/0`; `fallback` if absent or unrecognised.
    pub fn get_bool(&self, section: &str, key: &str, fallback: bool) -> (r: bool)
        requires
            self.wf(),
        ensures
            r == spec_get_bool(self@, section@, key@, fallback),
    {
        match self.find(section, key) {
            Some(e) => {
                let cs = str_chars(e.value.as_str());
                match parse_bool(cs.as_slice()) {
                    Some(b) => b,
                    None => fallback,
                }
            },
            None => fallback,
        }
    }

    /// Set `key` in `section` to `value`, adding or overwriting (see
    /// [`spec_set`]). On error the document is unchanged.
    fn set_checked(&mut self, section: &str, key: &str, value: &str) -> (r: Result<(), Error>)
        requires
            old(self).wf(),
        ensures
            final(self).wf(),
            final(self).limits_view() == old(self).limits_view(),
            match spec_set(old(self)@, old(self).limits_view(), section@, key@, value@) {
                Ok(m) => r is Ok && final(self)@ == m,
                Err(e) => r == Err::<(), Error>(e) && final(self)@ == old(self)@,
            },
    {
        let ghost m = self@;
        let ghost lim = self.limits;
        if let Err(e) = check_len(value.len(), self.limits.max_value) {
            return Err(e);
        }
        assert(!exceeds(str_len(value@), lim.max_value));
        match self.find_index(section, key) {
            Some(i) => {
                let e = Entry {
                    section: self.entries[i].section.clone(),
                    key: self.entries[i].key.clone(),
                    value: value.to_owned(),
                };
                assert(m[i as int] == self.entries@[i as int]@);
                assert(e@ == (section@, key@, value@));
                self.entries.set(i, e);
                proof {
                    assert(self@ =~= m.update(i as int, (section@, key@, value@)));
                    assert forall|a: int, b: int|
                        0 <= a < self@.len() && 0 <= b < self@.len() && a != b implies !(
                    #[trigger] self@[a].0 == #[trigger] self@[b].0 && self@[a].1 == self@[b].1) by {
                        assert(m[a].0 == self@[a].0 && m[a].1 == self@[a].1);
                        assert(m[b].0 == self@[b].0 && m[b].1 == self@[b].1);
                    }
                    assert forall|a: int| 0 <= a < self@.len() implies {
                        &&& !exceeds(str_len((#[trigger] self@[a]).0), lim.max_section)
                        &&& !exceeds(str_len(self@[a].1), lim.max_key)
                        &&& !exceeds(str_len(self@[a].2), lim.max_value)
                    } by {
                        assert(m[a].0 == self@[a].0 && m[a].1 == self@[a].1);
                    }
                }
                Ok(())
            },
            None => {
                if let Err(e) = check_len(section.len(), self.limits.max_section) {
                    return Err(e);
                }
                if let Err(e) = check_len(key.len(), self.limits.max_key) {
                    return Err(e);
                }
                if let Some(max) = self.limits.max_entries {
                    if self.entries.len() >= max {
                        return Err(Error::Full);
                    }
                }
                let e = Entry { section: section.to_owned(), key: key.to_owned(), value: value.to_owned() };
                self.entries.push(e);
                proof {
                    assert(self@ =~= m.push((section@, key@, value@)));
                    assert forall|a: int, b: int|
                        0 <= a < self@.len() && 0 <= b < self@.len() && a != b implies !(
                    #[trigger] self@[a].0 == #[trigger] self@[b].0 && self@[a].1 == self@[b].1) by {
                        if a == m.len() {
                            assert(!is_at(m, b, section@, key@));
                        } else if b == m.len() {
                            assert(!is_at(m, a, section@, key@));
                        } else {
                            assert(m[a] == self@[a] && m[b] == self@[b]);
                        }
                    }
                    assert forall|a: int| 0 <= a < self@.len() implies {
                        &&& !exceeds(str_len((#[trigger] self@[a]).0), lim.max_section)
                        &&& !exceeds(str_len(self@[a].1), lim.max_key)
                        &&& !exceeds(str_len(self@[a].2), lim.max_value)
                    } by {
                        if a < m.len() {
                            assert(m[a] == self@[a]);
                        }
                    }
                }
                Ok(())
            },
        }
    }

    /// Set `key` in `section` to a string value (add or overwrite).
    ///
    /// Fails with `Full` / `TooLong` only when limits are configured; a
    /// document without limits never fails here.
    pub fn set(&mut self, section: &str, key: &str, value: &str) -> (r: Result<(), Error>)
        requires
            old(self).wf(),
        ensures
            final(self).wf(),
            final(self).limits_view() == old(self).limits_view(),
            match spec_set(old(self)@, old(self).limits_view(), section@, key@, value@) {
                Ok(m) => r is Ok && final(self)@ == m,
                Err(e) => r == Err::<(), Error>(e) && final(self)@ == old(self)@,
            },
            unlimited(old(self).limits_view()) ==> r is Ok,
    {
        self.set_checked(section, key, value)
    }

    /// Set `key` to an integer value, stored in decimal.
    pub fn set_int(&mut self, section: &str, key: &str, value: i64) -> (r: Result<(), Error>)
        requires
            old(self).wf(),
        ensures
            final(self).wf(),
            final(self).limits_view() == old(self).limits_view(),
            match spec_set(
                old(self)@,
                old(self).limits_view(),
                section@,
                key@,
                spec_decimal(value as int),
            ) {
                Ok(m) => r is Ok && final(self)@ == m,
                Err(e) => r == Err::<(), Error>(e) && final(self)@ == old(self)@,
            },
            unlimited(old(self).limits_view()) ==> r is Ok,
    {
        let text = i64_to_decimal(value);
        self.set(section, key, text.as_str())
    }

    /// Set `key` to `"true"` or `"false"`.
    pub fn set_bool(&mut self, section: &str, key: &str, value: bool) -> (r: Result<(), Error>)
        requires
            old(self).wf(),
        ensures
            final(self).wf(),
            final(self).limits_view() == old(self).limits_view(),
            match spec_set(
                old(self)@,
                old(self).limits_view(),
                section@,
                key@,
                if value {
                    "true"@
                } else {
                    "false"@
                },
            ) {
                Ok(m) => r is Ok && final(self)@ == m,
                Err(e) => r == Err::<(), Error>(e) && final(self)@ == old(self)@,
            },
            unlimited(old(self).limits_view()) ==> r is Ok,
    {
        self.set(
            section,
            key,
            if value {
                "true"
            } else {
                "false"
            },
        )
    }

    /// Remove `key` from `section`; `NotFound` if absent.
    pub fn remove(&mut self, section: &str, key: &str) -> (r: Result<(), Error>)
        requires
            old(self).wf(),
        ensures
            final(self).wf(),
            final(self).limits_view() == old(self).limits_view(),
            match spec_remove(old(self)@, section@, key@) {
                Ok(m) => r is Ok && final(self)@ == m,
                Err(e) => r == Err::<(), Error>(e) && final(self)@ == old(self)@,
            },
    {
        let ghost m = self@;
        match self.find_index(section, key) {
            Some(i) => {
                self.entries.remove(i);
                proof {
                    assert(self@ =~= m.remove(i as int));
                    assert forall|a: int, b: int|
                        0 <= a < self@.len() && 0 <= b < self@.len() && a != b implies !(
                    #[trigger] self@[a].0 == #[trigger] self@[b].0 && self@[a].1 == self@[b].1) by {
                        let a2 = if a < i { a } else { a + 1 };
                        let b2 = if b < i { b } else { b + 1 };
                        assert(self@[a] == m[a2] && self@[b] == m[b2]);
                    }
                    assert forall|a: int| 0 <= a < self@.len() implies {
                        &&& !exceeds(str_len((#[trigger] self@[a]).0), self.limits.max_section)
                        &&& !exceeds(str_len(self@[a].1), self.limits.max_key)
                        &&& !exceeds(str_len(self@[a].2), self.limits.max_value)
                    } by {
                        let a2 = if a < i { a } else { a + 1 };
                        assert(self@[a] == m[a2]);
                    }
                }
                Ok(())
            },
            None => Err(Error::NotFound),
        }
    }

    /// Handle one line of INI text (see [`spec_handle_line`]). On error the
    /// document and the current section are unchanged.
    fn handle_line(&mut self, raw: &[char], section: &mut String) -> (r: Result<(), Error>)
        requires
            old(self).wf(),
        ensures
            final(self).wf(),
            final(self).limits_view() == old(self).limits_view(),
            match spec_handle_line(old(self)@, old(self).limits_view(), old(section)@, raw@) {
                Ok((m, s)) => r is Ok && final(self)@ == m && final(section)@ == s,
                Err(e) => r == Err::<(), Error>(e) && final(self)@ == old(self)@
                    && final(section)@ == old(section)@,
            },
    {
        let t = trim(raw);
        if t.len() == 0 || t[0] == ';' || t[0] == '#' {
            return Ok(());
        }
        if t[0] == '[' {
            let rest = &t[1..t.len()];
            assert(rest@ =~= t@.drop_first());
            let close = scan(rest, CharClass::Close, false);
            if close >= rest.len() {
                return Err(Error::Syntax);
            }
            let name = trim(&rest[0..close]);
            let name_s = string_from_chars(name);
            if let Err(e) = check_len(name_s.as_str().len(), self.limits.max_section) {
                return Err(e);
            }
            *section = name_s;
            return Ok(());
        }
        let sep = scan(t, CharClass::Separator, false);
        if sep >= t.len() {
            return Err(Error::Syntax);
        }
        let key = trim(&t[0..sep]);
        if key.len() == 0 {
            return Err(Error::Syntax);
        }
        let value = clean_value(&t[sep + 1..t.len()]);
        let key_s = string_from_chars(key);
        self.set_checked(section.as_str(), key_s.as_str(), value.as_str())
    }

    /// Parse an INI buffer, appending its entries to this document (see
    /// [`spec_load`]). Stops at the first error and returns it; the entries
    /// of the lines before the failing one stay.
    pub fn load(&mut self, data: &str) -> (r: Result<(), Error>)
        requires
            old(self).wf(),
        ensures
            final(self).wf(),
            final(self).limits_view() == old(self).limits_view(),
            (final(self)@, r) == spec_load(
                old(self)@,
                old(self).limits_view(),
                Seq::<char>::empty(),
                data@,
            ),
    {
        let chars = str_chars(data);
        let mut section = String::new();
        let mut lines = split_lines(chars.as_slice());
        let ghost lim = self.limits_view();
        let ghost target = spec_load(self@, lim, Seq::<char>::empty(), data@);
        loop
            invariant
                lines.wf(),
                self.wf(),
                self.limits_view() == lim,
                lim == old(self).limits_view(),
                target == spec_load(old(self)@, lim, Seq::<char>::empty(), data@),
                spec_load(self@, lim, section@, lines.rest()) == target,
            decreases lines.rest().len(),
        {
            match lines.next() {
                None => {
                    return Ok(());
                },
                Some(line) => {
                    if let Err(e) = self.handle_line(line, &mut section) {
                        return Err(e);
                    }
                },
            }
        }
    }

    /// Parse a fresh document (without limits) from a string in one step.
    pub fn parse(data: &str) -> (r: Result<Self, Error>)
        ensures
            ({
                let (m, res) = spec_load(
                    Seq::<EntryView>::empty(),
                    Limits { max_entries: None, max_section: None, max_key: None, max_value: None },
                    Seq::<char>::empty(),
                    data@,
                );
                match res {
                    Ok(()) => r matches Ok(d) && d@ == m && d.wf() && unlimited(d.limits_view()),
                    Err(e) => r == Err::<Self, Error>(e),
                }
            }),
    {
        let mut doc = Document::new();
        match doc.load(data) {
            Ok(()) => Ok(doc),
            Err(e) => Err(e),
        }
    }
}

impl Default for Document {
    /// An empty document with no limits.
    fn default() -> (r: Self)
        ensures
            r.wf(),
            r@ == Seq::<EntryView>::empty(),
            unlimited(r.limits_view()),
    {
        Document::new()
    }
}

} // verus!
