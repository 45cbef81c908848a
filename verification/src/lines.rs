//! Splitting text into lines on LF, CRLF and lone CR, without copying.
use vstd::prelude::*;

use crate::text::{lemma_span_bounds, scan, span, CharClass};

verus! {

/// The first line of `s` and the text after its terminator. The line ends at
/// the first `\n` or `\r`; a `\r\n` pair counts as one terminator.
pub open spec fn spec_next_line(s: Seq<char>) -> (Seq<char>, Seq<char>) {
    let e = span(s, CharClass::LineBreak, false) as int;
    let line = s.take(e);
    let rest = if e >= s.len() {
        Seq::<char>::empty()
    } else if s[e] == '\r' && e + 1 < s.len() && s[e + 1] == '\n' {
        s.skip(e + 2)
    } else {
        s.skip(e + 1)
    };
    (line, rest)
}

/// A cursor over the lines of a character buffer.
pub struct Lines<'a> {
    data: &'a [char],
    pos: usize,
}

impl<'a> Lines<'a> {
    /// The text not yet handed out.
    pub closed spec fn rest(&self) -> Seq<char> {
        self.data@.skip(self.pos as int)
    }

    /// The cursor stays inside its buffer.
    pub closed spec fn wf(&self) -> bool {
        self.pos <= self.data@.len()
    }

    /// The next line, or `None` once the text is used up. The line is
    /// `spec_next_line(rest).0` and the cursor moves past its terminator.
    pub fn next(&mut self) -> (r: Option<&'a [char]>)
        requires
            old(self).wf(),
        ensures
            final(self).wf(),
            old(self).rest().len() == 0 ==> r is None && final(self).rest() == old(self).rest(),
            old(self).rest().len() > 0 ==> r is Some && (r->0@, final(self).rest())
                == spec_next_line(old(self).rest()),
    {
        let data: &'a [char] = self.data;
        if self.pos >= data.len() {
            return None;
        }
        let start = self.pos;
        let tail = &data[start..data.len()];
        let n = scan(tail, CharClass::LineBreak, false);
        let i = start + n;
        let line = &data[start..i];
        proof {
            lemma_span_bounds(tail@, CharClass::LineBreak, false);
            assert(line@ =~= tail@.take(n as int));
        }
        let mut next = i;
        if i < data.len() {
            if data[i] == '\r' && i + 1 < data.len() && data[i + 1] == '\n' {
                next = i + 2;
            } else {
                next = i + 1;
            }
        }
        self.pos = next;
        proof {
            assert(tail@ == old(self).rest());
            if i < data@.len() {
                assert(tail@[n as int] == data@[i as int]);
                if data@[i as int] == '\r' && i + 1 < data@.len() && data@[i + 1] == '\n' {
                    assert(tail@[n + 1] == data@[i + 1]);
                    assert(data@.skip(next as int) =~= tail@.skip(n + 2));
                } else {
                    assert(n + 1 < tail@.len() ==> tail@[n + 1] == data@[i + 1]);
                    assert(data@.skip(next as int) =~= tail@.skip(n + 1));
                }
            } else {
                assert(data@.skip(next as int) =~= Seq::<char>::empty());
            }
        }
        Some(line)
    }
}

/// A cursor positioned at the start of `data`.
pub fn split_lines<'a>(data: &'a [char]) -> (r: Lines<'a>)
    ensures
        r.wf(),
        r.rest() == data@,
{
    let r = Lines { data, pos: 0 };
    assert(data@.skip(0) =~= data@);
    r
}

} // verus!
