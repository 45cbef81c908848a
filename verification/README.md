# rustiniparser

A small in-memory INI store with a verified core: parse INI text into a
`Document`, read values back as strings, integers or booleans, and modify,
add or remove entries. Every function in `src/` carries a contract that Verus
proves.

Layout:

- `src/text.rs` — character classes, leading/trailing runs, trimming,
  `str`/`String`/`[char]` conversions.
- `src/lines.rs` — splitting text into lines on LF, CRLF and lone CR.
- `src/value.rs` — cleaning raw values (quotes, escapes, inline comments),
  parsing integers and booleans, the decimal form of integers.
- `src/model.rs` — the model of a document (a sequence of
  `(section, key, value)` triples) and what set, remove, a line and a load do
  to it; the `Error` and `Limits` types.
- `src/document.rs` — `Document` and `Entry`, with contracts over the model.
- `src/laws.rs` — properties of the library as a whole, proved.
- `app/` — floating-point reads, a displayable error type, the C ABI and the
  demo program, which Verus does not check.
- `tests/` — behaviour tests.
