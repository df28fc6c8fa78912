# cjson-rs

A JSON parser and serialiser (RFC 8259) with the logic of a cJSON-compatible
C interface, verified with Verus.

## Layout

- `src/` — the verified library.
  - `tokeniser.rs`, `parser.rs` — the lexical and value grammar as spec
    functions over bytes, and the tokeniser and recursive-descent parser
    proved to compute them; positions, errors and the nesting limit
    included.
  - `range.rs` — whether a number's magnitude rounds to infinity as a
    binary64 double, decided exactly with integers.
  - `serialiser.rs` — the compact and pretty texts of a value.
  - `cjson.rs` — the cJSON node tree as plain data: cJSON's pretty printer,
    conversion to a value, duplication, member lookup, comparison,
    minification, byte-order marks and error offsets.
  - `capi.rs` — what the C parse, print and compare functions decide, on
    plain data: parsing a caller's buffer (byte-order mark, strict or
    prefix mode, error offsets), the node tree built for a parsed value,
    printing node trees, comparing them as cJSON does (numbers by their
    `double`s), and the positions that array insertion and lookup address.
  - `value.rs`, `token.rs`, `error.rs` — the data types and their views.
  - `laws.rs` — what holds across functions: parsing the serialiser's text
    gives the value back; minifying the pretty text gives the compact text;
    `parse_prefix` reads the value of the prefix it reports, and agrees with
    `parse` on a whole text and ends just after the value's last byte;
    errors point into the input and count lines and columns from one; parsed
    values respect the nesting limit, raising the limit keeps them, and they
    print to text that parses back to them; every value prints to one JSON
    text with no control characters in its compact form; `tokenise_prefix`
    reads what `tokenise` reads before its first error;
    the node tree built for a value reads back as it; comparison is
    reflexive and ignores member order; a deep copy keeps the value.
  - `roundtrip.rs`, `compaction.rs`, `prefix.rs`, `positions.rs`,
    `wellformed.rs` — the lemmas behind those laws.
- `app/` — the C ABI (`cJSON_*` functions): C memory, allocator hooks,
  panic containment, and the conversion of numbers to and from `double`.
- `tests/` — tests of the library.

Numbers are held as their decimal text (a type invariant keeps it a JSON
number text); `app/` converts them to and from `double`.
