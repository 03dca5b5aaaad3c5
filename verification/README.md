# datavalue

A JSON value type whose composite payloads live in a `bumpalo` arena
(`DataValue<'a>`), its heap-owned counterpart (`OwnedDataValue`), a
zero-copy parser, compact and pretty emitters, and date and duration
values backed by `chrono` that both value types can hold (`DateTime` and
`Duration` variants, written out as quoted ISO 8601 and `"1d:2h:3m:4s"`
text), all verified with Verus.

Both value types are described by one mathematical model, `model::SVal`.
The parser is specified by a grammar over bytes (`parser::spec_parse_document`),
the emitters by `emit::spec_emit` and `emit::spec_pretty`, and the accessors,
indexing, equality and conversions by functions over the model.

Floats are kept as their IEEE-754 bit patterns. Reading a float literal and
writing a float's text are the caller's: the parser takes a function from a
literal's bytes to a bit pattern, the emitters a function from a bit pattern
to text.

## Layout

- `src/` — the verified library.
  - `model.rs` — the model of a JSON value.
  - `value.rs`, `owned.rs` — the two value types, their accessors,
    indexing, equality and conversions.
  - `number.rs`, `compare.rs` — numbers, their equality and order, and the
    integer side of arithmetic (checked `+ - *`, exact division, remainder).
  - `parser.rs`, `simd/` — the grammar and the parser, with the
    word-at-a-time scan for string terminators.
  - `emit.rs` — compact and pretty output.
  - `datetime.rs`, `duration_text.rs` — instants and durations.
  - `roundtrip.rs`, `pretty_roundtrip.rs`, `laws.rs` — properties that
    relate several operations.
  - `arena.rs`, `text.rs`, `sealed.rs` — arena calls, UTF-8 facts, the
    sealed index trait.
- `tests/` — tests of the library.
- `app/` — what the library leaves to its callers: the default float
  reader (`fast_float2`) and writer (`ryu`), the binary64 fallback of
  arithmetic, `Display`,
  chrono formatting and the serde and `serde_json::Value` bridges.
