# fits-header

Reading, editing and writing the header of a FITS file, verified with Verus.

A header is an ordered list of 80-byte cards. Parsing retains every card, so untouched
cards (long-string runs included) serialize byte for byte; keyword access is strict (a
bare name must be unique, `(name, n)` selects the n-th occurrence); batch edits are all or
nothing; editing a file's header keeps everything after it unchanged.

## Layout

- `src/` — the verified library.
  - `header.rs`: `Header` and keyword access (`get`, `set`, `append`, `remove`,
    `set_many`, `remove_many`, ...), with the laws of keyword access.
  - `parse.rs`: reading cards into records, the law that a parsed header writes back
    byte for byte, and the law that only a string value card and its `CONTINUE` cards
    share one record.
  - `write.rs`: rendering records into cards (`CONTINUE`/`LONGSTRN` for long strings),
    and the law that a header block is whole cards, `END` on a card boundary, then spaces.
  - `roundtrip.rs`: the law that a written header reads back as the same records.
  - `region.rs`: locating a file's header region and replacing it while keeping the rest.
  - `record.rs`, `key.rs`, `value.rs`, `number.rs`, `dates.rs`, `error.rs`, `text.rs`:
    records, selectors, typed reads and writes, lenient integers, dates, errors, and byte
    helpers.
  - `whitespace.rs`: Unicode whitespace on characters, and the law that the byte-level
    trims agree with it on valid UTF-8.
- `tests/` — tests run against the compiled library.
- `app/` — what cannot be verified: file I/O (`read_from_file`, `update_file`,
  `write_to_file`), floating-point values, `serde`/`thiserror` copies of the types, and
  `time` conversions.

## Trusted code

Two calls are believed rather than proved: `String::from_utf8_lossy` (in `text.rs`) and
`skymath::parse_date_obs` (in `dates.rs`). Their contracts are written above them.
