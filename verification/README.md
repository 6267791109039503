# csv

A small CSV toolkit whose behaviour is stated in contracts and proved with
Verus, together with six regression properties over it and the runner that
exercises them with property-testing frameworks.

## Layout

- `src/byte_record.rs` — `ByteRecord`: fields in one buffer with end offsets;
  its view is the sequence of fields. Equality, trimming, construction.
- `src/core_reader.rs` — the streaming parser (`CoreReader`): a byte-level
  state machine (`dfa_step`), its run over input (`run`, `run_bounded`) and
  the exact outcome of one `read_record` call (`read_outcome`).
- `src/grammar.rs` — what the parser makes of field texts: plain and quoted
  fields, joined by delimiters and closed by a terminator.
- `src/reader.rs` — `Reader` over bytes in memory: header record, trimming,
  field-count checks; `spec_read_byte_record` says what each read returns.
- `src/writer.rs` — `Writer` into a `Vec<u8>`: quoting rules, escapes,
  terminators, field-count checks.
- `src/round_trip.rs` — the law that a reader gives back what a writer wrote.
- `src/deserializer.rs` — reading a record into a row by header names or by
  position; text fields must be UTF-8, the byte field is taken as it is.
- `src/etna.rs` — the six properties, each with a contract that says when it
  passes and when it discards.
- `src/report.rs` — verdicts, run metrics and the JSON line a run reports,
  with the law that a JSON string it writes reads back as its text.
- `tests/` — the frozen witness inputs and concrete cases for every part.
- `app/main.rs` — the command-line runner: draws inputs with proptest,
  quickcheck, crabcheck or hegel, or replays the witnesses, and prints the
  JSON line; `faultloc` runs crabcheck with mutating generators and prints
  its report.
