# namegen-convert

A converter between the two shapes in which name generators are usually
written, with checking and weighted sampling, verified with Verus.

- `.ngt` is a small text grammar meant to be edited by hand:

  ```
  !start name

  first = Anna, Beth:2, Clara
  last = Smith, Jones
  name = {first} {last}
  ```

- `.ngj` is the same document as JSON.

## Layout

- `src/` is the verified library.
  - `text.rs`: characters, trimming, splitting and numerals.
  - `model.rs`: the document model, placeholders and the checks that settle
    the start category and find undefined references.
  - `ngt.rs`, `json.rs`, `ngj.rs`: reading and writing of the two formats
    (JSON numbers are kept as the text they were written with; a weight is
    read from that text exactly).
  - `sample.rs`: the seeded splitmix64 generator and weighted expansion of
    the start category, bounded in depth; a category reached whose weights
    sum to 0 or past `u32::MAX` is reported as an error.
  - `cli.rs`: what the command line asks for, how issues are reported in
    strict and lenient mode, loading and rendering.
  - `ngt_roundtrip.rs`, `json_roundtrip.rs`, `ngj_roundtrip.rs`, `reload.rs`:
    the round-trip laws of the formats and of a whole conversion;
    `ngt_reading.rs` shows which documents read from `.ngt` text the text
    round trip covers.
- `app/main.rs` is the program: arguments, files and printing.
- `tests/` runs the library on concrete inputs.

## Usage

```
namegen-convert [--lenient] [--check] [--from ngt|ngj] [--to ngt|ngj] <input> <output>
namegen-convert sample [--lenient] [--from ngt|ngj] [--count N] [--seed N] <input>
```

Conversion is strict by default: an undefined start category, a placeholder
that names no category, a duplicate category or a document without a start
category stop it. `--lenient` turns those into warnings. `--check` reads and
checks the input and writes nothing; `--seed` makes sampling reproducible.
