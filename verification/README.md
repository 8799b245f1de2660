# plog

Decodes hex-encoded packets found in log files, and binary files, with schemas
in a part of the Kaitai Struct language that are interpreted at run time.

- `src/` is the library. Every function states its behaviour in `requires` and
  `ensures`, and Verus proves it. What is taken on trust are the contracts of
  the calls into `std`, `indexmap`, `regex` and `serde_yaml`; they stand beside
  the code that makes them (`text.rs`, `index.rs`, `extractor.rs`,
  `ksy/yaml.rs`).
- `tests/` runs the library on concrete input.
- `app/` holds the two programs, `plog` and `plog-gui`: they read files, run
  threads, draw windows and print.

The way of a packet: `extractor` finds the payload in a line, `hex` turns it
into bytes, `decoder` decodes these with a schema (`ksy`), and `cli` and `gui`
show the result. `pipeline` puts the steps together.

Floating-point numbers are held as IEEE 754 bit patterns. Functions that render
values take a list of their texts (`render::FloatText`); `floats` on a value, an
error or an event says which texts are needed.

Data on which decoding could not come to an end, a type inside itself or a
repeated item that takes no bytes, is answered with an error.

## Usage

```sh
plog <FILE> --ksy <KSY_FILE> [--pattern <REGEX>] [--mode auto|line|whole|binary] [--watch]
```

- `--mode auto` (the default) finds out whether the file is text or binary.
- Text is analyzed line by line (`line`, one packet for each line with a match;
  `--watch` follows the file) or as a whole (`whole`, all the matches make one
  packet).
- Binary files (`binary`) are decoded as they are.
