# universe

A verified library for the UNIV binary container format: file header with extension
entries, chunk frames (compression, data transforms, content hashes, CRC-32C), the table of
contents and its footer, canonical CBOR encoding and content hashing, content-addressed
references with cycle detection, and the security limits applied when reading.

Layout:

- `src/` — the library, written in Verus. Each public function states what it returns in
  its `ensures`; the round-trip and read-after-write laws of the format are public proof
  functions (`lemma_*`). Calls into compression, hashing, CBOR and parallel iteration
  crates go through small trusted wrappers whose doc comments say what is assumed of them.
- `tests/` — the test suite, run against the compiled library.
- `app/` — the `cil` command-line tool: argument parsing, file and directory I/O, printing
  and the floating-point ratios it displays. The containers its commands build and the
  checks they make on input files are functions of `src/tool.rs`.
