# disk-scout

A read-only disk scanner: it walks a directory tree, reports the largest
files and directories, and counts what it saw. The library in `src/` is
verified with Verus; `app/` holds the program around it (command line,
file-system walk, printing, the Windows GUI form).

Library modules:

- `size`: reading sizes such as `4096`, `1KiB`, `2 mb` (`size_spec` states the
  result for every input); `size_laws` proves properties of it (plain numbers
  below 2^53 are bytes, units ignore case, `1KiB` reads as `1 KiB`, whole units
  scale).
- `decimal`: numbers as Rust's `f64` parser reads them and the exact effect of
  the float arithmetic on a size (rounding to `f64`, scaling, rounding to bytes),
  computed with decimal big numbers from `bignum`.
- `output`: byte counts for people (`format_bytes_spec`) and the output format.
- `ignore`: glob patterns (`*`, `?`), ignore-file rules, the matcher.
- `topn`: the bounded selection of the largest entries and the report order.
- `scanner`: the scan state fed by the walk, one event at a time.
- `report`: the text and JSON reports.
- `cli`, `plan`: the command line and the scan parameters as plain data.
