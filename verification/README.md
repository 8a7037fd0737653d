# teum

A minimal, plain-text time tracker. Entries are lines such as

```
2030-01-07 09:00 - 11:00 | @focus #build !4 | prototype
```

kept in one file per ISO week (`YYYY-wWW.txt`).

The library under `src/` holds the logic, each function with a contract
proved by Verus: the entry format and its round trip (`interval`,
`round_trip`), week files and their rewriting (`datafile`, `rewrite`),
periods and calendar arithmetic (`period`, `calendar`), command decisions and
output (`commands`, `display`, `format`), the weekly report and the summary
(`report`, `summary`), the data checks (`doctor`), the mirrored runtime state
(`state`) and the configuration (`config`).

`app/` is the command-line program around it: argument parsing, the clock,
files and locks, the configuration file, git, and the charts of the HTML
report.

## Maps

Three maps of the program are vectors here, and Verus did not refuse the map
types themselves:

- The configuration's presets and report groups, and the summary's rows, are
  keyed by name. vstd states what a `HashMap` or `BTreeMap` holds only for
  keys whose hashing or ordering it models (the integer types, `bool`, and
  tuples of ordered types); for a `String` key it would have to be assumed,
  which this crate does not do. They are vectors whose keys are distinct,
  and the summary's rows are kept in name order.
- The weeks of the report are keyed by `(year, week)`, which vstd does
  order. They are kept as a vector sorted by that key because the report is
  that sorted sequence, and its contract is stated over it; no `BTreeMap`
  form was tried.
