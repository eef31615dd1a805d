# rpxlog_core

Reading the logs of a semiconductor tester: binary STDF files and the
tester's own text logs.

- `src/` is the library, verified with Verus.
  - `pattern` — a small backtracking matcher (leftmost, greedy and lazy runs)
    in which the text-log grammar is written.
  - `txt` — the `[Header]` section and the part blocks of a text log, turned
    into rows; selecting measured values by `name.signal`.
  - `txt_new` — the line-by-line reader's record of the text read so far.
  - `unit` — a number with its unit, and the power of ten the unit stands for.
  - `stdf` — record kinds and their summary, part counting, the selection of
    parametric test and datalog text records and their left join with the
    part results, and the YAML text of header records.
  - `path` — file stems split into fields, the format told by an extension,
    and directories picked by a regular expression.
  - `chars` — UTF-8 facts that let the library hand out slices of its input.
- `app/` opens files, converts `rust_stdf` records, computes the
  floating-point values and builds `polars` data frames.
- `tests/` runs the library on concrete inputs.
