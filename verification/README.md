# criterion_table

Comparison tables from the benchmark results that Criterion reports, verified with Verus.

A benchmark's id names a table, a column and a row. The library puts each time in its place,
compares it with the first time in its row, works out how wide the columns have to be, and tells
a formatter what to write.

- `src/` is the verified library.
  - `raw`, `config`: the input, and how reading it goes on.
  - `float`, `time`, `text`: numbers by their bit patterns, times with their units, text.
  - `ordered`, `table`, `data`: the tables and how they are built.
  - `format`, `document`, `report`: how the tables are written out.
  - `progress`: what tables a sequence of results makes.
  - `contents`, `placement`, `soundness`, `remains`, `nesting`, `room`, `written`: what follows
    from that.
  - `rounding`, `duration`: what follows where division and multiplication round to a nearest
    number.
- `app/` reads JSON and TOML, and does the floating-point arithmetic.
- `tests/` runs the library.
