# bpt

Binary puzzles (Takuzu / Binairo): a solver with a uniqueness proof, the
five composite types from binarypuzzle.com plus any layout a tag such as
`4x6x6in16` describes, and a generator that fills and carves puzzles of a
chosen difficulty. The library is written in Verus, and its contracts are
proved.

## Layout

- `src/` — the verified library.
  - `grid`, `region`, `compose`, `parse`: cells and grids, the rules per
    region, tags that describe their own layout, the line format.
  - `completion`, `strategy`: line completion and the six human
    strategies; every deduction is proved forced.
  - `search`, `event`, `replay`, `view`: the strategy ladder, the
    backtracking search, the event log, and the step-by-step viewer model
    with its key handling.
    Where the strategies alone end is a specification function of the
    givens, so levels, clashes and strategies-only outcomes are exact. A
    recorded log names only cells of the grid, and the log of a solve that
    stops at its first solution replays to that solution.
  - `geometry`, `error`, `inspect`: puzzle types as data, their structural
    validation, and the text map of a layout.
  - `rng`, `fill`, `carve`, `grade`, `batch`: seeded streams, filling an
    empty grid, carving clues while uniqueness and a difficulty ceiling
    hold (the carve is a function of the solution and the stream), and
    batches whose puzzles are rebuilt from their coordinates.
  - `output`, `text`: result lines, one per input line of a batch, and
    number and string formatting.
- `app/` — the `bpt` command line and terminal viewer: files, the
  terminal, the clock and the TOML geometry format.
- `tests/` — tests of the library.
