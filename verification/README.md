# aoc_days

Advent of Code puzzle solutions — 2015 days 1, 5 and 6, 2021 day 2, 2023
day 1 and 2024 days 1 and 3 — written in Verus, so that the parsing, the
rules and the C-facing status codes of each day are stated as contracts
and proved.

- `src/` is the verified library: one module per day (`day_2015_12_01`,
  …), a shared `text` module for lines, tokens and decimal numbers, and
  `labs` for two byte-counting routines, and `encoding` for where a text's
  characters sit among its UTF-8 bytes. Each day holds its input grammar,
  its answers, the status function behind its C entry points, and the
  laws that hold across its functions (`law_*`).
- `tests/` exercises the library on the puzzle statements' examples and on
  the edge cases each day handles.
- `app/` is the program around the library: the `extern "C"` entry points,
  the bindings to the C libraries each day was also solved with (TinyCC,
  libcaca, vectorscan, ICU, YARA, espeak-ng, Chipmunk2D, DuckDB, qsort,
  a C++ sort and uthash), and `main`, which prints 2015-12-01's answers for
  `inputs/2015-12-01.txt`.
