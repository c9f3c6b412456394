# rdu

A tree-style disk usage viewer, verified with Verus.

- `src/` is the library, every function of it verified:
  - `format` turns byte counts into `512 B`, `1.5 KB`, ... with integer
    arithmetic that reproduces one-decimal rounding of a double division;
  - `entry` holds the size tree and the statistics over it;
  - `scan` holds the decisions of a scan (leaf entries, the depth limit,
    a listed directory's order and size) and a verified merge sort;
  - `paint` reaches the `colored` crate through small trusted wrappers;
  - `display` draws the tree;
  - `cli` holds the command-line options as plain values.
- `app/` is the program: argument parsing with `clap`, completions with
  `clap_complete`, the parallel file-system walk with `rayon`, printing.
- `tests/` runs the library on concrete values.
