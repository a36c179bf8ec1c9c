# moneymaker

Two self-balancing binary search trees over `u32` keys — an AVL tree and a
red-black tree — and a small prefix command language that drives either of
them, all verified with Verus. An interactive terminal program and a benchmark
sit on top.

## Layout

- `src/avl.rs` — the AVL tree. Contracts state the key set (`@`), the AVL
  invariant (`wf`: search order, cached heights, balance factors in −1..1) and
  the exact tree an insert or delete leaves (`avl_insert`, `avl_delete`).
- `src/rbt.rs` — the red-black tree, with the textbook insert and delete
  repairs. Contracts state the key set, the colour rules (`wf`) and the exact
  tree an insert or delete leaves (`rb_inserted`, `rb_deleted`).
- `src/draw.rs` — rows of a tree drawing (key, balance factor or colour, path).
- `src/lang/` — the command language: `tokens` (lexer), `parser`, `ast`,
  `exec` (running a line against any `TreeOps` tree), `error`, and `laws`.
  The meaning of a line is the specification function `line_spec`; `run_line`
  is proved to produce exactly its result, tree and events for the clock
  readings that seeded its `rand` generators.
- `src/menu.rs` — the one-command menu (`i 42`, `d 7`, `s 3`, `l`, `h`, `e`,
  `o`, `p`, `b`): `parse_u32` reads a number as `str::trim` and `u32::from_str`
  do, and `menu_step` is proved to report and change exactly what `menu_spec`
  says.
- `app/` — line reading, terminal rendering, and the timing benchmark.
- `tests/` — scenario tests, including long random runs checked against the
  exact shapes the textbook algorithms produce.

## Laws

Public proof functions named `law_*` state properties across operations: sorted
in-order listings, logarithmic height, the balance and colour rules, no path
more than twice as long as another, the range and count of `rand` values, the
progression of `rang` values, in-order running of statements, that a rejected
line changes nothing, and that lexing two lines joined by a space gives their
tokens in order.
