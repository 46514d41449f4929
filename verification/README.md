# dynars

A verified library for the files around LS-DYNA: state databases (`d3plot`,
`intfor`), time-history databases (LSDA, `binout`), and keyword decks.

Verus proves that the functions of the library keep their contracts. Eleven short
wrappers around functions of the standard library and of other crates are not proved:
Verus takes their contracts as they stand, and each says in its comment what it claims.
One of them, `thread_count`, claims nothing.
Numbers that the files hold in floating point are bit patterns here; `ieee` says
what it means to compare, widen or narrow them.

## Layout

- `src/d3plot` reads, writes and edits state databases. `control` and `header`
  give the control block and the sizes that follow from it, `reader` the states of
  a family of files, `query`, `mesh` and `extract` what is in them. `writer`,
  `validate` and `image` build a database, `intfor` one of interface forces, and
  `editor` overwrites blocks. `layout`, `roundtrip`, `recovery`, `mesh_law`,
  `intfor_law`, `editor_law` and `part_law` prove what a reader makes of what was
  written, `precision_law` that double precision holds what single precision holds.
- `src/lsda` reads a family of LSDA files into a tree of datasets (`diskfile`,
  `table`, `arena`, `tree`, `symbol`, `binout`), edits such a tree (`edit`, `graft`,
  `load`, `reopen`) and writes it (`write`). `roundtrip` and `reopen` prove that
  what was written is read back, with names that `naming` tests; `chain_law` that only circular symbol tables
  are refused; `walk_law` what walking through directories does to a tree.
- `src/deck` parses keyword blocks into tables by a schema.
- `src/validate` checks decks against rules.
- `src/element`, `src/signal`, `src/injury` reduce results to those of parts and
  channels, as far as that needs order alone.
- `src/testgen` makes decks to measure with.
- `app` reads and writes the files, and holds the floating-point arithmetic.
