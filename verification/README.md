# ninemm

Nine Men's Morris, solved: a retrograde solver for the movement phase, an
alpha-beta search for the placement phase, and the play, analysis and storage
around them. The library under `src/` is written in Verus: what its functions do
is stated in contracts, and proved but for the few outside calls named below.

## What is proved

- The rules: `movegen` lists exactly the legal moves, and the reverse moves undo
  exactly the quiet ones.
- The symmetries: `symmetry` and `orbit` show that the 16 symmetries of the board
  form a group that keeps moves, mills and values; `index` numbers positions up
  to symmetry and back.
- The values: `game` and `truth` say what a position is worth under best play on
  both sides. `retro` computes it by propagation from decided positions, `oracle`
  by scanning to a fixpoint, `verify` checks it position by position, and all
  three agree. `runs` says what a whole run over the pairs leaves on disk.
- The opening: `opening` finds the value of a placement state with a table of
  bounds that can be kept on disk (`opening_cache`). A search with a table is right
  as far as the table is.
- The rest: `persist`, `loading` and `orchestrate` for the value files, `play`,
  `session` and `server` for games and analyses.

A few calls into other crates are trusted: bit counting, string appending and
the byte order of the machine (`byte_order`) from the standard library, the
parallel map of `rayon` (`par`), memory maps
(`mapped`) and the XXH3 hash (`persist`). Each carries a comment that says what
is believed of it.

## Layout

- `src/`: the verified library.
- `tests/`: tests on concrete values.
- `app/`: the command line, files, HTTP and JSON.
