# game_solver

A retrograde-analysis engine that strongly solves small, finite,
perfect-information two-player games, written in Verus: every solver and every
game's rules carry contracts, and the contracts are proved.

## Layout

- `src/lib.rs` — the `Game` trait (a densely indexed game), the queue solver
  `solve`, the `Tablebase` and `probe`.
- `src/retrograde.rs` — the game-theoretic value of a node of a finite game
  graph (`game_value`), and the reverse-edge sweep every solver shares.
- `src/dense_solve.rs` — the memory-frugal fixpoint solver and its 2-bit packing.
- `src/reachable.rs` — the `RulesGame` trait (a game given by its rules only)
  and the forward-discovery solver `solve_reachable`.
- `src/index.rs` — the combinatorial number system behind the morris index.
- `src/slices.rs` — exact slice sizes for scoping a morris solve, and
  `src/decimal.rs` — counts written out with thousands separators.
- `src/games/` — tic-tac-toe, three men's morris, six men's morris (bitmask and
  cell-array rules), the ring-built morris family with its dense index and
  symmetry group and the size of its index, Y, opening helpers, and the checks
  and tablebase packing built on them.
- `app/main.rs` — the command-line drivers: solve, print, write files.

## What is proved

- Each solver returns, for every position, the value that `game_value` defines:
  a win when some move reaches a lost position, a loss when there is a move and
  every move reaches a won position, otherwise a draw.
- The queue solver, the fixpoint solver and the forward solver agree wherever
  their positions meet (for the morris family, on every reachable position).
- The morris dense index is a bijection from the valid positions onto
  `0..num_states`, with `num_states` the sum of the bucket sizes; it orders
  positions by their counts (side to move, men in hand, men on the board), and
  is built for any board whose index fits the machine words it is kept in; the
  combinatorial ranks are bijections.
- The ring-built boards have symmetric, loop-free adjacency, three-point mills
  and sixteen symmetries, the identity first.
- Each solver's answers obey the rules move by move, its wins and losses are
  the least sets closed under the rules, and the fixpoint solver's
  progress reports count down the undecided positions round by round.
- The ring-built board's symmetry list is exactly the sixteen symmetries, each
  an automorphism of the board; `canon` picks one position per orbit.
- On two rings the family's rules are exactly six men's morris, on every
  position.
