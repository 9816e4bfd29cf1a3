# puzzle_sim

Compiles permutation puzzles (such as the Rubik's cube) into lookup tables and
simulates many puzzle states at once by table lookups. The library is written
in Verus; its functions carry contracts that Verus proves.

A puzzle is given by its moves, the state of each piece when solved, and the
start state of an automaton that decides which move may follow which. The
compiler searches, for each piece, the states it can reach; pieces that reach
the same states form an orbit. Each move becomes, for every piece, a table from
the index of a state in the piece's orbit to the index of the state the move
leads to. The automaton becomes two tables: for each automaton state, the moves
allowed there and the states they lead to.

Sets (the states a search has found, the automaton's states, a puzzle's moves)
are vectors without repeats; a loaded puzzle keeps its moves distinct as an
invariant, and items are found again by their first position.

## Layout

- `src/defs.rs`: the shared types (`PuzzleDefinition`, `OrbitDefinition`,
  `CompiledPuzzleDefinition`) and the traits `Move` and `DfaEvaluator` by which
  a puzzle gives its moves and its automaton.
- `src/reach.rs`: breadth-first search stated over sequences, and its laws
  (what a finished search finds, and when it ends).
- `src/grouping.rs`: grouping indices by key, and laying groups out in a row.
- `src/compiler.rs`: encoding and decoding piece states, the orbit search,
  move and automaton tables, and `CompiledPuzzleDefinition::try_from`.
- `src/sim.rs`: loading a compiled puzzle and applying moves to many states.
- `src/puzzles/rubik.rs`: the Rubik's cube of any size.
- `tests/`: tests on concrete values.
- `app/lib.rs`: copies of the library's types with serde and thiserror derives,
  with conversions both ways.
