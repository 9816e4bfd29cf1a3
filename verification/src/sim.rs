//! Simulation of compiled puzzles: many puzzle states at once, each a row
//! of compiled piece states, moved by table lookups.

use std::fmt::Debug;
use vstd::prelude::*;

use crate::compiler::{compiled_from, decompile_state, index_of, lemma_compiled_move_is_move};
use crate::defs::{
    eq_by_view, first_index, lemma_first_index, lemma_i32_clone, views, CompiledPuzzleDefinition,
    DfaEvaluator, Move, OrbitDefinition,
};

verus! {

/// Errors of the simulator.
#[derive(Debug)]
pub enum SimError<U> {
    /// A move that the puzzle does not have.
    MoveNotFound(U),
}

/// Each of `nested_vec`, cut or padded with `pad_value` to `pad_size`
/// elements.
pub fn pad_nested_vec<T: Clone>(nested_vec: Vec<Vec<T>>, pad_value: T, pad_size: usize) -> (r: Vec<
    Vec<T>,
>)
    ensures
        r@.len() == nested_vec@.len(),
        forall|i: int| 0 <= i < r@.len() ==> #[trigger] r@[i]@.len() == pad_size,
        forall|i: int, j: int|
            0 <= i < r@.len() && 0 <= j < pad_size && j < nested_vec@[i]@.len() ==> #[trigger] r@[i]@[j]
                == nested_vec@[i]@[j],
        forall|i: int, j: int|
            0 <= i < r@.len() && nested_vec@[i]@.len() <= j < pad_size ==> padding_of(
                pad_value,
                #[trigger] r@[i]@[j],
            ),
{
    let ghost original = nested_vec@;
    let mut rows = nested_vec;
    let mut padded_vec: Vec<Vec<T>> = Vec::new();
    let mut i: usize = 0;
    while i < rows.len()
        invariant
            rows@.len() == original.len(),
            i <= original.len(),
            forall|k: int| i <= k < original.len() ==> #[trigger] rows@[k] == original[k],
            padded_vec@.len() == i,
            forall|k: int| 0 <= k < i ==> #[trigger] padded_vec@[k]@.len() == pad_size,
            forall|k: int, j: int|
                0 <= k < i && 0 <= j < pad_size && j < original[k]@.len() ==> #[trigger] padded_vec@[k]@[j]
                    == original[k]@[j],
            forall|k: int, j: int|
                0 <= k < i && original[k]@.len() <= j < pad_size ==> padding_of(
                    pad_value,
                    #[trigger] padded_vec@[k]@[j],
                ),
        decreases original.len() - i,
    {
        let mut vec: Vec<T> = Vec::new();
        std::mem::swap(&mut vec, &mut rows[i]);
        assert(vec == original[i as int]);
        let value = pad_value.clone();
        assert(cloned::<T>(pad_value, value));
        let ghost before = vec@;
        vec.resize(pad_size, value);
        assert forall|j: int| before.len() <= j < pad_size implies #[trigger] padding_of(pad_value, vec@[j]) by {
            assert(cloned::<T>(value, vec@[j]));
        }
        padded_vec.push(vec);
        i += 1;
    }
    padded_vec
}

/// `x` is a clone of a clone of `pad_value`.
pub open spec fn padding_of<T: Clone>(pad_value: T, x: T) -> bool {
    exists|c: T| cloned::<T>(pad_value, c) && cloned::<T>(c, x)
}

/// Padding with an `i32` gives that `i32`.
proof fn lemma_i32_padding()
    ensures
        forall|p: i32, x: i32| #[trigger] padding_of(p, x) ==> x == p,
{
    lemma_i32_clone();
    assert forall|p: i32, x: i32| #[trigger] padding_of(p, x) implies x == p by {
        let c = choose|c: i32| cloned::<i32>(p, c) && cloned::<i32>(c, x);
    }
}

/// `loaded` is `compiled` loaded: the same moves, orbits, maps and solved
/// state; each move's tables padded with -1 to the size of the largest
/// orbit; the automaton tables cut or padded with -1 to the number of moves.
pub open spec fn loaded_from<T, U: View>(loaded: LoadedPuzzleDefinition<T, U>, compiled: CompiledPuzzleDefinition<T, U>) -> bool {
    &&& loaded.spec_num_pieces() == compiled.num_pieces()
    &&& loaded.spec_max_len() == max_orbit_size(compiled.orbits@)
    &&& loaded.spec_move_map() == compiled.moves@
    &&& loaded.spec_orbits() == compiled.orbits@
    &&& loaded.spec_piece_orbit_map() == compiled.piece_orbit_map@
    &&& loaded.spec_piece_index_map() == compiled.piece_index_map@
    &&& loaded.spec_solved() == compiled.solved_state@
    &&& forall|m: int, k: int|
        0 <= m < compiled.moves@.len() && 0 <= k < compiled.num_pieces() ==> {
            &&& #[trigger] loaded.spec_table(m, k).len() == max_orbit_size(compiled.orbits@)
            &&& forall|v: int|
                0 <= v < loaded.spec_table(m, k).len() ==> #[trigger] loaded.spec_table(m, k)[v] == if v
                    < compiled.compiled_moves@[m]@[k]@.len() {
                    compiled.compiled_moves@[m]@[k]@[v]
                } else {
                    -1i32
                }
        }
    &&& loaded.spec_allowed_moves().len() == compiled.allowed_moves@.len()
    &&& forall|d: int|
        0 <= d < loaded.spec_allowed_moves().len() ==> #[trigger] loaded.spec_allowed_moves()[d].len()
            == compiled.moves@.len() && forall|j: int|
            0 <= j < compiled.moves@.len() ==> loaded.spec_allowed_moves()[d][j] == if j
                < compiled.allowed_moves@[d]@.len() {
                compiled.allowed_moves@[d]@[j]
            } else {
                -1i32
            }
    &&& loaded.spec_next_dfa_states().len() == compiled.next_dfa_states@.len()
    &&& forall|d: int|
        0 <= d < loaded.spec_next_dfa_states().len() ==> #[trigger] loaded.spec_next_dfa_states()[d].len()
            == compiled.moves@.len() && forall|j: int|
            0 <= j < compiled.moves@.len() ==> loaded.spec_next_dfa_states()[d][j] == if j
                < compiled.next_dfa_states@[d]@.len() {
                compiled.next_dfa_states@[d]@[j]
            } else {
                -1i32
            }
}

/// The largest number of states of an orbit, or 0 where there is none.
pub open spec fn max_orbit_size<T>(orbits: Seq<OrbitDefinition<T>>) -> nat
    decreases orbits.len(),
{
    if orbits.len() == 0 {
        0
    } else {
        let rest = max_orbit_size(orbits.drop_last());
        if orbits.last().states@.len() > rest {
            orbits.last().states@.len()
        } else {
            rest
        }
    }
}

proof fn lemma_max_orbit_size<T>(orbits: Seq<OrbitDefinition<T>>)
    ensures
        forall|o: int| 0 <= o < orbits.len() ==> #[trigger] orbits[o].states@.len() <= max_orbit_size(orbits),
    decreases orbits.len(),
{
    if orbits.len() > 0 {
        lemma_max_orbit_size(orbits.drop_last());
        assert forall|o: int| 0 <= o < orbits.len() implies #[trigger] orbits[o].states@.len() <= max_orbit_size(orbits) by {
            if o < orbits.len() - 1 {
                assert(orbits.drop_last()[o] == orbits[o]);
            }
        }
    }
}

/// A compiled puzzle made ready for simulation: the tables of each move,
/// each padded with -1 to the size of the largest orbit, and the automaton
/// tables, each row padded with -1 to the number of moves.
pub struct LoadedPuzzleDefinition<T, U: View> {
    num_moves: usize,
    num_pieces: usize,
    max_states_len: usize,
    moves: Vec<Vec<Vec<i32>>>,
    move_map: Vec<U>,
    orbits: Vec<OrbitDefinition<T>>,
    piece_orbit_map: Vec<i32>,
    piece_index_map: Vec<i32>,
    solved_state: Vec<i32>,
    allowed_moves: Vec<Vec<i32>>,
    next_dfa_states: Vec<Vec<i32>>,
}

impl<T, U: View> LoadedPuzzleDefinition<T, U> {
    /// The number of pieces.
    pub closed spec fn spec_num_pieces(&self) -> nat {
        self.num_pieces as nat
    }

    /// The length of every padded table: the size of the largest orbit.
    pub closed spec fn spec_max_len(&self) -> nat {
        self.max_states_len as nat
    }

    /// The moves, in the order of their tables.
    pub closed spec fn spec_move_map(&self) -> Seq<U> {
        self.move_map@
    }

    /// The padded table of move `m` at compiled index `k`.
    pub closed spec fn spec_table(&self, m: int, k: int) -> Seq<i32> {
        self.moves@[m]@[k]@
    }

    /// The compiled solved state.
    pub closed spec fn spec_solved(&self) -> Seq<i32> {
        self.solved_state@
    }

    /// The orbits.
    pub closed spec fn spec_orbits(&self) -> Seq<OrbitDefinition<T>> {
        self.orbits@
    }

    /// For each piece, the index of its orbit.
    pub closed spec fn spec_piece_orbit_map(&self) -> Seq<i32> {
        self.piece_orbit_map@
    }

    /// For each piece, its compiled index.
    pub closed spec fn spec_piece_index_map(&self) -> Seq<i32> {
        self.piece_index_map@
    }

    /// The padded automaton tables.
    pub closed spec fn spec_allowed_moves(&self) -> Seq<Seq<i32>> {
        self.allowed_moves@.map_values(|v: Vec<i32>| v@)
    }

    /// The padded automaton tables.
    pub closed spec fn spec_next_dfa_states(&self) -> Seq<Seq<i32>> {
        self.next_dfa_states@.map_values(|v: Vec<i32>| v@)
    }

    /// The number of states of the orbit whose tables compiled index `k`
    /// holds: that of piece `piece_index_map[k]`.
    pub open spec fn spec_row_size(&self, k: int) -> int {
        self.spec_orbits()[self.spec_piece_orbit_map()[self.spec_piece_index_map()[k] as int] as int].states@.len() as int
    }

    /// A puzzle state that can be moved: a compiled state for each compiled
    /// index, each an index within the padded tables.
    pub open spec fn in_range(&self, row: Seq<i32>) -> bool {
        &&& row.len() == self.spec_num_pieces()
        &&& forall|k: int| 0 <= k < row.len() ==> 0 <= #[trigger] row[k] < self.spec_max_len()
    }

    /// A valid puzzle state: a compiled state for each compiled index, within
    /// the states of the orbit whose tables the index holds.
    pub open spec fn valid_row(&self, row: Seq<i32>) -> bool {
        &&& row.len() == self.spec_num_pieces()
        &&& forall|k: int| 0 <= k < row.len() ==> 0 <= #[trigger] row[k] < self.spec_row_size(k)
    }

    /// The tables keep valid states valid: the maps are in range, every
    /// compiled index's orbit fits the padded tables, every table maps the
    /// states of its orbit to states of it, and the solved state is valid.
    pub open spec fn tables_closed(&self) -> bool {
        &&& self.spec_piece_index_map().len() == self.spec_num_pieces()
        &&& self.spec_piece_orbit_map().len() == self.spec_num_pieces()
        &&& forall|k: int|
            0 <= k < self.spec_num_pieces() ==> 0 <= #[trigger] self.spec_piece_index_map()[k]
                < self.spec_num_pieces()
        &&& forall|i: int|
            0 <= i < self.spec_num_pieces() ==> 0 <= #[trigger] self.spec_piece_orbit_map()[i]
                < self.spec_orbits().len()
        &&& forall|k: int| 0 <= k < self.spec_num_pieces() ==> #[trigger] self.spec_row_size(k) <= self.spec_max_len()
        &&& forall|m: int, k: int, v: int|
            0 <= m < self.spec_move_map().len() && 0 <= k < self.spec_num_pieces() && 0 <= v
                < self.spec_row_size(k) ==> 0 <= #[trigger] self.spec_table(m, k)[v] < self.spec_row_size(k)
        &&& self.valid_row(self.spec_solved())
    }

    /// The state stored at each piece's compiled index can be read back as
    /// a state of the piece's orbit, for every valid puzzle state.
    pub open spec fn decodable(&self) -> bool {
        forall|i: int|
            0 <= i < self.spec_num_pieces() ==> self.spec_row_size(#[trigger] self.spec_piece_index_map()[i] as int)
                <= self.spec_orbits()[self.spec_piece_orbit_map()[i] as int].states@.len()
    }

    /// A puzzle state that can be read back: for each piece, its compiled
    /// index and its orbit are in range, and the compiled state at that
    /// index numbers a state of that orbit.
    pub open spec fn decodable_row(&self, row: Seq<i32>) -> bool {
        &&& row.len() == self.spec_num_pieces()
        &&& self.spec_piece_index_map().len() == self.spec_num_pieces()
        &&& self.spec_piece_orbit_map().len() >= self.spec_num_pieces()
        &&& forall|i: int|
            0 <= i < self.spec_num_pieces() ==> {
                &&& 0 <= #[trigger] self.spec_piece_index_map()[i] < self.spec_num_pieces()
                &&& 0 <= self.spec_piece_orbit_map()[i] < self.spec_orbits().len()
                &&& 0 <= row[self.spec_piece_index_map()[i] as int]
                    < self.spec_orbits()[self.spec_piece_orbit_map()[i] as int].states@.len()
            }
    }

    #[verifier::type_invariant]
    closed spec fn wf(self) -> bool {
        &&& self.num_moves == self.moves@.len()
        &&& self.num_moves == self.move_map@.len()
        &&& views(self.move_map@).no_duplicates()
        &&& self.num_pieces == self.solved_state@.len()
        &&& forall|m: int| 0 <= m < self.num_moves ==> #[trigger] self.moves@[m]@.len() == self.num_pieces
        &&& forall|m: int, k: int|
            0 <= m < self.num_moves && 0 <= k < self.num_pieces ==> #[trigger] self.moves@[m]@[k]@.len()
                == self.max_states_len
    }

    /// Loads a compiled puzzle: its moves all different, one table of each
    /// move for each piece, and (where there are moves) a row of next
    /// automaton states for each row of allowed moves.
    pub fn load(puzzle_def: CompiledPuzzleDefinition<T, U>) -> (r: Self)
        requires
            views(puzzle_def.moves@).no_duplicates(),
            puzzle_def.compiled_moves@.len() == puzzle_def.moves@.len(),
            forall|m: int|
                0 <= m < puzzle_def.compiled_moves@.len() ==> #[trigger] puzzle_def.compiled_moves@[m]@.len()
                    == puzzle_def.solved_state@.len(),
            puzzle_def.moves@.len() > 0 ==> puzzle_def.allowed_moves@.len()
                == puzzle_def.next_dfa_states@.len(),
        ensures
            loaded_from(r, puzzle_def),
    {
        proof {
            lemma_i32_padding();
        }
        let num_moves = puzzle_def.moves.len();
        let num_pieces = puzzle_def.solved_state.len();
        let mut max_states_len: usize = 0;
        let mut o: usize = 0;
        while o < puzzle_def.orbits.len()
            invariant
                o <= puzzle_def.orbits@.len(),
                max_states_len == max_orbit_size(puzzle_def.orbits@.take(o as int)),
            decreases puzzle_def.orbits@.len() - o,
        {
            assert(puzzle_def.orbits@.take(o + 1).drop_last() =~= puzzle_def.orbits@.take(o as int));
            if puzzle_def.orbits[o].states.len() > max_states_len {
                max_states_len = puzzle_def.orbits[o].states.len();
            }
            o += 1;
        }
        assert(puzzle_def.orbits@.take(puzzle_def.orbits@.len() as int) =~= puzzle_def.orbits@);
        let ghost compiled = puzzle_def;
        let CompiledPuzzleDefinition {
            moves,
            compiled_moves,
            orbits,
            piece_orbit_map,
            piece_index_map,
            solved_state,
            allowed_moves,
            next_dfa_states,
        } = puzzle_def;
        let mut compiled_moves = compiled_moves;
        let mut padded_transforms: Vec<Vec<Vec<i32>>> = Vec::new();
        let mut m: usize = 0;
        while m < compiled_moves.len()
            invariant
                forall|p: i32, x: i32| #[trigger] padding_of(p, x) ==> x == p,
                compiled_moves@.len() == compiled.compiled_moves@.len(),
                forall|a: int|
                    0 <= a < compiled.compiled_moves@.len() ==> #[trigger] compiled.compiled_moves@[a]@.len()
                        == compiled.num_pieces(),
                m <= compiled_moves@.len(),
                forall|a: int| m <= a < compiled_moves@.len() ==> #[trigger] compiled_moves@[a] == compiled.compiled_moves@[a],
                padded_transforms@.len() == m,
                forall|a: int| 0 <= a < m ==> #[trigger] padded_transforms@[a]@.len() == compiled.num_pieces(),
                forall|a: int, k: int|
                    0 <= a < m && 0 <= k < compiled.num_pieces() ==> {
                        &&& #[trigger] padded_transforms@[a]@[k]@.len() == max_states_len
                        &&& forall|v: int|
                            0 <= v < max_states_len ==> #[trigger] padded_transforms@[a]@[k]@[v] == if v
                                < compiled.compiled_moves@[a]@[k]@.len() {
                                compiled.compiled_moves@[a]@[k]@[v]
                            } else {
                                -1i32
                            }
                    },
            decreases compiled_moves@.len() - m,
        {
            let mut move_: Vec<Vec<i32>> = Vec::new();
            std::mem::swap(&mut move_, &mut compiled_moves[m]);
            let ghost source = move_@;
            assert(source == compiled.compiled_moves@[m as int]@);
            let padded = pad_nested_vec(move_, -1, max_states_len);
            assert forall|k: int| 0 <= k < compiled.num_pieces() implies {
                &&& #[trigger] padded@[k]@.len() == max_states_len
                &&& forall|v: int|
                    0 <= v < max_states_len ==> #[trigger] padded@[k]@[v] == if v
                        < compiled.compiled_moves@[m as int]@[k]@.len() {
                        compiled.compiled_moves@[m as int]@[k]@[v]
                    } else {
                        -1i32
                    }
            } by {
                assert forall|v: int| 0 <= v < max_states_len implies #[trigger] padded@[k]@[v] == if v
                    < compiled.compiled_moves@[m as int]@[k]@.len() {
                    compiled.compiled_moves@[m as int]@[k]@[v]
                } else {
                    -1i32
                } by {
                    assert(source[k] == compiled.compiled_moves@[m as int]@[k]);
                }
            }
            padded_transforms.push(padded);
            m += 1;
        }
        let padded_allowed_moves = pad_nested_vec(allowed_moves, -1, num_moves);
        let padded_next_dfa_states = pad_nested_vec(next_dfa_states, -1, num_moves);
        let loaded = LoadedPuzzleDefinition {
            num_moves,
            num_pieces,
            max_states_len,
            moves: padded_transforms,
            move_map: moves,
            orbits,
            piece_orbit_map,
            piece_index_map,
            solved_state,
            allowed_moves: padded_allowed_moves,
            next_dfa_states: padded_next_dfa_states,
        };
        loaded
    }
}

/// A puzzle state after move `m`: at each compiled index, the table of the
/// move looked up at the state there.
pub open spec fn moved_row<T, U: View>(puzzle: LoadedPuzzleDefinition<T, U>, m: int, row: Seq<i32>) -> Seq<
    i32,
> {
    Seq::new(row.len(), |k: int| puzzle.spec_table(m, k)[row[k] as int])
}

/// Each of `rows` after each of the moves `indices`: the rows of the first
/// state after each move, then those of the second state, and so on.
pub open spec fn moved_rows<T, U: View>(
    puzzle: LoadedPuzzleDefinition<T, U>,
    rows: Seq<Seq<i32>>,
    indices: Seq<int>,
) -> Seq<Seq<i32>>
    decreases rows.len(),
{
    if rows.len() == 0 {
        seq![]
    } else {
        moved_rows(puzzle, rows.drop_last(), indices) + indices.map_values(
            |m: int| moved_row(puzzle, m, rows.last()),
        )
    }
}

/// The position of the first move whose view is that of `key`.
pub open spec fn move_index<U: View>(move_map: Seq<U>, key: U::V) -> int {
    first_index(views(move_map), key)
}

/// Law: where the puzzle's moves all differ, each is found at its own
/// position, so applying all moves is applying the list of the puzzle's
/// moves, in order.
pub proof fn lemma_all_moves_in_order<U: View>(move_map: Seq<U>)
    requires
        views(move_map).no_duplicates(),
    ensures
        Seq::new(move_map.len(), |j: int| move_index(move_map, move_map[j]@)) == Seq::new(
            move_map.len(),
            |j: int| j,
        ),
{
    let vs = views(move_map);
    assert forall|j: int| 0 <= j < move_map.len() implies #[trigger] move_index(move_map, move_map[j]@)
        == j by {
        assert(vs[j] == move_map[j]@);
        lemma_first_index(vs, vs[j]);
    }
    assert(Seq::new(move_map.len(), |j: int| move_index(move_map, move_map[j]@)) =~= Seq::new(
        move_map.len(),
        |j: int| j,
    ));
}

/// Law: after moves `indices`, the state at `n * indices.len() + k` is
/// state `n` after move `indices[k]`.
pub proof fn lemma_moved_rows_index<T, U: View>(
    puzzle: LoadedPuzzleDefinition<T, U>,
    rows: Seq<Seq<i32>>,
    indices: Seq<int>,
    n: int,
    k: int,
)
    requires
        0 <= n < rows.len(),
        0 <= k < indices.len(),
    ensures
        moved_rows(puzzle, rows, indices).len() == rows.len() * indices.len(),
        n * indices.len() + k < rows.len() * indices.len(),
        moved_rows(puzzle, rows, indices)[n * indices.len() + k] == moved_row(
            puzzle,
            indices[k],
            rows[n],
        ),
    decreases rows.len(),
{
    let len = indices.len() as int;
    lemma_moved_rows_len(puzzle, rows, indices);
    let last = rows.len() - 1;
    assert(n * len + k < rows.len() * len) by (nonlinear_arith)
        requires
            0 <= n < rows.len(),
            0 <= k < len,
    ;
    if n < last {
        lemma_moved_rows_index(puzzle, rows.drop_last(), indices, n, k);
        lemma_moved_rows_len(puzzle, rows.drop_last(), indices);
        assert(rows.drop_last()[n] == rows[n]);
    } else {
        lemma_moved_rows_len(puzzle, rows.drop_last(), indices);
        assert(last * len == (rows.len() - 1) * len);
        assert((rows.len() - 1) * len == rows.len() * len - len) by (nonlinear_arith);
    }
}

proof fn lemma_moved_rows_len<T, U: View>(
    puzzle: LoadedPuzzleDefinition<T, U>,
    rows: Seq<Seq<i32>>,
    indices: Seq<int>,
)
    ensures
        moved_rows(puzzle, rows, indices).len() == rows.len() * indices.len(),
    decreases rows.len(),
{
    if rows.len() > 0 {
        lemma_moved_rows_len(puzzle, rows.drop_last(), indices);
        assert((rows.len() - 1) * indices.len() + indices.len() == rows.len() * indices.len())
            by (nonlinear_arith);
    }
}

/// Puzzle states of a loaded puzzle, each a compiled state per compiled
/// index.
pub struct PuzzleStates<'a, T, U: View> {
    num_states: usize,
    states: Vec<Vec<i32>>,
    loaded_puzzle: &'a LoadedPuzzleDefinition<T, U>,
}

/// A single puzzle state of a loaded puzzle.
pub struct PuzzleState<'a, T, U: View>(PuzzleStates<'a, T, U>);

impl<'a, T, U: View> PuzzleStates<'a, T, U> {
    #[verifier::type_invariant]
    closed spec fn wf(self) -> bool {
        &&& self.states@.len() == self.num_states
        &&& forall|n: int|
            0 <= n < self.num_states ==> #[trigger] self.states@[n]@.len() == self.loaded_puzzle.spec_num_pieces()
    }

    /// The states, each a row of compiled piece states.
    pub closed spec fn spec_rows(&self) -> Seq<Seq<i32>> {
        self.states@.map_values(|v: Vec<i32>| v@)
    }

    /// The puzzle the states belong to.
    pub closed spec fn spec_puzzle(&self) -> LoadedPuzzleDefinition<T, U> {
        *self.loaded_puzzle
    }

    /// Every state can be moved: each is in range of the padded tables.
    pub open spec fn movable(&self) -> bool {
        forall|n: int| 0 <= n < self.spec_rows().len() ==> self.spec_puzzle().in_range(#[trigger] self.spec_rows()[n])
    }

    /// `num_states` solved states of `loaded_puzzle`.
    pub fn new(num_states: usize, loaded_puzzle: &'a LoadedPuzzleDefinition<T, U>) -> (r: Self)
        ensures
            r.spec_puzzle() == *loaded_puzzle,
            r.spec_rows() == Seq::new(num_states as nat, |n: int| loaded_puzzle.spec_solved()),
            views(loaded_puzzle.spec_move_map()).no_duplicates(),
    {
        proof {
            use_type_invariant(loaded_puzzle);
        }
        let mut states: Vec<Vec<i32>> = Vec::new();
        let mut n: usize = 0;
        while n < num_states
            invariant
                n <= num_states,
                loaded_puzzle.spec_solved().len() == loaded_puzzle.spec_num_pieces(),
                states@.len() == n,
                forall|a: int| 0 <= a < n ==> #[trigger] states@[a]@ == loaded_puzzle.spec_solved(),
            decreases num_states - n,
        {
            states.push(copy_row(&loaded_puzzle.solved_state));
            n += 1;
        }
        let r = Self { num_states, states, loaded_puzzle };
        assert(r.spec_rows() =~= Seq::new(num_states as nat, |n: int| loaded_puzzle.spec_solved()));
        r
    }

    /// The rows after each of the moves at `move_indices`.
    fn apply_moves_tensor(&self, move_indices: &Vec<usize>) -> (r: Vec<Vec<i32>>)
        requires
            forall|j: int|
                0 <= j < move_indices@.len() ==> #[trigger] move_indices@[j]
                    < self.spec_puzzle().spec_move_map().len(),
            move_indices@.len() > 0 ==> self.movable(),
            self.spec_rows().len() * move_indices@.len() <= usize::MAX,
        ensures
            r@.map_values(|v: Vec<i32>| v@) == moved_rows(
                self.spec_puzzle(),
                self.spec_rows(),
                move_indices@.map_values(|j: usize| j as int),
            ),
            forall|n: int| 0 <= n < r@.len() ==> #[trigger] r@[n]@.len() == self.spec_puzzle().spec_num_pieces(),
    {
        proof {
            use_type_invariant(self);
            use_type_invariant(self.loaded_puzzle);
        }
        let puzzle = self.loaded_puzzle;
        let ghost indices = move_indices@.map_values(|j: usize| j as int);
        let ghost rows = self.spec_rows();
        if move_indices.len() > 0 {
            assert forall|a: int| 0 <= a < self.num_states implies puzzle.in_range(#[trigger] self.states@[a]@) by {
                assert(rows[a] == self.states@[a]@);
            }
        }
        let mut new_states: Vec<Vec<i32>> = Vec::new();
        let mut n: usize = 0;
        while n < self.states.len()
            invariant
                n <= self.states@.len(),
                rows == self.spec_rows(),
                indices == move_indices@.map_values(|j: usize| j as int),
                forall|j: int|
                    0 <= j < move_indices@.len() ==> #[trigger] move_indices@[j] < puzzle.spec_move_map().len(),
                self.states@.len() == self.num_states,
                move_indices@.len() > 0 ==> forall|a: int| 0 <= a < self.num_states ==> puzzle.in_range(#[trigger] self.states@[a]@),
                puzzle.wf(),
                new_states@.map_values(|v: Vec<i32>| v@) == moved_rows(*puzzle, rows.take(n as int), indices),
                forall|a: int| 0 <= a < new_states@.len() ==> #[trigger] new_states@[a]@.len() == puzzle.spec_num_pieces(),
            decreases self.states@.len() - n,
        {
            let ghost before = new_states@.map_values(|v: Vec<i32>| v@);
            assert(rows[n as int] == self.states@[n as int]@);
            let mut k: usize = 0;
            while k < move_indices.len()
                invariant
                    n < self.states@.len(),
                    k <= move_indices@.len(),
                    rows == self.spec_rows(),
                    rows[n as int] == self.states@[n as int]@,
                    indices == move_indices@.map_values(|j: usize| j as int),
                    forall|j: int|
                        0 <= j < move_indices@.len() ==> #[trigger] move_indices@[j] < puzzle.spec_move_map().len(),
                    move_indices@.len() > 0 ==> puzzle.in_range(self.states@[n as int]@),
                    puzzle.wf(),
                    new_states@.map_values(|v: Vec<i32>| v@) == before + indices.take(k as int).map_values(
                        |m: int| moved_row(*puzzle, m, rows[n as int]),
                    ),
                    forall|a: int| 0 <= a < new_states@.len() ==> #[trigger] new_states@[a]@.len() == puzzle.spec_num_pieces(),
                decreases move_indices@.len() - k,
            {
                let row = apply_table(puzzle, move_indices[k], &self.states[n]);
                let ghost prev = new_states@.map_values(|v: Vec<i32>| v@);
                new_states.push(row);
                assert(new_states@.map_values(|v: Vec<i32>| v@) =~= prev.push(row@));
                assert(indices.take(k + 1) =~= indices.take(k as int).push(indices[k as int]));
                assert(before + indices.take(k + 1).map_values(|m: int| moved_row(*puzzle, m, rows[n as int]))
                    =~= (before + indices.take(k as int).map_values(|m: int| moved_row(*puzzle, m, rows[n as int]))).push(
                    moved_row(*puzzle, indices[k as int], rows[n as int])));
                k += 1;
            }
            assert(indices.take(indices.len() as int) =~= indices);
            assert(rows.take(n + 1).drop_last() =~= rows.take(n as int));
            assert(rows.take(n + 1).last() == rows[n as int]);
            n += 1;
        }
        assert(rows.take(rows.len() as int) =~= rows);
        new_states
    }
}

impl<'a, T: Debug + Clone, U: Clone + Eq + View> PuzzleStates<'a, T, U> {
    /// The states after the move `move_key`.
    pub fn apply_move(&self, move_key: &U) -> (r: Result<Self, SimError<U>>)
        requires
            eq_by_view::<U>(),
            views(self.spec_puzzle().spec_move_map()).contains(move_key@) ==> self.movable(),
        ensures
            match r {
                Ok(s) => views(self.spec_puzzle().spec_move_map()).contains(move_key@) && s.spec_puzzle()
                    == self.spec_puzzle() && s.spec_rows() == moved_rows(
                    self.spec_puzzle(),
                    self.spec_rows(),
                    seq![move_index(self.spec_puzzle().spec_move_map(), move_key@)],
                ),
                Err(e) => !views(self.spec_puzzle().spec_move_map()).contains(move_key@) && (e matches SimError::MoveNotFound(u) && u@ == move_key@),
            },
    {
        proof {
            use_type_invariant(self);
        }
        let move_index = match index_of(&self.loaded_puzzle.move_map, move_key) {
            Some(index) => index,
            None => {
                let key = move_key.clone();
                assert(cloned::<U>(*move_key, key));
                return Err(SimError::MoveNotFound(key));
            },
        };
        let mut move_indices: Vec<usize> = Vec::new();
        move_indices.push(move_index);
        proof {
            lemma_first_index(views(self.loaded_puzzle.move_map@), move_key@);
            assert(move_indices@.map_values(|j: usize| j as int) =~= seq![move_index as int]);
            lemma_moved_rows_len(*self.loaded_puzzle, self.spec_rows(), seq![move_index as int]);
        }
        let new_states = self.apply_moves_tensor(&move_indices);
        let r = Self { num_states: self.num_states, states: new_states, loaded_puzzle: self.loaded_puzzle };
        Ok(r)
    }

    /// The states after each of the moves `move_keys`: the states of the
    /// first state after each move, then those of the second, and so on.
    pub fn apply_moves(&self, move_keys: &[&U]) -> (r: Result<Self, SimError<U>>)
        requires
            eq_by_view::<U>(),
            self.spec_rows().len() * move_keys@.len() <= usize::MAX,
            move_keys@.len() > 0 && (forall|j: int|
                0 <= j < move_keys@.len() ==> views(self.spec_puzzle().spec_move_map()).contains(
                    #[trigger] move_keys@[j]@,
                )) ==> self.movable(),
        ensures
            match r {
                Ok(s) => (forall|j: int|
                    0 <= j < move_keys@.len() ==> views(self.spec_puzzle().spec_move_map()).contains(
                        #[trigger] move_keys@[j]@,
                    )) && s.spec_puzzle() == self.spec_puzzle() && s.spec_rows() == moved_rows(
                    self.spec_puzzle(),
                    self.spec_rows(),
                    Seq::new(
                        move_keys@.len(),
                        |j: int| move_index(self.spec_puzzle().spec_move_map(), move_keys@[j]@),
                    ),
                ),
                Err(e) => exists|j: int|
                    0 <= j < move_keys@.len() && !views(self.spec_puzzle().spec_move_map()).contains(
                        #[trigger] move_keys@[j]@,
                    ) && (forall|i: int|
                        0 <= i < j ==> views(self.spec_puzzle().spec_move_map()).contains(
                            #[trigger] move_keys@[i]@,
                        )) && (e matches SimError::MoveNotFound(u) && u@ == move_keys@[j]@),
            },
    {
        proof {
            use_type_invariant(self);
        }
        let ghost map = views(self.loaded_puzzle.move_map@);
        let mut move_indices: Vec<usize> = Vec::new();
        let mut j: usize = 0;
        while j < move_keys.len()
            invariant
                eq_by_view::<U>(),
                map == views(self.loaded_puzzle.move_map@),
                j <= move_keys@.len(),
                move_indices@.len() == j,
                forall|i: int| 0 <= i < j ==> map.contains(#[trigger] move_keys@[i]@),
                forall|i: int|
                    0 <= i < j ==> #[trigger] move_indices@[i] as int == move_index(
                        self.loaded_puzzle.move_map@,
                        move_keys@[i]@,
                    ),
                forall|i: int| 0 <= i < j ==> #[trigger] move_indices@[i] < map.len(),
            decreases move_keys@.len() - j,
        {
            let key: &U = move_keys[j];
            match index_of(&self.loaded_puzzle.move_map, key) {
                Some(index) => {
                    proof {
                        lemma_first_index(map, key@);
                    }
                    move_indices.push(index);
                },
                None => {
                    let missing = key.clone();
                    assert(cloned::<U>(*key, missing));
                    return Err(SimError::MoveNotFound(missing));
                },
            }
            j += 1;
        }
        let ghost indices = Seq::new(
            move_keys@.len(),
            |i: int| move_index(self.loaded_puzzle.move_map@, move_keys@[i]@),
        );
        assert(move_indices@.map_values(|i: usize| i as int) =~= indices);
        let new_states = self.apply_moves_tensor(&move_indices);
        proof {
            lemma_moved_rows_len(*self.loaded_puzzle, self.spec_rows(), indices);
        }
        assert(move_keys@.len() * self.num_states == self.spec_rows().len() * move_keys@.len())
            by (nonlinear_arith)
            requires
                self.spec_rows().len() == self.num_states,
        ;
        let num_states = move_keys.len() * self.num_states;
        let r = Self { num_states, states: new_states, loaded_puzzle: self.loaded_puzzle };
        Ok(r)
    }

    /// The states after each move of the puzzle, in the order of the moves:
    /// the same as applying the list of the puzzle's moves (they all differ).
    pub fn apply_all_moves(&self) -> (r: Result<Self, SimError<U>>)
        requires
            self.spec_rows().len() * self.spec_puzzle().spec_move_map().len() <= usize::MAX,
            self.spec_puzzle().spec_move_map().len() > 0 ==> self.movable(),
        ensures
            r matches Ok(s) && s.spec_puzzle() == self.spec_puzzle() && s.spec_rows() == moved_rows(
                self.spec_puzzle(),
                self.spec_rows(),
                Seq::new(self.spec_puzzle().spec_move_map().len(), |j: int| j),
            ),
            views(self.spec_puzzle().spec_move_map()).no_duplicates(),
            Seq::new(self.spec_puzzle().spec_move_map().len(), |j: int| j) == Seq::new(
                self.spec_puzzle().spec_move_map().len(),
                |j: int|
                    move_index(self.spec_puzzle().spec_move_map(), self.spec_puzzle().spec_move_map()[j]@),
            ),
    {
        proof {
            use_type_invariant(self);
            use_type_invariant(self.loaded_puzzle);
            lemma_all_moves_in_order(self.loaded_puzzle.move_map@);
        }
        let num_moves = self.loaded_puzzle.num_moves;
        let mut move_indices: Vec<usize> = Vec::new();
        let mut j: usize = 0;
        while j < num_moves
            invariant
                j <= num_moves,
                move_indices@ == Seq::new(j as nat, |i: int| i as usize),
            decreases num_moves - j,
        {
            move_indices.push(j);
            assert(move_indices@ =~= Seq::new((j + 1) as nat, |i: int| i as usize));
            j += 1;
        }
        let ghost indices = Seq::new(self.spec_puzzle().spec_move_map().len(), |i: int| i);
        assert(move_indices@.map_values(|i: usize| i as int) =~= indices);
        let new_states = self.apply_moves_tensor(&move_indices);
        proof {
            lemma_moved_rows_len(*self.loaded_puzzle, self.spec_rows(), indices);
        }
        assert(num_moves * self.num_states == self.spec_rows().len() * num_moves) by (nonlinear_arith)
            requires
                self.spec_rows().len() == self.num_states,
        ;
        let num_states = num_moves * self.num_states;
        let r = Self { num_states, states: new_states, loaded_puzzle: self.loaded_puzzle };
        Ok(r)
    }

    /// The states, as rows of compiled piece states.
    pub fn raw_states(&self) -> (r: Vec<Vec<i32>>)
        ensures
            r@.map_values(|v: Vec<i32>| v@) == self.spec_rows(),
    {
        let mut r: Vec<Vec<i32>> = Vec::new();
        let mut n: usize = 0;
        while n < self.states.len()
            invariant
                n <= self.states@.len(),
                r@.map_values(|v: Vec<i32>| v@) == self.spec_rows().take(n as int),
            decreases self.states@.len() - n,
        {
            let ghost before = r@;
            let row = copy_row(&self.states[n]);
            r.push(row);
            assert(r@ == before.push(row));
            assert(r@.map_values(|v: Vec<i32>| v@) =~= before.map_values(|v: Vec<i32>| v@).push(row@));
            assert(self.spec_rows()[n as int] == self.states@[n as int]@);
            assert(self.spec_rows().take(n + 1) =~= self.spec_rows().take(n as int).push(self.spec_rows()[n as int]));
            n += 1;
        }
        assert(self.spec_rows().take(self.spec_rows().len() as int) =~= self.spec_rows());
        r
    }

    /// The states, each as the state of every piece (by piece index). The
    /// states are read in rows of one entry per piece, so the puzzle must
    /// have pieces.
    pub fn states(&self) -> (r: Result<Vec<Vec<T>>, SimError<U>>)
        requires
            self.spec_puzzle().spec_num_pieces() > 0,
            forall|n: int|
                0 <= n < self.spec_rows().len() ==> self.spec_puzzle().decodable_row(#[trigger] self.spec_rows()[n]),
        ensures
            r matches Ok(rows) && rows@.len() == self.spec_rows().len() && forall|n: int|
                0 <= n < rows@.len() ==> #[trigger] decoded_row(
                    self.spec_puzzle(),
                    self.spec_rows()[n],
                    rows@[n]@,
                ),
    {
        proof {
            use_type_invariant(self);
            use_type_invariant(self.loaded_puzzle);
        }
        let puzzle = self.loaded_puzzle;
        let mut result: Vec<Vec<T>> = Vec::new();
        let mut n: usize = 0;
        while n < self.states.len()
            invariant
                puzzle.wf(),
                *puzzle == self.spec_puzzle(),
                self.states@.len() == self.num_states,
                forall|a: int|
                    0 <= a < self.spec_rows().len() ==> puzzle.decodable_row(#[trigger] self.spec_rows()[a]),
                n <= self.states@.len(),
                result@.len() == n,
                forall|a: int| 0 <= a < n ==> #[trigger] decoded_row(*puzzle, self.spec_rows()[a], result@[a]@),
            decreases self.states@.len() - n,
        {
            let row = &self.states[n];
            assert(self.spec_rows()[n as int] == row@);
            assert(puzzle.decodable_row(row@));
            let mut pieces: Vec<T> = Vec::new();
            let mut i: usize = 0;
            while i < puzzle.num_pieces
                invariant
                    puzzle.wf(),
                    puzzle.decodable_row(row@),
                    i <= puzzle.num_pieces,
                    pieces@.len() == i,
                    forall|p: int| 0 <= p < i ==> #[trigger] decoded_piece(*puzzle, row@, p, pieces@[p]),
                decreases puzzle.num_pieces - i,
            {
                let index = puzzle.piece_index_map[i];
                let orbit = &puzzle.orbits[puzzle.piece_orbit_map[i] as usize];
                let state = row[index as usize];
                let piece = decompile_state(state, orbit).expect(
                    "illegal state cannot be stored in PuzzleState(s)",
                );
                pieces.push(piece);
                i += 1;
            }
            result.push(pieces);
            n += 1;
        }
        Ok(result)
    }
}

impl<'a, T, U: View> PuzzleState<'a, T, U> {
    #[verifier::type_invariant]
    closed spec fn single(self) -> bool {
        self.0.num_states == 1
    }

    /// The state, as a row of compiled piece states.
    pub closed spec fn spec_row(&self) -> Seq<i32> {
        self.0.spec_rows()[0]
    }

    /// The puzzle the state belongs to.
    pub closed spec fn spec_puzzle(&self) -> LoadedPuzzleDefinition<T, U> {
        self.0.spec_puzzle()
    }
}

impl<'a, T: Debug + Clone, U: Clone + Eq + View> PuzzleState<'a, T, U> {
    /// The solved state of `loaded_puzzle`.
    pub fn new(loaded_puzzle: &'a LoadedPuzzleDefinition<T, U>) -> (r: Self)
        ensures
            r.spec_puzzle() == *loaded_puzzle,
            r.spec_row() == loaded_puzzle.spec_solved(),
            views(loaded_puzzle.spec_move_map()).no_duplicates(),
    {
        let states = PuzzleStates::new(1, loaded_puzzle);
        proof {
            use_type_invariant(&states);
            assert(states.spec_rows().len() == 1);
            assert(states.states@.len() == states.spec_rows().len());
        }
        Self(states)
    }

    /// The state after the move `move_key`.
    pub fn apply_move(&self, move_key: &U) -> (r: Result<Self, SimError<U>>)
        requires
            eq_by_view::<U>(),
            views(self.spec_puzzle().spec_move_map()).contains(move_key@) ==> self.spec_puzzle().in_range(
                self.spec_row(),
            ),
        ensures
            match r {
                Ok(s) => views(self.spec_puzzle().spec_move_map()).contains(move_key@) && s.spec_puzzle()
                    == self.spec_puzzle() && s.spec_row() == moved_row(
                    self.spec_puzzle(),
                    move_index(self.spec_puzzle().spec_move_map(), move_key@),
                    self.spec_row(),
                ),
                Err(e) => !views(self.spec_puzzle().spec_move_map()).contains(move_key@) && (e matches SimError::MoveNotFound(u) && u@ == move_key@),
            },
    {
        proof {
            use_type_invariant(self);
            use_type_invariant(&self.0);
            assert(self.0.spec_rows() =~= seq![self.spec_row()]);
        }
        match self.0.apply_move(move_key) {
            Ok(new_state) => {
                proof {
                    use_type_invariant(&new_state);
                    let m = move_index(self.spec_puzzle().spec_move_map(), move_key@);
                    lemma_moved_rows_index(self.spec_puzzle(), self.0.spec_rows(), seq![m], 0, 0);
                }
                Ok(Self(new_state))
            },
            Err(e) => Err(e),
        }
    }

    /// The states after each of the moves `move_keys`, in order.
    pub fn apply_moves(&self, move_keys: &[&U]) -> (r: Result<PuzzleStates<'a, T, U>, SimError<U>>)
        requires
            eq_by_view::<U>(),
            move_keys@.len() > 0 && (forall|j: int|
                0 <= j < move_keys@.len() ==> views(self.spec_puzzle().spec_move_map()).contains(
                    #[trigger] move_keys@[j]@,
                )) ==> self.spec_puzzle().in_range(self.spec_row()),
        ensures
            match r {
                Ok(s) => (forall|j: int|
                    0 <= j < move_keys@.len() ==> views(self.spec_puzzle().spec_move_map()).contains(
                        #[trigger] move_keys@[j]@,
                    )) && s.spec_puzzle() == self.spec_puzzle() && s.spec_rows() == moved_rows(
                    self.spec_puzzle(),
                    seq![self.spec_row()],
                    Seq::new(
                        move_keys@.len(),
                        |j: int| move_index(self.spec_puzzle().spec_move_map(), move_keys@[j]@),
                    ),
                ),
                Err(e) => exists|j: int|
                    0 <= j < move_keys@.len() && !views(self.spec_puzzle().spec_move_map()).contains(
                        #[trigger] move_keys@[j]@,
                    ) && (forall|i: int|
                        0 <= i < j ==> views(self.spec_puzzle().spec_move_map()).contains(
                            #[trigger] move_keys@[i]@,
                        )) && (e matches SimError::MoveNotFound(u) && u@ == move_keys@[j]@),
            },
    {
        proof {
            use_type_invariant(self);
            use_type_invariant(&self.0);
            assert(self.0.spec_rows() =~= seq![self.spec_row()]);
        }
        let count = move_keys.len();
        assert(self.0.spec_rows().len() == 1);
        assert(self.0.spec_rows().len() * move_keys@.len() == count) by (nonlinear_arith)
            requires
                self.0.spec_rows().len() == 1,
                count == move_keys@.len(),
        ;
        self.0.apply_moves(move_keys)
    }

    /// The states after each move of the puzzle, in the order of the moves:
    /// the same as applying the list of the puzzle's moves (they all differ).
    pub fn apply_all_moves(&self) -> (r: Result<PuzzleStates<'a, T, U>, SimError<U>>)
        requires
            self.spec_puzzle().spec_move_map().len() > 0 ==> self.spec_puzzle().in_range(self.spec_row()),
        ensures
            r matches Ok(s) && s.spec_puzzle() == self.spec_puzzle() && s.spec_rows() == moved_rows(
                self.spec_puzzle(),
                seq![self.spec_row()],
                Seq::new(self.spec_puzzle().spec_move_map().len(), |j: int| j),
            ),
            views(self.spec_puzzle().spec_move_map()).no_duplicates(),
            Seq::new(self.spec_puzzle().spec_move_map().len(), |j: int| j) == Seq::new(
                self.spec_puzzle().spec_move_map().len(),
                |j: int|
                    move_index(self.spec_puzzle().spec_move_map(), self.spec_puzzle().spec_move_map()[j]@),
            ),
    {
        proof {
            use_type_invariant(self);
            use_type_invariant(&self.0);
            use_type_invariant(self.0.loaded_puzzle);
            assert(self.0.spec_rows() =~= seq![self.spec_row()]);
        }
        self.0.apply_all_moves()
    }

    /// The state, as a row of compiled piece states.
    pub fn raw_state(&self) -> (r: Vec<i32>)
        ensures
            r@ == self.spec_row(),
    {
        proof {
            use_type_invariant(self);
            use_type_invariant(&self.0);
        }
        copy_row(&self.0.states[0])
    }

    /// The state, as the state of every piece (by piece index); the puzzle
    /// must have pieces.
    pub fn state(&self) -> (r: Result<Vec<T>, SimError<U>>)
        requires
            self.spec_puzzle().spec_num_pieces() > 0,
            self.spec_puzzle().decodable_row(self.spec_row()),
        ensures
            r matches Ok(pieces) && decoded_row(self.spec_puzzle(), self.spec_row(), pieces@),
    {
        proof {
            use_type_invariant(self);
            use_type_invariant(&self.0);
            assert(self.0.spec_rows() =~= seq![self.spec_row()]);
        }
        match self.0.states() {
            Ok(mut states) => {
                let ghost all = states@;
                match states.pop() {
                    Some(pieces) => {
                        assert(pieces == all[0]);
                        Ok(pieces)
                    },
                    None => Ok(Vec::new()),
                }
            },
            Err(e) => Err(e),
        }
    }
}

/// Law: a puzzle loaded from tables that `try_from` could make (tables that
/// fit together) keeps valid states valid.
pub proof fn lemma_loaded_tables_closed<T, U: View>(
    compiled: CompiledPuzzleDefinition<T, U>,
    loaded: LoadedPuzzleDefinition<T, U>,
)
    requires
        compiled.wf(),
        loaded_from(loaded, compiled),
    ensures
        loaded.tables_closed(),
{
    lemma_max_orbit_size(compiled.orbits@);
    assert forall|k: int| 0 <= k < loaded.spec_num_pieces() implies #[trigger] loaded.spec_row_size(k)
        <= loaded.spec_max_len() by {
        assert(loaded.spec_row_size(k) == compiled.row_size(k));
        let o = compiled.piece_orbit_map@[compiled.piece_index_map@[k] as int] as int;
        assert(compiled.orbits@[o].states@.len() <= max_orbit_size(compiled.orbits@));
    }
    assert forall|m: int, k: int, v: int|
        0 <= m < loaded.spec_move_map().len() && 0 <= k < loaded.spec_num_pieces() && 0 <= v
            < loaded.spec_row_size(k) implies 0 <= #[trigger] loaded.spec_table(m, k)[v]
        < loaded.spec_row_size(k) by {
        assert(loaded.spec_row_size(k) == compiled.row_size(k));
        assert(loaded.spec_row_size(k) <= loaded.spec_max_len());
        assert(loaded.spec_table(m, k).len() == max_orbit_size(compiled.orbits@));
        assert(compiled.compiled_moves@[m]@[k]@.len() == compiled.row_size(k));
        assert(loaded.spec_table(m, k)[v] == compiled.compiled_moves@[m]@[k]@[v]);
    }
    assert forall|k: int| 0 <= k < loaded.spec_num_pieces() implies 0 <= #[trigger] loaded.spec_solved()[k]
        < loaded.spec_row_size(k) by {
        assert(loaded.spec_row_size(k) == compiled.row_size(k));
    }
}

/// Law: where the tables keep valid states valid, a valid state can be
/// moved, each move takes it to a valid state, and, where the stored states
/// can be read back at all (`decodable`), it can be read back.
pub proof fn lemma_valid_row<T, U: View>(puzzle: LoadedPuzzleDefinition<T, U>, row: Seq<i32>, m: int)
    requires
        puzzle.tables_closed(),
        puzzle.valid_row(row),
    ensures
        puzzle.in_range(row),
        0 <= m < puzzle.spec_move_map().len() ==> puzzle.valid_row(moved_row(puzzle, m, row)),
        puzzle.decodable() ==> puzzle.decodable_row(row),
{
    assert forall|k: int| 0 <= k < row.len() implies 0 <= #[trigger] row[k] < puzzle.spec_max_len() by {
        assert(puzzle.spec_row_size(k) <= puzzle.spec_max_len());
    }
    if 0 <= m < puzzle.spec_move_map().len() {
        let moved = moved_row(puzzle, m, row);
        assert forall|k: int| 0 <= k < moved.len() implies 0 <= #[trigger] moved[k] < puzzle.spec_row_size(k) by {
            assert(moved[k] == puzzle.spec_table(m, k)[row[k] as int]);
        }
    }
    if puzzle.decodable() {
        assert forall|i: int| 0 <= i < puzzle.spec_num_pieces() implies {
            &&& 0 <= #[trigger] puzzle.spec_piece_index_map()[i] < puzzle.spec_num_pieces()
            &&& 0 <= puzzle.spec_piece_orbit_map()[i] < puzzle.spec_orbits().len()
            &&& 0 <= row[puzzle.spec_piece_index_map()[i] as int]
                < puzzle.spec_orbits()[puzzle.spec_piece_orbit_map()[i] as int].states@.len()
        } by {
            let k = puzzle.spec_piece_index_map()[i] as int;
            assert(0 <= row[k] < puzzle.spec_row_size(k));
        }
    }
}

/// Law: where the tables keep valid states valid, moving valid states gives
/// valid states.
pub proof fn lemma_valid_rows<T, U: View>(puzzle: LoadedPuzzleDefinition<T, U>, rows: Seq<Seq<i32>>, indices: Seq<int>)
    requires
        puzzle.tables_closed(),
        forall|n: int| 0 <= n < rows.len() ==> puzzle.valid_row(#[trigger] rows[n]),
        forall|j: int| 0 <= j < indices.len() ==> 0 <= #[trigger] indices[j] < puzzle.spec_move_map().len(),
    ensures
        forall|n: int|
            0 <= n < moved_rows(puzzle, rows, indices).len() ==> puzzle.valid_row(
                #[trigger] moved_rows(puzzle, rows, indices)[n],
            ),
    decreases rows.len(),
{
    if rows.len() > 0 {
        let init = rows.drop_last();
        lemma_valid_rows(puzzle, init, indices);
        let front = moved_rows(puzzle, init, indices);
        let back = indices.map_values(|m: int| moved_row(puzzle, m, rows.last()));
        assert(moved_rows(puzzle, rows, indices) == front + back);
        assert forall|n: int| 0 <= n < (front + back).len() implies puzzle.valid_row(#[trigger] (front + back)[n]) by {
            if n >= front.len() {
                let j = n - front.len();
                lemma_valid_row(puzzle, rows.last(), indices[j]);
                assert((front + back)[n] == moved_row(puzzle, indices[j], rows.last()));
            } else {
                assert((front + back)[n] == front[n]);
            }
        }
    }
}

/// Law: simulating a move on a loaded compiled puzzle moves each piece as
/// the move itself does: read back through the piece's orbit, the piece's
/// compiled state after the move is the move applied to its state before.
/// This holds for every piece whose compiled index holds the tables of its
/// own orbit: where `piece_index_map` maps the piece's compiled index back
/// to it or to a piece of the same orbit (every piece where the pieces'
/// solved states all differ).
pub proof fn lemma_simulated_move_is_move<T: View, U: Move<T> + View, V: DfaEvaluator<U>>(
    moves: Seq<U>,
    solved: Seq<T>,
    dfa_start: V::V,
    compiled: CompiledPuzzleDefinition<T, U>,
    loaded: LoadedPuzzleDefinition<T, U>,
    row: Seq<i32>,
    m: int,
    i: int,
)
    requires
        compiled_from::<T, U, V>(moves, solved, dfa_start, compiled),
        compiled.wf(),
        loaded_from(loaded, compiled),
        loaded.valid_row(row),
        0 <= m < moves.len(),
        0 <= i < solved.len(),
        compiled.piece_orbit_map@[compiled.piece_index_map@[compiled.piece_index_map@[i] as int] as int]
            == compiled.piece_orbit_map@[i],
    ensures
        views(compiled.orbits@[compiled.piece_orbit_map@[i] as int].states@)[moved_row(
            loaded,
            m,
            row,
        )[compiled.piece_index_map@[i] as int] as int] == moves[m].spec_apply(
            views(compiled.orbits@[compiled.piece_orbit_map@[i] as int].states@)[row[compiled.piece_index_map@[i] as int] as int],
        ),
{
    let k = compiled.piece_index_map@[i] as int;
    let v = row[k] as int;
    assert(0 <= k < compiled.num_pieces());
    assert(loaded.spec_row_size(k) == compiled.row_size(k));
    assert(0 <= v < compiled.row_size(k));
    assert(compiled.compiled_moves@[m]@[k]@.len() == compiled.row_size(k));
    lemma_max_orbit_size(compiled.orbits@);
    assert(compiled.row_size(k) <= max_orbit_size(compiled.orbits@));
    assert(loaded.spec_table(m, k).len() == max_orbit_size(compiled.orbits@));
    assert(loaded.spec_table(m, k)[v] == compiled.compiled_moves@[m]@[k]@[v]);
    lemma_compiled_move_is_move::<T, U, V>(moves, solved, dfa_start, compiled, m, i, v);
}

/// Law: on a puzzle compiled from pieces whose solved states all differ and
/// then loaded, a new state reads back as the solved pieces, and the state
/// after move `m` reads back as the move applied to each solved piece (by
/// view).
pub proof fn lemma_reads_back_moves<T: PartialEq + Clone + View, U: Move<T> + View, V: DfaEvaluator<U>>(
    moves: Seq<U>,
    solved: Seq<T>,
    dfa_start: V::V,
    compiled: CompiledPuzzleDefinition<T, U>,
    loaded: LoadedPuzzleDefinition<T, U>,
    m: int,
    pieces: Seq<T>,
)
    requires
        eq_by_view::<T>(),
        compiled_from::<T, U, V>(moves, solved, dfa_start, compiled),
        compiled.wf(),
        loaded_from(loaded, compiled),
        views(solved).no_duplicates(),
        0 <= m < moves.len(),
    ensures
        decoded_row(loaded, loaded.spec_solved(), pieces) ==> views(pieces) == views(solved),
        decoded_row(loaded, moved_row(loaded, m, loaded.spec_solved()), pieces) ==> views(pieces)
            == views(solved).map_values(|x: T::V| moves[m].spec_apply(x)),
{
    crate::compiler::lemma_unique_pieces_keep_order::<T, U, V>(moves, solved, dfa_start, compiled);
    lemma_loaded_tables_closed(compiled, loaded);
    let n = solved.len();
    assert forall|p: int| 0 <= p < n implies #[trigger] views(
        compiled.orbits@[compiled.piece_orbit_map@[p] as int].states@,
    )[loaded.spec_solved()[p] as int] == solved[p]@ by {
        crate::compiler::lemma_solved_reads_back::<T, U, V>(moves, solved, dfa_start, compiled, p);
    }
    if decoded_row(loaded, loaded.spec_solved(), pieces) {
        assert forall|p: int| 0 <= p < n implies #[trigger] views(pieces)[p] == views(solved)[p] by {
            assert(decoded_piece(loaded, loaded.spec_solved(), p, pieces[p]));
            let o = compiled.orbits@[compiled.piece_orbit_map@[p] as int].states@;
            assert(views(o)[loaded.spec_solved()[p] as int] == o[loaded.spec_solved()[p] as int]@);
        }
        assert(views(pieces) =~= views(solved));
    }
    let moved = moved_row(loaded, m, loaded.spec_solved());
    if decoded_row(loaded, moved, pieces) {
        assert forall|p: int| 0 <= p < n implies #[trigger] views(pieces)[p] == moves[m].spec_apply(
            views(solved)[p],
        ) by {
            lemma_simulated_move_is_move::<T, U, V>(
                moves,
                solved,
                dfa_start,
                compiled,
                loaded,
                loaded.spec_solved(),
                m,
                p,
            );
            assert(decoded_piece(loaded, moved, p, pieces[p]));
            let o = compiled.orbits@[compiled.piece_orbit_map@[p] as int].states@;
            assert(views(o)[moved[p] as int] == o[moved[p] as int]@);
        }
        assert(views(pieces) =~= views(solved).map_values(|x: T::V| moves[m].spec_apply(x)));
    }
}

/// `pieces` is `row` read back: each piece's state is (a clone of) the
/// state of its orbit numbered by the compiled state at its compiled index.
pub open spec fn decoded_row<T: Clone, U: View>(puzzle: LoadedPuzzleDefinition<T, U>, row: Seq<i32>, pieces: Seq<T>) -> bool {
    &&& pieces.len() == puzzle.spec_num_pieces()
    &&& forall|p: int| 0 <= p < pieces.len() ==> #[trigger] decoded_piece(puzzle, row, p, pieces[p])
}

/// `piece` is (a clone of) the state of piece `p`'s orbit numbered by the
/// compiled state at `p`'s compiled index in `row`.
pub open spec fn decoded_piece<T: Clone, U: View>(puzzle: LoadedPuzzleDefinition<T, U>, row: Seq<i32>, p: int, piece: T) -> bool {
    cloned::<T>(
        puzzle.spec_orbits()[puzzle.spec_piece_orbit_map()[p] as int].states@[row[puzzle.spec_piece_index_map()[p] as int] as int],
        piece,
    )
}

/// A copy of a row of compiled piece states.
fn copy_row(row: &Vec<i32>) -> (r: Vec<i32>)
    ensures
        r@ == row@,
{
    let mut r: Vec<i32> = Vec::new();
    let mut i: usize = 0;
    while i < row.len()
        invariant
            i <= row@.len(),
            r@ == row@.take(i as int),
        decreases row@.len() - i,
    {
        r.push(row[i]);
        assert(r@ =~= row@.take(i + 1));
        i += 1;
    }
    assert(row@.take(row@.len() as int) =~= row@);
    r
}

/// A puzzle state after move `m`.
fn apply_table<T, U: View>(puzzle: &LoadedPuzzleDefinition<T, U>, m: usize, row: &Vec<i32>) -> (r: Vec<i32>)
    requires
        m < puzzle.spec_move_map().len(),
        puzzle.in_range(row@),
    ensures
        r@ == moved_row(*puzzle, m as int, row@),
{
    proof {
        use_type_invariant(puzzle);
    }
    let mut r: Vec<i32> = Vec::new();
    let mut k: usize = 0;
    while k < row.len()
        invariant
            puzzle.wf(),
            m < puzzle.num_moves,
            puzzle.in_range(row@),
            k <= row@.len(),
            r@.len() == k,
            forall|j: int| 0 <= j < k ==> #[trigger] r@[j] == puzzle.spec_table(m as int, j)[row@[j] as int],
        decreases row@.len() - k,
    {
        let state = row[k];
        assert(0 <= state < puzzle.max_states_len);
        let next = puzzle.moves[m][k][state as usize];
        r.push(next);
        k += 1;
    }
    assert(r@ =~= moved_row(*puzzle, m as int, row@));
    r
}

} // verus!
