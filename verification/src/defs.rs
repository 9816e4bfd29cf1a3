//! Data types shared by the compiler and the simulator.

use std::ops::Range;
use vstd::prelude::*;
use vstd::std_specs::cmp::PartialEqSpec;

verus! {

/// A compiled move: for each piece (in compiled order) and each compiled
/// state of that piece, the compiled state the piece is in after the move.
pub type CompiledMove = Vec<Vec<i32>>;

/// The compiled state of one piece: an index into its orbit's states.
pub type CompiledPieceState = i32;

/// `==` on `T` compares views, and `clone` keeps the view.
pub open spec fn eq_by_view<T: PartialEq + Clone + View>() -> bool {
    &&& T::obeys_eq_spec()
    &&& forall|a: T, b: T| #[trigger] a.eq_spec(&b) <==> a@ == b@
    &&& forall|a: T, b: T| #[trigger] cloned::<T>(a, b) ==> a@ == b@
}

/// The views of the elements of `s`.
pub open spec fn views<T: View>(s: Seq<T>) -> Seq<T::V> {
    s.map_values(|x: T| x@)
}

/// The first position of `x` in `s` (meaningful where `s` holds `x`).
pub open spec fn first_index<A>(s: Seq<A>, x: A) -> int {
    choose|i: int| 0 <= i < s.len() && s[i] == x && forall|j: int| 0 <= j < i ==> s[j] != x
}

/// `first_index` is the first position of an element that `s` holds.
pub proof fn lemma_first_index<A>(s: Seq<A>, x: A)
    requires
        s.contains(x),
    ensures
        0 <= first_index(s, x) < s.len(),
        s[first_index(s, x)] == x,
        forall|j: int| 0 <= j < first_index(s, x) ==> s[j] != x,
        s.no_duplicates() ==> forall|j: int| 0 <= j < s.len() && s[j] == x ==> j == first_index(s, x),
{
    let k = choose|k: int| 0 <= k < s.len() && s[k] == x;
    lemma_first_index_exists(s, x, k);
}

proof fn lemma_first_index_exists<A>(s: Seq<A>, x: A, k: int)
    requires
        0 <= k < s.len(),
        s[k] == x,
    ensures
        exists|i: int| 0 <= i < s.len() && s[i] == x && forall|j: int| 0 <= j < i ==> s[j] != x,
    decreases k,
{
    if exists|j: int| 0 <= j < k && s[j] == x {
        let j = choose|j: int| 0 <= j < k && s[j] == x;
        lemma_first_index_exists(s, x, j);
    }
}

/// Cloning an `i32` gives the same value.
pub proof fn lemma_i32_clone()
    ensures
        forall|a: i32, b: i32| #[trigger] cloned::<i32>(a, b) ==> a == b,
{
    assert forall|a: i32, b: i32| #[trigger] cloned::<i32>(a, b) implies a == b by {
        if vstd::pervasive::strictly_cloned::<i32>(a, b) {
            assert(call_ensures(i32::clone, (&a,), b));
        }
    }
}

/// A move of a puzzle, given by how it changes the state of a single piece.
pub trait Move<T: View>: Sized {
    /// The state a piece in state `piece` is in after the move.
    spec fn spec_apply(&self, piece: T::V) -> T::V;

    /// Applies the move to a piece.
    fn apply(&self, piece: &T) -> (r: T)
        ensures
            r@ == self.spec_apply(piece@),
    ;
}

/// A state of the automaton that decides which move may follow which.
pub trait DfaEvaluator<U>: View + Sized {
    /// The state after `move_key`, or `None` where the move is not allowed.
    spec fn spec_next(state: Self::V, move_key: U) -> Option<Self::V>;

    /// The state after `move_key`, or `None` where the move is not allowed.
    fn next(&self, move_key: &U) -> (r: Option<Self>)
        ensures
            match r {
                Some(n) => Self::spec_next(self@, *move_key) == Some(n@),
                None => Self::spec_next(self@, *move_key) is None,
            },
    ;
}

/// The states a piece in state `s` is in after each of `moves`.
pub open spec fn move_images<T: View, U: Move<T>>(moves: Seq<U>) -> spec_fn(T::V) -> Seq<T::V> {
    |s: T::V| moves.map_values(|m: U| m.spec_apply(s))
}

/// The automaton states that follow `s` by each allowed move of `moves`, in
/// the order of `moves`.
pub open spec fn dfa_successors<U, V: DfaEvaluator<U>>(moves: Seq<U>) -> spec_fn(V::V) -> Seq<V::V> {
    |s: V::V| moves.filter_map(|m: U| V::spec_next(s, m))
}

/// A puzzle: its moves, the state of each piece when solved, and the state
/// in which the automaton over move sequences starts.
pub struct PuzzleDefinition<T, U, V> {
    /// The moves, each once.
    pub moves: Vec<U>,
    /// The state of each piece, by piece index, in the solved puzzle.
    pub solved_state: Vec<T>,
    /// The automaton state before any move.
    pub dfa_start: V,
}

/// A set of pieces that share the same reachable states.
#[derive(Debug)]
pub struct OrbitDefinition<T> {
    /// The range of compiled piece indices taken by the orbit's pieces.
    pub slice: Range<i32>,
    /// The pieces (by their index in the solved state) of this orbit.
    pub pieces: Vec<i32>,
    /// The states a piece of this orbit can be in; the compiled state of a
    /// piece is its index here.
    pub states: Vec<T>,
}

/// A puzzle compiled into lookup tables.
#[derive(Debug, Clone)]
pub struct CompiledPuzzleDefinition<T, U> {
    /// The moves, in the order of the compiled moves.
    pub moves: Vec<U>,
    /// For each move and each compiled index, the table from the compiled
    /// state before the move to the compiled state after it.
    pub compiled_moves: Vec<CompiledMove>,
    /// The orbits.
    pub orbits: Vec<OrbitDefinition<T>>,
    /// For each piece, the index of its orbit.
    pub piece_orbit_map: Vec<i32>,
    /// For each piece, its compiled index.
    pub piece_index_map: Vec<i32>,
    /// The compiled solved state.
    pub solved_state: Vec<CompiledPieceState>,
    /// For each automaton state, the indices of the moves allowed there.
    pub allowed_moves: Vec<Vec<i32>>,
    /// For each automaton state, the states its allowed moves lead to.
    pub next_dfa_states: Vec<Vec<i32>>,
}

impl<T, U> CompiledPuzzleDefinition<T, U> {
    /// The number of pieces.
    pub open spec fn num_pieces(&self) -> nat {
        self.solved_state@.len()
    }

    /// The number of states in the tables of compiled index `k`: the size
    /// of the orbit of piece `piece_index_map[k]`.
    pub open spec fn row_size(&self, k: int) -> int {
        self.orbits@[self.piece_orbit_map@[self.piece_index_map@[k] as int] as int].states@.len() as int
    }

    /// The tables fit together: every compiled move maps each compiled
    /// index's states into themselves, and the solved state is among them.
    pub open spec fn wf(&self) -> bool {
        &&& self.piece_orbit_map@.len() == self.num_pieces()
        &&& self.piece_index_map@.len() == self.num_pieces()
        &&& forall|i: int|
            0 <= i < self.num_pieces() ==> 0 <= #[trigger] self.piece_index_map@[i]
                < self.num_pieces()
        &&& forall|i: int|
            0 <= i < self.num_pieces() ==> 0 <= #[trigger] self.piece_orbit_map@[i]
                < self.orbits@.len()
        &&& self.compiled_moves@.len() == self.moves@.len()
        &&& forall|m: int|
            0 <= m < self.compiled_moves@.len() ==> #[trigger] self.compiled_moves@[m]@.len()
                == self.num_pieces()
        &&& forall|m: int, k: int|
            0 <= m < self.compiled_moves@.len() && 0 <= k < self.num_pieces() ==> {
                &&& #[trigger] self.compiled_moves@[m]@[k]@.len() == self.row_size(k)
                &&& forall|v: int|
                    0 <= v < self.row_size(k) ==> 0 <= #[trigger] self.compiled_moves@[m]@[k]@[v]
                        < self.row_size(k)
            }
        &&& forall|k: int|
            0 <= k < self.num_pieces() ==> 0 <= #[trigger] self.solved_state@[k] < self.row_size(k)
        &&& self.allowed_moves@.len() == self.next_dfa_states@.len()
    }

    /// The state stored at each piece's compiled index can be read back as
    /// a state of the piece's orbit.
    pub open spec fn decodable(&self) -> bool {
        forall|i: int|
            0 <= i < self.num_pieces() ==> self.row_size(#[trigger] self.piece_index_map@[i] as int)
                <= self.orbits@[self.piece_orbit_map@[i] as int].states@.len()
    }
}

impl<T: Clone> Clone for OrbitDefinition<T> {
    fn clone(&self) -> (r: Self)
        ensures
            r.slice == self.slice,
            r.pieces@ == self.pieces@,
            r.states@.len() == self.states@.len(),
            forall|i: int|
                0 <= i < self.states@.len() ==> cloned::<T>(self.states@[i], #[trigger] r.states@[i]),
    {
        OrbitDefinition {
            slice: Range { start: self.slice.start, end: self.slice.end },
            pieces: self.pieces.clone(),
            states: self.states.clone(),
        }
    }
}

} // verus!
