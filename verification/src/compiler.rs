//! Compilation of a puzzle definition into lookup tables.

use std::fmt::Debug;
use vstd::prelude::*;
use vstd::std_specs::cmp::PartialEqSpec;

use crate::grouping::{
    concat, lemma_concat, lemma_concat_locate, lemma_members_disjoint, distinct, lemma_distinct, lemma_members, lemma_members_empty, lemma_offset_grow_one,
    lemma_offset_mono, lemma_offset_prefix, members, offset, seq_views,
};
use crate::reach::{
    append_new, bfs_complete, bfs_order, bfs_prefix, lemma_bfs_closed, lemma_bfs_found,
    lemma_bfs_order_is_prefix,
};
use crate::defs::{
    dfa_successors, eq_by_view, first_index, lemma_first_index, move_images, views, CompiledMove,
    CompiledPieceState, CompiledPuzzleDefinition, DfaEvaluator, Move, OrbitDefinition,
    PuzzleDefinition,
};


verus! {

/// Errors of the puzzle compiler.
#[derive(Debug)]
pub enum CompilerError<T> {
    /// A compiled piece state that is no index of the orbit's states.
    InvalidCompiledPieceState(i32),
    /// A piece state that is not among the orbit's states.
    InvalidPieceState(T),
}

/// Decodes a compiled piece state into the state it stands for in `orbit`.
pub fn decompile_state<T: Clone>(
    compiled_piece_state: CompiledPieceState,
    orbit: &OrbitDefinition<T>,
) -> (r: Result<T, CompilerError<T>>)
    ensures
        match r {
            Ok(state) => 0 <= compiled_piece_state < orbit.states@.len() && cloned::<T>(
                orbit.states@[compiled_piece_state as int],
                state,
            ),
            Err(e) => !(0 <= compiled_piece_state < orbit.states@.len())
                && e == CompilerError::<T>::InvalidCompiledPieceState(compiled_piece_state),
        },
{
    if compiled_piece_state < 0 {
        return Err(CompilerError::InvalidCompiledPieceState(compiled_piece_state));
    }
    let index = compiled_piece_state as usize;
    if index < orbit.states.len() {
        Ok(orbit.states[index].clone())
    } else {
        Err(CompilerError::InvalidCompiledPieceState(compiled_piece_state))
    }
}

/// Encodes a piece state as its position in `orbit`'s states (the first
/// position where it occurs).
pub fn compile_state<T: Clone + Eq + View>(piece_state: &T, orbit: &OrbitDefinition<T>) -> (r: Result<
    CompiledPieceState,
    CompilerError<T>,
>)
    requires
        eq_by_view::<T>(),
    ensures
        match r {
            Ok(index) => views(orbit.states@).contains(piece_state@) && index == first_index(
                views(orbit.states@),
                piece_state@,
            ) as i32,
            Err(e) => !views(orbit.states@).contains(piece_state@) && (e matches CompilerError::InvalidPieceState(s) && s@ == piece_state@),
        },
{
    let ghost states = views(orbit.states@);
    let mut index: usize = 0;
    while index < orbit.states.len()
        invariant
            eq_by_view::<T>(),
            states == views(orbit.states@),
            index <= orbit.states@.len(),
            forall|j: int| 0 <= j < index ==> states[j] != piece_state@,
        decreases orbit.states@.len() - index,
    {
        if orbit.states[index] == *piece_state {
            proof {
                assert(states[index as int] == piece_state@);
                lemma_first_index(states, piece_state@);
                let f = first_index(states, piece_state@);
                assert(f == index);
            }
            return Ok(index as i32);
        }
        index += 1;
    }
    let state = piece_state.clone();
    assert(cloned::<T>(*piece_state, state));
    Err(CompilerError::InvalidPieceState(state))
}

/// The position of the first element of `v` whose view is that of `x`.
pub(crate) fn index_of<T: Clone + Eq + View>(v: &Vec<T>, x: &T) -> (r: Option<usize>)
    requires
        eq_by_view::<T>(),
    ensures
        match r {
            Some(i) => views(v@).contains(x@) && i == first_index(views(v@), x@),
            None => !views(v@).contains(x@),
        },
{
    let ghost vs = views(v@);
    let mut i: usize = 0;
    while i < v.len()
        invariant
            eq_by_view::<T>(),
            vs == views(v@),
            i <= v@.len(),
            forall|j: int| 0 <= j < i ==> vs[j] != x@,
        decreases v@.len() - i,
    {
        if v[i] == *x {
            proof {
                assert(vs[i as int] == x@);
                lemma_first_index(vs, x@);
            }
            return Some(i);
        }
        i += 1;
    }
    None
}

/// Law: encoding and decoding undo each other. Decoding the code that
/// `compile_state` gives a state of the orbit gives that state back (by
/// view); where the orbit's states all differ (as in every compiled orbit),
/// encoding the state that `decompile_state` gives for a code in range gives
/// that code back.
pub proof fn lemma_state_round_trip<T: View>(orbit: OrbitDefinition<T>, s: T::V, i: int)
    ensures
        views(orbit.states@).contains(s) ==> 0 <= first_index(views(orbit.states@), s)
            < orbit.states@.len() && orbit.states@[first_index(views(orbit.states@), s)]@ == s,
        views(orbit.states@).no_duplicates() && 0 <= i < orbit.states@.len() ==> first_index(
            views(orbit.states@),
            orbit.states@[i]@,
        ) == i,
{
    let states = views(orbit.states@);
    if states.contains(s) {
        lemma_first_index(states, s);
    }
    if 0 <= i < orbit.states@.len() {
        assert(states[i] == orbit.states@[i]@);
        lemma_first_index(states, states[i]);
    }
}

/// Breadth-first search from `initial_state`, where `transform` gives the
/// successors of a state; returns the states found, each once, in the order
/// found.
fn bfs<T: Clone + Eq + View, F: Fn(&T) -> Vec<T>>(
    initial_state: T,
    transform: F,
    Ghost(succ): Ghost<spec_fn(T::V) -> Seq<T::V>>,
) -> (r: Vec<T>)
    requires
        eq_by_view::<T>(),
        forall|s: T| #[trigger] call_requires(transform, (&s,)),
        forall|s: T, out: Vec<T>| #[trigger] call_ensures(transform, (&s,), out) ==> views(out@) == succ(s@),
    ensures
        bfs_complete(initial_state@, succ, r@.len() as nat),
        views(r@) == bfs_order(initial_state@, succ),
{
    let ghost start = initial_state@;
    let mut visited: Vec<T> = Vec::new();
    visited.push(initial_state);
    assert(views(visited@) =~= seq![start]);
    let mut next: usize = 0;
    while next < visited.len()
        invariant
            eq_by_view::<T>(),
            forall|s: T| #[trigger] call_requires(transform, (&s,)),
            forall|s: T, out: Vec<T>| #[trigger] call_ensures(transform, (&s,), out) ==> views(out@) == succ(s@),
            next <= visited@.len() <= usize::MAX,
            views(visited@) == bfs_prefix(start, succ, next as nat),
        decreases 2 * (usize::MAX - visited@.len()) + (visited@.len() - next),
    {
        let new_states = transform(&visited[next]);
        let ghost base = views(visited@);
        let ghost ys = views(new_states@);
        assert(ys == succ(base[next as int]));
        let mut j: usize = 0;
        while j < new_states.len()
            invariant
                eq_by_view::<T>(),
                ys == views(new_states@),
                j <= new_states@.len(),
                base.len() <= visited@.len() <= usize::MAX,
                views(visited@) == append_new(base, ys.take(j as int)),
            decreases new_states@.len() - j,
        {
            assert(ys.take(j + 1).drop_last() =~= ys.take(j as int));
            match index_of(&visited, &new_states[j]) {
                Some(_) => {},
                None => {
                    let found = new_states[j].clone();
                    assert(cloned::<T>(new_states@[j as int], found));
                    let ghost before = visited@;
                    visited.push(found);
                    assert(visited@.len() == visited.len());
                    assert(views(visited@) =~= views(before).push(ys[j as int]));
                },
            }
            j += 1;
        }
        assert(ys.take(ys.len() as int) =~= ys);
        next += 1;
    }
    proof {
        lemma_bfs_order_is_prefix(start, succ, next as nat);
    }
    visited
}

/// The states a piece can reach from state `s` by the moves, in
/// breadth-first order.
pub open spec fn orbit_states<T: View, U: Move<T>>(moves: Seq<U>, s: T::V) -> Seq<T::V> {
    bfs_order(s, move_images::<T, U>(moves))
}

/// For each piece, the states it can reach from its solved state.
pub open spec fn piece_orbits<T: View, U: Move<T>>(moves: Seq<U>, solved: Seq<T>) -> Seq<Seq<T::V>> {
    Seq::new(solved.len(), |p: int| orbit_states::<T, U>(moves, solved[p]@))
}

/// The views of the elements of each vector.
pub open spec fn key_views<T: View>(keys: Seq<Vec<T>>) -> Seq<Seq<T::V>> {
    keys.map_values(|k: Vec<T>| views(k@))
}

/// The pieces of each orbit.
pub open spec fn pieces_of<T>(orbits: Seq<OrbitDefinition<T>>) -> Seq<Seq<i32>> {
    orbits.map_values(|o: OrbitDefinition<T>| o.pieces@)
}

/// The orbits of a puzzle: pieces whose searches from their solved states
/// find the same states, in the same order, share an orbit. Orbits come in
/// the order of their first piece; their pieces are ascending and take
/// consecutive compiled indices, orbit after orbit.
pub open spec fn orbits_layout<T: View, U: Move<T>>(
    moves: Seq<U>,
    solved: Seq<T>,
    orbits: Seq<OrbitDefinition<T>>,
    piece_orbit_map: Seq<i32>,
) -> bool {
    &&& forall|p: int|
        0 <= p < solved.len() ==> bfs_complete(
            solved[p]@,
            move_images::<T, U>(moves),
            #[trigger] piece_orbits::<T, U>(moves, solved)[p].len(),
        )
    &&& grouped_by_key(piece_orbits::<T, U>(moves, solved), orbits, piece_orbit_map)
}

/// `orbits` hold the distinct `keys` in order of first occurrence, each with
/// the indices of its occurrences, laid out one after another, and
/// `piece_orbit_map` gives the orbit of each index.
pub open spec fn grouped_by_key<T: View>(
    keys: Seq<Seq<T::V>>,
    orbits: Seq<OrbitDefinition<T>>,
    piece_orbit_map: Seq<i32>,
) -> bool {
    &&& orbits.len() == distinct(keys).len()
    &&& forall|j: int|
        0 <= j < orbits.len() ==> {
            &&& views(#[trigger] orbits[j].states@) == distinct(keys)[j]
            &&& orbits[j].pieces@ == members(keys, distinct(keys)[j], keys.len())
            &&& orbits[j].slice.start == offset(pieces_of(orbits), j)
            &&& orbits[j].slice.end == offset(pieces_of(orbits), j + 1)
        }
    &&& offset(pieces_of(orbits), orbits.len() as int) == keys.len()
    &&& piece_orbit_map.len() == keys.len()
    &&& forall|p: int| 0 <= p < keys.len() ==> #[trigger] in_orbit_of(distinct(keys), keys, piece_orbit_map, p)
}

/// Piece `p`'s orbit index is the position of its key among the groups.
pub open spec fn in_orbit_of<K>(groups: Seq<K>, keys: Seq<K>, piece_orbit_map: Seq<i32>, p: int) -> bool {
    &&& piece_orbit_map[p] == first_index(groups, keys[p]) as i32
    &&& 0 <= first_index(groups, keys[p]) < groups.len()
    &&& groups[first_index(groups, keys[p])] == keys[p]
}

/// The state a piece is in after each of `moves`.
fn apply_each_move<T: View, U: Move<T>>(moves: &Vec<U>, state: &T) -> (r: Vec<T>)
    ensures
        views(r@) == move_images::<T, U>(moves@)(state@),
{
    let mut r: Vec<T> = Vec::new();
    let mut i: usize = 0;
    while i < moves.len()
        invariant
            i <= moves@.len(),
            r@.len() == i,
            forall|j: int| 0 <= j < i ==> #[trigger] r@[j]@ == moves@[j].spec_apply(state@),
        decreases moves@.len() - i,
    {
        r.push(moves[i].apply(state));
        i += 1;
    }
    assert(views(r@) =~= move_images::<T, U>(moves@)(state@));
    r
}

/// Whether two vectors hold elements of equal views, in the same order.
fn same_views<T: Clone + Eq + View>(a: &Vec<T>, b: &Vec<T>) -> (r: bool)
    requires
        eq_by_view::<T>(),
    ensures
        r == (views(a@) == views(b@)),
{
    if a.len() != b.len() {
        assert(views(a@).len() != views(b@).len());
        return false;
    }
    let mut i: usize = 0;
    while i < a.len()
        invariant
            eq_by_view::<T>(),
            a@.len() == b@.len(),
            i <= a@.len(),
            forall|j: int| 0 <= j < i ==> a@[j]@ == b@[j]@,
        decreases a@.len() - i,
    {
        if a[i] != b[i] {
            assert(views(a@)[i as int] != views(b@)[i as int]);
            return false;
        }
        i += 1;
    }
    assert(views(a@) =~= views(b@));
    true
}

/// The position of the first of `keys` whose elements have the views of
/// `key`'s.
fn find_key<T: Clone + Eq + View>(keys: &Vec<Vec<T>>, key: &Vec<T>) -> (r: Option<usize>)
    requires
        eq_by_view::<T>(),
    ensures
        match r {
            Some(j) => j < keys@.len() && key_views(keys@)[j as int] == views(key@),
            None => !key_views(keys@).contains(views(key@)),
        },
{
    let mut j: usize = 0;
    while j < keys.len()
        invariant
            eq_by_view::<T>(),
            j <= keys@.len(),
            forall|i: int| 0 <= i < j ==> key_views(keys@)[i] != views(key@),
        decreases keys@.len() - j,
    {
        if same_views(&keys[j], key) {
            return Some(j);
        }
        j += 1;
    }
    None
}

#[verifier::spinoff_prover]
/// Groups the pieces into orbits; returns the orbits and, for each piece,
/// the index of its orbit.
fn find_orbits<T: Clone + Eq + View, U: Move<T>>(solved_state: &Vec<T>, moves: &Vec<U>) -> (r: (
    Vec<OrbitDefinition<T>>,
    Vec<i32>,
))
    requires
        eq_by_view::<T>(),
        solved_state@.len() <= i32::MAX,
    ensures
        orbits_layout::<T, U>(moves@, solved_state@, r.0@, r.1@),
{
    let n = solved_state.len();
    let ghost succ = move_images::<T, U>(moves@);
    let ghost keys = piece_orbits::<T, U>(moves@, solved_state@);
    let mut orbit_states: Vec<Vec<T>> = Vec::new();
    let mut orbit_pieces: Vec<Vec<i32>> = Vec::new();
    let mut p: usize = 0;
    while p < n
        invariant
            eq_by_view::<T>(),
            n == solved_state@.len() <= i32::MAX,
            p <= n,
            succ == move_images::<T, U>(moves@),
            keys == piece_orbits::<T, U>(moves@, solved_state@),
            key_views(orbit_states@) == distinct(keys.take(p as int)),
            orbit_pieces@.len() == orbit_states@.len(),
            forall|j: int|
                0 <= j < orbit_pieces@.len() ==> #[trigger] orbit_pieces@[j]@ == members(
                    keys,
                    key_views(orbit_states@)[j],
                    p as nat,
                ),
            offset(seq_views(orbit_pieces@), orbit_pieces@.len() as int) == p,
            forall|q: int| 0 <= q < p ==> bfs_complete(solved_state@[q]@, succ, #[trigger] keys[q].len()),
        decreases n - p,
    {
        let start = solved_state[p].clone();
        assert(cloned::<T>(solved_state@[p as int], start));
        let transform = |state: &T| -> (out: Vec<T>)
            ensures
                views(out@) == move_images::<T, U>(moves@)(state@),
            { apply_each_move(moves, state) };
        let visited = bfs(start, transform, Ghost(succ));
        assert(views(visited@) == keys[p as int]);
        let ghost old_states = key_views(orbit_states@);
        let ghost old_pieces = seq_views(orbit_pieces@);
        proof {
            lemma_distinct(keys.take(p as int));
            assert(keys.take(p + 1).drop_last() =~= keys.take(p as int));
            assert(keys.take(p + 1).last() == keys[p as int]);
        }
        match find_key(&orbit_states, &visited) {
            Some(j) => {
                orbit_pieces[j].push(p as i32);
                proof {
                    assert(key_views(orbit_states@) == distinct(keys.take(p + 1)));
                    assert(seq_views(orbit_pieces@) =~= old_pieces.update(
                        j as int,
                        old_pieces[j as int].push(p as i32),
                    ));
                    lemma_offset_grow_one(old_pieces, j as int, p as i32, old_pieces.len() as int);
                    assert forall|i: int| 0 <= i < orbit_pieces@.len() implies #[trigger] orbit_pieces@[i]@ == members(
                        keys,
                        key_views(orbit_states@)[i],
                        (p + 1) as nat,
                    ) by {
                        if i != j {
                            assert(old_states[i] != old_states[j as int]);
                        }
                    }
                }
            },
            None => {
                orbit_states.push(visited);
                let mut single: Vec<i32> = Vec::new();
                single.push(p as i32);
                orbit_pieces.push(single);
                proof {
                    assert(key_views(orbit_states@) =~= old_states.push(keys[p as int]));
                    assert(!keys.take(p as int).contains(keys[p as int]));
                    assert forall|q: int| 0 <= q < p implies keys[q] != keys[p as int] by {
                        assert(keys.take(p as int)[q] == keys[q]);
                    }
                    lemma_members_empty(keys, keys[p as int], p as nat);
                    assert(seq_views(orbit_pieces@) =~= old_pieces.push(seq![p as i32]));
                    lemma_offset_prefix(seq_views(orbit_pieces@), old_pieces, old_pieces.len() as int);
                    assert forall|i: int| 0 <= i < orbit_pieces@.len() implies #[trigger] orbit_pieces@[i]@ == members(
                        keys,
                        key_views(orbit_states@)[i],
                        (p + 1) as nat,
                    ) by {
                        if i < old_states.len() {
                            assert(old_states.contains(old_states[i]));
                        } else {
                            assert(orbit_pieces@[i]@ =~= seq![p as i32]);
                        }
                    }
                }
            },
        }
        p += 1;
    }
    proof {
        assert(keys.take(n as int) =~= keys);
        lemma_distinct(keys);
    }
    let ghost groups = distinct(keys);
    let ghost all_pieces = seq_views(orbit_pieces@);
    proof {
        assert forall|q: int| 0 <= q < n implies 0 <= #[trigger] first_index(groups, keys[q]) < groups.len() by {
            assert(keys.contains(keys[q]));
            lemma_first_index(groups, keys[q]);
        }
    }
    let mut piece_orbit_map: Vec<i32> = vec![0; n];
    let mut orbits: Vec<OrbitDefinition<T>> = Vec::new();
    let mut beginning: i32 = 0;
    let mut j: usize = 0;
    while j < orbit_states.len()
        invariant
            eq_by_view::<T>(),
            n == solved_state@.len() <= i32::MAX,
            keys == piece_orbits::<T, U>(moves@, solved_state@),
            groups == distinct(keys),
            groups.no_duplicates(),
            groups.len() <= n,
            forall|x: Seq<T::V>| #[trigger] groups.contains(x) <==> keys.contains(x),
            key_views(orbit_states@) == groups,
            all_pieces == seq_views(orbit_pieces@),
            all_pieces.len() == groups.len(),
            forall|i: int| 0 <= i < all_pieces.len() ==> #[trigger] all_pieces[i] == members(keys, groups[i], n as nat),
            offset(all_pieces, all_pieces.len() as int) == n,
            j <= groups.len(),
            orbits@.len() == j,
            beginning == offset(all_pieces, j as int),
            forall|i: int| 0 <= i < j ==> {
                &&& views(#[trigger] orbits@[i].states@) == groups[i]
                &&& orbits@[i].pieces@ == all_pieces[i]
                &&& orbits@[i].slice.start == offset(all_pieces, i)
                &&& orbits@[i].slice.end == offset(all_pieces, i + 1)
            },
            piece_orbit_map@.len() == n,
            forall|q: int| 0 <= q < n ==> 0 <= #[trigger] first_index(groups, keys[q]) < groups.len(),
            forall|q: int|
                0 <= q < n && first_index(groups, keys[q]) < j ==> #[trigger] piece_orbit_map@[q]
                    == first_index(groups, keys[q]) as i32,
        decreases groups.len() - j,
    {
        let pieces = orbit_pieces[j].clone();
        let states = orbit_states[j].clone();
        assert(views(states@) =~= groups[j as int]);
        proof {
            lemma_offset_mono(all_pieces, j + 1, all_pieces.len() as int);
            lemma_offset_mono(all_pieces, 0, j as int);
            lemma_members(keys, groups[j as int], n as nat);
        }
        let end = beginning + pieces.len() as i32;
        let mut k: usize = 0;
        while k < pieces.len()
            invariant
                n == solved_state@.len() <= i32::MAX,
                keys == piece_orbits::<T, U>(moves@, solved_state@),
                groups == distinct(keys),
                groups.no_duplicates(),
                groups.len() <= n,
                forall|x: Seq<T::V>| #[trigger] groups.contains(x) <==> keys.contains(x),
                j < groups.len(),
                pieces@ == members(keys, groups[j as int], n as nat),
                k <= pieces@.len(),
                piece_orbit_map@.len() == n,
                forall|q: int|
                    0 <= q < n && first_index(groups, keys[q]) < j ==> #[trigger] piece_orbit_map@[q]
                        == first_index(groups, keys[q]) as i32,
                forall|q: int|
                    0 <= q < n && pieces@.take(k as int).contains(q as i32) ==> #[trigger] piece_orbit_map@[q] == j as i32,
            decreases pieces@.len() - k,
        {
            let piece = pieces[k];
            proof {
                lemma_members(keys, groups[j as int], n as nat);
                assert(keys[piece as int] == groups[j as int]);
                assert(keys.contains(keys[piece as int]));
                lemma_first_index(groups, keys[piece as int]);
                assert(first_index(groups, keys[piece as int]) == j);
            }
            piece_orbit_map.set(piece as usize, j as i32);
            proof {
                assert forall|q: int|
                    0 <= q < n && first_index(groups, keys[q]) < j implies #[trigger] piece_orbit_map@[q]
                        == first_index(groups, keys[q]) as i32 by {
                    if q == piece {
                        assert(first_index(groups, keys[q]) == j);
                    }
                }
                assert forall|q: int|
                    0 <= q < n && pieces@.take(k + 1).contains(q as i32) implies #[trigger] piece_orbit_map@[q] == j as i32 by {
                    if q != piece {
                        let t = choose|t: int| 0 <= t < k + 1 && #[trigger] pieces@.take(k + 1)[t] == q as i32;
                        assert(pieces@.take(k as int)[t] == q as i32);
                    }
                }
            }
            k += 1;
        }
        proof {
            assert(pieces@.take(pieces@.len() as int) =~= pieces@);
            assert forall|q: int|
                0 <= q < n && first_index(groups, keys[q]) < j + 1 implies #[trigger] piece_orbit_map@[q]
                    == first_index(groups, keys[q]) as i32 by {
                if first_index(groups, keys[q]) == j {
                    assert(keys.contains(keys[q]));
                    lemma_first_index(groups, keys[q]);
                    lemma_members(keys, groups[j as int], n as nat);
                    assert(pieces@.contains(q as i32));
                }
            }
        }
        orbits.push(OrbitDefinition { slice: beginning..end, pieces, states });
        beginning = end;
        j += 1;
    }
    proof {
        assert forall|i: int| 0 <= i < all_pieces.len() implies #[trigger] pieces_of(orbits@)[i] == all_pieces[i] by {
            assert(views(orbits@[i].states@) == groups[i]);
        }
        assert(pieces_of(orbits@) =~= all_pieces);
        assert forall|p: int| 0 <= p < n implies #[trigger] in_orbit_of(groups, keys, piece_orbit_map@, p) by {
            assert(keys.contains(keys[p]));
            lemma_first_index(groups, keys[p]);
        }
        assert(offset(pieces_of(orbits@), orbits@.len() as int) == n);
        assert(orbits@.len() == groups.len());
        assert forall|q: int| 0 <= q < n implies bfs_complete(
            solved_state@[q]@,
            move_images::<T, U>(moves@),
            #[trigger] keys[q].len(),
        ) by {}
        assert forall|j: int| 0 <= j < orbits@.len() implies {
            &&& views(#[trigger] orbits@[j].states@) == distinct(keys)[j]
            &&& orbits@[j].pieces@ == members(keys, distinct(keys)[j], keys.len())
            &&& orbits@[j].slice.start == offset(pieces_of(orbits@), j)
            &&& orbits@[j].slice.end == offset(pieces_of(orbits@), j + 1)
        } by {
            assert(views(orbits@[j].states@) == groups[j]);
            assert(orbits@[j].pieces@ == all_pieces[j]);
        }
        assert(grouped_by_key(keys, orbits@, piece_orbit_map@));
    }
    (orbits, piece_orbit_map)
}

/// The indices, below `n`, of the moves allowed after automaton state `s`.
pub open spec fn allowed_moves_of<U, V: DfaEvaluator<U>>(moves: Seq<U>, s: V::V, n: nat) -> Seq<i32>
    decreases n,
{
    if n == 0 {
        seq![]
    } else {
        let prev = allowed_moves_of::<U, V>(moves, s, (n - 1) as nat);
        if V::spec_next(s, moves[n - 1]) is Some {
            prev.push((n - 1) as i32)
        } else {
            prev
        }
    }
}

/// For each move below `n` allowed after automaton state `s`, the position
/// in `order` of the state it leads to.
pub open spec fn next_states_of<U, V: DfaEvaluator<U>>(
    moves: Seq<U>,
    s: V::V,
    order: Seq<V::V>,
    n: nat,
) -> Seq<i32>
    decreases n,
{
    if n == 0 {
        seq![]
    } else {
        let prev = next_states_of::<U, V>(moves, s, order, (n - 1) as nat);
        match V::spec_next(s, moves[n - 1]) {
            Some(t) => prev.push(first_index(order, t) as i32),
            None => prev,
        }
    }
}

/// The automaton states reachable from `start`, in breadth-first order.
pub open spec fn dfa_states<U, V: DfaEvaluator<U>>(moves: Seq<U>, start: V::V) -> Seq<V::V> {
    bfs_order(start, dfa_successors::<U, V>(moves))
}

/// The automaton tables: for each automaton state reachable from `start`
/// (in breadth-first order), the indices of the moves allowed there and the
/// positions of the states they lead to.
pub open spec fn dfa_tables<U, V: DfaEvaluator<U>>(
    moves: Seq<U>,
    start: V::V,
    allowed_moves: Seq<Vec<i32>>,
    next_dfa_states: Seq<Vec<i32>>,
) -> bool {
    &&& bfs_complete(start, dfa_successors::<U, V>(moves), dfa_states::<U, V>(moves, start).len())
    &&& allowed_moves.len() == dfa_states::<U, V>(moves, start).len()
    &&& next_dfa_states.len() == allowed_moves.len()
    &&& forall|i: int|
        0 <= i < allowed_moves.len() ==> #[trigger] allowed_moves[i]@ == allowed_moves_of::<U, V>(
            moves,
            dfa_states::<U, V>(moves, start)[i],
            moves.len(),
        )
    &&& forall|i: int|
        0 <= i < next_dfa_states.len() ==> #[trigger] next_dfa_states[i]@ == next_states_of::<U, V>(
            moves,
            dfa_states::<U, V>(moves, start)[i],
            dfa_states::<U, V>(moves, start),
            moves.len(),
        )
}

/// An element of a sequence whose image under `f` is `Some` has that
/// image in the sequence's `filter_map`.
pub proof fn lemma_filter_map_contains<A, B>(s: Seq<A>, f: spec_fn(A) -> Option<B>, i: int)
    requires
        0 <= i < s.len(),
        f(s[i]) is Some,
    ensures
        s.filter_map(f).contains(f(s[i])->0),
    decreases s.len(),
{
    let rest = s.drop_last();
    if i < s.len() - 1 {
        lemma_filter_map_contains(rest, f, i);
        let k = choose|k: int| 0 <= k < rest.filter_map(f).len() && rest.filter_map(f)[k] == f(s[i])->0;
        match f(s.last()) {
            Some(t) => {
                assert(s.filter_map(f) == rest.filter_map(f) + seq![t]);
                assert(s.filter_map(f)[k] == f(s[i])->0);
            },
            None => {},
        }
    } else {
        let t = f(s.last())->0;
        assert(s.filter_map(f) == rest.filter_map(f) + seq![t]);
        assert(s.filter_map(f)[rest.filter_map(f).len() as int] == t);
    }
}

/// One row of the automaton tables, for the moves below `n`: ascending
/// indices of allowed moves, and for each the position of its next state.
proof fn lemma_dfa_row<U, V: DfaEvaluator<U>>(moves: Seq<U>, s: V::V, order: Seq<V::V>, n: nat)
    requires
        n <= moves.len() <= i32::MAX,
        order.len() <= i32::MAX + 1,
        forall|y: V::V| #[trigger] dfa_successors::<U, V>(moves)(s).contains(y) ==> order.contains(y),
    ensures
        next_states_of::<U, V>(moves, s, order, n).len() == allowed_moves_of::<U, V>(moves, s, n).len(),
        forall|j: int|
            0 <= j < allowed_moves_of::<U, V>(moves, s, n).len() ==> {
                let a = #[trigger] allowed_moves_of::<U, V>(moves, s, n)[j];
                &&& 0 <= a < n
                &&& V::spec_next(s, moves[a as int]) is Some
                &&& 0 <= next_states_of::<U, V>(moves, s, order, n)[j] < order.len()
                &&& order[next_states_of::<U, V>(moves, s, order, n)[j] as int] == V::spec_next(
                    s,
                    moves[a as int],
                )->0
            },
        forall|j: int, l: int|
            0 <= j < l < allowed_moves_of::<U, V>(moves, s, n).len() ==> #[trigger] allowed_moves_of::<
                U,
                V,
            >(moves, s, n)[j] < #[trigger] allowed_moves_of::<U, V>(moves, s, n)[l],
    decreases n,
{
    if n > 0 {
        let prev = (n - 1) as nat;
        lemma_dfa_row::<U, V>(moves, s, order, prev);
        let pa = allowed_moves_of::<U, V>(moves, s, prev);
        let pn = next_states_of::<U, V>(moves, s, order, prev);
        let ca = allowed_moves_of::<U, V>(moves, s, n);
        let cn = next_states_of::<U, V>(moves, s, order, n);
        match V::spec_next(s, moves[n - 1]) {
            Some(t) => {
                let f = |m: U| V::spec_next(s, m);
                lemma_filter_map_contains(moves, f, n - 1);
                assert(dfa_successors::<U, V>(moves)(s).contains(t));
                lemma_first_index(order, t);
                assert(ca == pa.push((n - 1) as i32));
                assert(cn == pn.push(first_index(order, t) as i32));
                assert forall|j: int| 0 <= j < ca.len() implies {
                    let a = #[trigger] ca[j];
                    &&& 0 <= a < n
                    &&& V::spec_next(s, moves[a as int]) is Some
                    &&& 0 <= cn[j] < order.len()
                    &&& order[cn[j] as int] == V::spec_next(s, moves[a as int])->0
                } by {
                    if j < pa.len() {
                        assert(ca[j] == pa[j]);
                        assert(cn[j] == pn[j]);
                    }
                }
                assert forall|j: int, l: int| 0 <= j < l < ca.len() implies #[trigger] ca[j] < #[trigger] ca[l] by {
                    assert(ca[j] == pa[j]);
                    if l < pa.len() {
                        assert(ca[l] == pa[l]);
                    }
                }
            },
            None => {},
        }
    }
}

/// Law: following the automaton tables is following the automaton: in the
/// row of each automaton state, the allowed moves are ascending move
/// indices, each with one next state, and that next state is a state of the
/// tables, the one the move leads to (where the states can be numbered by
/// `i32`).
pub proof fn lemma_dfa_tables_follow<U, V: DfaEvaluator<U>>(
    moves: Seq<U>,
    start: V::V,
    allowed_moves: Seq<Vec<i32>>,
    next_dfa_states: Seq<Vec<i32>>,
    d: int,
)
    requires
        dfa_tables::<U, V>(moves, start, allowed_moves, next_dfa_states),
        moves.len() <= i32::MAX,
        dfa_states::<U, V>(moves, start).len() <= i32::MAX + 1,
        0 <= d < allowed_moves.len(),
    ensures
        next_dfa_states[d]@.len() == allowed_moves[d]@.len(),
        forall|j: int| 0 <= j < allowed_moves[d]@.len() ==> {
            let a = #[trigger] allowed_moves[d]@[j];
            &&& 0 <= a < moves.len()
            &&& V::spec_next(dfa_states::<U, V>(moves, start)[d], moves[a as int]) is Some
            &&& 0 <= next_dfa_states[d]@[j] < next_dfa_states.len()
            &&& dfa_states::<U, V>(moves, start)[next_dfa_states[d]@[j] as int] == V::spec_next(
                dfa_states::<U, V>(moves, start)[d],
                moves[a as int],
            )->0
        },
        forall|j: int, l: int|
            0 <= j < l < allowed_moves[d]@.len() ==> #[trigger] allowed_moves[d]@[j]
                < #[trigger] allowed_moves[d]@[l],
{
    let succ = dfa_successors::<U, V>(moves);
    let order = dfa_states::<U, V>(moves, start);
    lemma_bfs_closed(start, succ, order.len());
    assert forall|y: V::V| #[trigger] succ(order[d]).contains(y) implies order.contains(y) by {}
    lemma_dfa_row::<U, V>(moves, order[d], order, moves.len());
}

/// The allowed moves below `n` are exactly those the automaton allows, each
/// below `n`.
proof fn lemma_allowed_moves_exact<U, V: DfaEvaluator<U>>(moves: Seq<U>, s: V::V, n: nat)
    requires
        n <= moves.len(),
        moves.len() <= i32::MAX + 1,
    ensures
        forall|j: int|
            0 <= j < allowed_moves_of::<U, V>(moves, s, n).len() ==> 0 <= #[trigger] allowed_moves_of::<
                U,
                V,
            >(moves, s, n)[j] < n,
        forall|a: int|
            0 <= a < n ==> (V::spec_next(s, #[trigger] moves[a]) is Some <==> allowed_moves_of::<U, V>(
                moves,
                s,
                n,
            ).contains(a as i32)),
    decreases n,
{
    if n > 0 {
        let prev = allowed_moves_of::<U, V>(moves, s, (n - 1) as nat);
        let cur = allowed_moves_of::<U, V>(moves, s, n);
        lemma_allowed_moves_exact::<U, V>(moves, s, (n - 1) as nat);
        assert forall|a: int| 0 <= a < n implies (V::spec_next(s, #[trigger] moves[a]) is Some
            <==> cur.contains(a as i32)) by {
            if V::spec_next(s, moves[n - 1]) is Some {
                assert(cur == prev.push((n - 1) as i32));
                if a < n - 1 {
                    if cur.contains(a as i32) {
                        let j = choose|j: int| 0 <= j < cur.len() && cur[j] == a as i32;
                        if j < prev.len() {
                            assert(prev[j] == a as i32);
                        }
                    }
                    if prev.contains(a as i32) {
                        let j = choose|j: int| 0 <= j < prev.len() && prev[j] == a as i32;
                        assert(cur[j] == a as i32);
                    }
                } else {
                    assert(cur[prev.len() as int] == a as i32);
                }
            } else {
                if a == n - 1 && prev.contains(a as i32) {
                    let j = choose|j: int| 0 <= j < prev.len() && prev[j] == a as i32;
                    assert(prev[j] < n - 1);
                }
            }
        }
    }
}

/// Law: the automaton tables are complete: in the row of each automaton
/// state, a move's index is listed exactly where the automaton allows the
/// move from that state.
pub proof fn lemma_dfa_tables_complete<U, V: DfaEvaluator<U>>(
    moves: Seq<U>,
    start: V::V,
    allowed_moves: Seq<Vec<i32>>,
    next_dfa_states: Seq<Vec<i32>>,
    d: int,
)
    requires
        dfa_tables::<U, V>(moves, start, allowed_moves, next_dfa_states),
        moves.len() <= i32::MAX + 1,
        0 <= d < allowed_moves.len(),
    ensures
        forall|a: int|
            0 <= a < moves.len() ==> (V::spec_next(dfa_states::<U, V>(moves, start)[d], #[trigger] moves[a])
                is Some <==> allowed_moves[d]@.contains(a as i32)),
{
    lemma_allowed_moves_exact::<U, V>(moves, dfa_states::<U, V>(moves, start)[d], moves.len());
}

/// The automaton states that follow `state` by the allowed moves.
fn dfa_successors_of<U, V: DfaEvaluator<U>>(moves: &Vec<U>, state: &V) -> (r: Vec<V>)
    ensures
        views(r@) == dfa_successors::<U, V>(moves@)(state@),
{
    let ghost f = |m: U| V::spec_next(state@, m);
    let mut r: Vec<V> = Vec::new();
    let mut i: usize = 0;
    while i < moves.len()
        invariant
            i <= moves@.len(),
            f == (|m: U| V::spec_next(state@, m)),
            views(r@) == moves@.take(i as int).filter_map(f),
        decreases moves@.len() - i,
    {
        let ghost before = views(r@);
        assert(moves@.take(i + 1).drop_last() =~= moves@.take(i as int));
        assert(moves@.take(i + 1).last() == moves@[i as int]);
        match state.next(&moves[i]) {
            Some(n) => {
                r.push(n);
                assert(views(r@) =~= before + seq![n@]);
            },
            None => {},
        }
        i += 1;
    }
    assert(moves@.take(moves@.len() as int) =~= moves@);
    r
}

/// For each automaton state reachable from `dfa_start` (in breadth-first
/// order): the indices of the moves allowed there, and the positions of the
/// states these moves lead to.
fn find_dfa_masks<U, V: DfaEvaluator<U> + Clone + Eq>(dfa_start: V, moves: &Vec<U>) -> (r: (
    Vec<Vec<i32>>,
    Vec<Vec<i32>>,
))
    requires
        eq_by_view::<V>(),
    ensures
        dfa_tables::<U, V>(moves@, dfa_start@, r.0@, r.1@),
{
    let ghost succ = dfa_successors::<U, V>(moves@);
    let ghost start = dfa_start@;
    let transform = |state: &V| -> (out: Vec<V>)
        ensures
            views(out@) == dfa_successors::<U, V>(moves@)(state@),
        { dfa_successors_of(moves, state) };
    let states = bfs(dfa_start, transform, Ghost(succ));
    let ghost order = views(states@);
    proof {
        crate::reach::lemma_bfs_closed(start, succ, states@.len() as nat);
    }
    let mut allowed_moves: Vec<Vec<i32>> = Vec::new();
    let mut next_dfa_states: Vec<Vec<i32>> = Vec::new();
    let mut i: usize = 0;
    while i < states.len()
        invariant
            eq_by_view::<V>(),
            succ == dfa_successors::<U, V>(moves@),
            order == views(states@),
            order == dfa_states::<U, V>(moves@, start),
            forall|a: int, y: V::V|
                0 <= a < order.len() && #[trigger] succ(order[a]).contains(y) ==> order.contains(y),
            i <= states@.len(),
            allowed_moves@.len() == i,
            next_dfa_states@.len() == i,
            forall|a: int|
                0 <= a < i ==> #[trigger] allowed_moves@[a]@ == allowed_moves_of::<U, V>(
                    moves@,
                    order[a],
                    moves@.len(),
                ),
            forall|a: int|
                0 <= a < i ==> #[trigger] next_dfa_states@[a]@ == next_states_of::<U, V>(
                    moves@,
                    order[a],
                    order,
                    moves@.len(),
                ),
        decreases states@.len() - i,
    {
        let mut mask: Vec<i32> = Vec::new();
        let mut next_states: Vec<i32> = Vec::new();
        let mut m: usize = 0;
        while m < moves.len()
            invariant
                eq_by_view::<V>(),
                succ == dfa_successors::<U, V>(moves@),
                order == views(states@),
                forall|a: int, y: V::V|
                    0 <= a < order.len() && #[trigger] succ(order[a]).contains(y) ==> order.contains(y),
                i < states@.len(),
                m <= moves@.len(),
                mask@ == allowed_moves_of::<U, V>(moves@, order[i as int], m as nat),
                next_states@ == next_states_of::<U, V>(moves@, order[i as int], order, m as nat),
            decreases moves@.len() - m,
        {
            match states[i].next(&moves[m]) {
                Some(next_state) => {
                    proof {
                        let f = |mv: U| V::spec_next(order[i as int], mv);
                        lemma_filter_map_contains(moves@, f, m as int);
                        assert(succ(order[i as int]).contains(next_state@));
                    }
                    let index = index_of(&states, &next_state);
                    let index = index.expect("every automaton state that a move leads to was found");
                    mask.push(m as i32);
                    next_states.push(index as i32);
                },
                None => {},
            }
            m += 1;
        }
        allowed_moves.push(mask);
        next_dfa_states.push(next_states);
        i += 1;
    }
    assert(order == dfa_states::<U, V>(moves@, start));
    assert(dfa_tables::<U, V>(moves@, start, allowed_moves@, next_dfa_states@));
    (allowed_moves, next_dfa_states)
}

/// Every state of `states` is taken by move `m` to a state of `states`.
pub open spec fn row_closed<T: View, U: Move<T>>(m: U, states: Seq<T::V>) -> bool {
    forall|j: int| 0 <= j < states.len() ==> states.contains(#[trigger] m.spec_apply(states[j]))
}

/// The table of move `m` on `states`: for each position, the position of
/// the state the move leads to.
pub open spec fn compiled_row<T: View, U: Move<T>>(m: U, states: Seq<T::V>) -> Seq<i32> {
    Seq::new(states.len(), |j: int| first_index(states, m.spec_apply(states[j])) as i32)
}

/// The states of the orbit of piece `pieces[k]`.
pub open spec fn row_states<T: View>(
    orbits: Seq<OrbitDefinition<T>>,
    orbit_map: Seq<i32>,
    pieces: Seq<i32>,
    k: int,
) -> Seq<T::V> {
    views(orbits[orbit_map[pieces[k] as int] as int].states@)
}

/// State `j` of the row for compiled index `k` is the first, rows in order
/// and states in order, that move `m` takes out of its row's states.
pub open spec fn first_escape<T: View, U: Move<T>>(
    m: U,
    orbits: Seq<OrbitDefinition<T>>,
    orbit_map: Seq<i32>,
    pieces: Seq<i32>,
    k: int,
    j: int,
) -> bool {
    let states = row_states(orbits, orbit_map, pieces, k);
    &&& 0 <= k < pieces.len()
    &&& 0 <= j < states.len()
    &&& forall|a: int| 0 <= a < k ==> #[trigger] row_closed::<T, U>(m, row_states(orbits, orbit_map, pieces, a))
    &&& forall|i: int| 0 <= i < j ==> states.contains(#[trigger] m.spec_apply(states[i]))
    &&& !states.contains(m.spec_apply(states[j]))
}

/// Compiles a move: for each piece of `index_piece_map`, in order, the table
/// of the move on the states of the piece's orbit.
fn compile_move<T: Debug + Clone + Eq + View, U: Move<T>>(
    move_: &U,
    orbits: &Vec<OrbitDefinition<T>>,
    orbit_map: &Vec<i32>,
    index_piece_map: &Vec<i32>,
) -> (r: Result<CompiledMove, CompilerError<T>>)
    requires
        eq_by_view::<T>(),
        forall|k: int|
            0 <= k < index_piece_map@.len() ==> 0 <= #[trigger] index_piece_map@[k]
                < orbit_map@.len(),
        forall|i: int| 0 <= i < orbit_map@.len() ==> 0 <= #[trigger] orbit_map@[i] < orbits@.len(),
        forall|o: int| 0 <= o < orbits@.len() ==> #[trigger] orbits@[o].states@.len() <= i32::MAX + 1,
    ensures
        r is Ok <==> forall|k: int|
            0 <= k < index_piece_map@.len() ==> #[trigger] row_closed::<T, U>(
                *move_,
                row_states(orbits@, orbit_map@, index_piece_map@, k),
            ),
        r matches Ok(t) ==> t@.len() == index_piece_map@.len() && forall|k: int|
            0 <= k < index_piece_map@.len() ==> #[trigger] t@[k]@ == compiled_row::<T, U>(
                *move_,
                row_states(orbits@, orbit_map@, index_piece_map@, k),
            ),
        r matches Err(e) ==> e matches CompilerError::InvalidPieceState(s) && exists|k: int, j: int|
            #[trigger] first_escape::<T, U>(*move_, orbits@, orbit_map@, index_piece_map@, k, j) && s@
                == move_.spec_apply(row_states(orbits@, orbit_map@, index_piece_map@, k)[j]),
{
    let mut transform: Vec<Vec<i32>> = Vec::new();
    let mut k: usize = 0;
    while k < index_piece_map.len()
        invariant
            eq_by_view::<T>(),
            forall|k: int|
                0 <= k < index_piece_map@.len() ==> 0 <= #[trigger] index_piece_map@[k]
                    < orbit_map@.len(),
            forall|i: int| 0 <= i < orbit_map@.len() ==> 0 <= #[trigger] orbit_map@[i] < orbits@.len(),
            forall|o: int| 0 <= o < orbits@.len() ==> #[trigger] orbits@[o].states@.len() <= i32::MAX + 1,
            k <= index_piece_map@.len(),
            transform@.len() == k,
            forall|a: int|
                0 <= a < k ==> #[trigger] row_closed::<T, U>(
                    *move_,
                    row_states(orbits@, orbit_map@, index_piece_map@, a),
                ) && transform@[a]@ == compiled_row::<T, U>(
                    *move_,
                    row_states(orbits@, orbit_map@, index_piece_map@, a),
                ),
        decreases index_piece_map@.len() - k,
    {
        let piece_id = index_piece_map[k];
        let orbit = &orbits[orbit_map[piece_id as usize] as usize];
        let ghost states = row_states(orbits@, orbit_map@, index_piece_map@, k as int);
        assert(states == views(orbit.states@));
        let mut row: Vec<i32> = Vec::new();
        let mut s: usize = 0;
        while s < orbit.states.len()
            invariant
                eq_by_view::<T>(),
                k < index_piece_map@.len(),
                states == row_states(orbits@, orbit_map@, index_piece_map@, k as int),
                states == views(orbit.states@),
                orbit.states@.len() <= i32::MAX + 1,
                s <= orbit.states@.len(),
                row@.len() == s,
                forall|a: int|
                    0 <= a < k ==> #[trigger] row_closed::<T, U>(
                        *move_,
                        row_states(orbits@, orbit_map@, index_piece_map@, a),
                    ),
                forall|j: int| 0 <= j < s ==> states.contains(#[trigger] move_.spec_apply(states[j])),
                forall|j: int|
                    0 <= j < s ==> #[trigger] row@[j] == first_index(states, move_.spec_apply(states[j])) as i32,
            decreases orbit.states@.len() - s,
        {
            let piece_state = decompile_state(s as i32, orbit).expect(
                "all compiled piece states from 0 to total states should be valid",
            );
            let new_piece_state = move_.apply(&piece_state);
            assert(new_piece_state@ == move_.spec_apply(states[s as int]));
            match compile_state(&new_piece_state, orbit) {
                Ok(compiled) => row.push(compiled),
                Err(e) => {
                    assert(0 <= k < index_piece_map@.len());
                    assert(e matches CompilerError::InvalidPieceState(x) && x@ == move_.spec_apply(
                        row_states(orbits@, orbit_map@, index_piece_map@, k as int)[s as int],
                    ));
                    assert(!row_closed::<T, U>(*move_, states));
                    assert(first_escape::<T, U>(
                        *move_,
                        orbits@,
                        orbit_map@,
                        index_piece_map@,
                        k as int,
                        s as int,
                    ));
                    return Err(e);
                },
            }
            s += 1;
        }
        assert(row@ =~= compiled_row::<T, U>(*move_, states));
        transform.push(row);
        k += 1;
    }
    assert forall|a: int| 0 <= a < index_piece_map@.len() implies #[trigger] transform@[a]@
        == compiled_row::<T, U>(*move_, row_states(orbits@, orbit_map@, index_piece_map@, a)) by {
        assert(row_closed::<T, U>(*move_, row_states(orbits@, orbit_map@, index_piece_map@, a)));
    }
    Ok(transform)
}

/// `piece_index_map` and `index_piece_map` are inverse permutations.
pub open spec fn inverse_maps(index_piece_map: Seq<i32>, piece_index_map: Seq<i32>) -> bool {
    &&& index_piece_map.len() == piece_index_map.len()
    &&& forall|k: int|
        0 <= k < index_piece_map.len() ==> 0 <= #[trigger] index_piece_map[k]
            < index_piece_map.len() && piece_index_map[index_piece_map[k] as int] == k
    &&& forall|p: int|
        0 <= p < piece_index_map.len() ==> 0 <= #[trigger] piece_index_map[p]
            < piece_index_map.len() && index_piece_map[piece_index_map[p] as int] == p
}

/// The orbits' pieces, laid out one after another, are each piece once.
proof fn lemma_index_piece_map<T: View>(
    keys: Seq<Seq<T::V>>,
    orbits: Seq<OrbitDefinition<T>>,
    piece_orbit_map: Seq<i32>,
)
    requires
        grouped_by_key(keys, orbits, piece_orbit_map),
        keys.len() <= i32::MAX,
    ensures
        concat(pieces_of(orbits)).len() == keys.len(),
        concat(pieces_of(orbits)).no_duplicates(),
        forall|k: int|
            0 <= k < keys.len() ==> 0 <= #[trigger] concat(pieces_of(orbits))[k] < keys.len(),
        forall|p: int|
            #![trigger concat(pieces_of(orbits)).contains(p as i32)]
            0 <= p < keys.len() ==> concat(pieces_of(orbits)).contains(p as i32),
{
    let n = keys.len();
    let groups = pieces_of(orbits);
    let ipm = concat(groups);
    let dk = distinct(keys);
    lemma_concat(groups);
    lemma_distinct(keys);
    assert(groups.len() == orbits.len());
    assert forall|j: int| 0 <= j < groups.len() implies #[trigger] groups[j] == members(keys, dk[j], n) by {
        assert(views(orbits[j].states@) == dk[j]);
    }
    assert forall|k: int| 0 <= k < n implies 0 <= #[trigger] ipm[k] < n by {
        let (g, r) = lemma_concat_locate(groups, k);
        lemma_members(keys, dk[g], n);
        assert(ipm[offset(groups, g) + r] == groups[g][r]);
    }
    assert forall|a: int, b: int| 0 <= a < n && 0 <= b < n && a != b implies ipm[a] != ipm[b] by {
        let (g1, r1) = lemma_concat_locate(groups, a);
        let (g2, r2) = lemma_concat_locate(groups, b);
        assert(ipm[offset(groups, g1) + r1] == groups[g1][r1]);
        assert(ipm[offset(groups, g2) + r2] == groups[g2][r2]);
        if g1 == g2 {
            lemma_members(keys, dk[g1], n);
            if r1 < r2 {
                assert(groups[g1][r1] < groups[g1][r2]);
            } else {
                assert(groups[g1][r2] < groups[g1][r1]);
            }
        } else {
            assert(dk[g1] != dk[g2]);
            lemma_members_disjoint(keys, dk[g1], dk[g2], n, r1, r2);
        }
    }
    assert forall|p: int| #![trigger ipm.contains(p as i32)] 0 <= p < n implies ipm.contains(p as i32) by {
        assert(in_orbit_of(dk, keys, piece_orbit_map, p));
        let g = first_index(dk, keys[p]);
        lemma_members(keys, dk[g], n);
        assert(groups[g].contains(p as i32));
        let r = choose|r: int| 0 <= r < groups[g].len() && groups[g][r] == p as i32;
        lemma_offset_mono(groups, g + 1, groups.len() as int);
        lemma_offset_mono(groups, 0, g);
        assert(ipm[offset(groups, g) + r] == p as i32);
    }
}

/// Every move takes the states a piece reaches to states it reaches.
proof fn lemma_orbit_closed<T: View, U: Move<T>>(moves: Seq<U>, s: T::V, len: nat, m: int)
    requires
        bfs_complete(s, move_images::<T, U>(moves), len),
        0 <= m < moves.len(),
    ensures
        row_closed::<T, U>(moves[m], orbit_states::<T, U>(moves, s)),
{
    let succ = move_images::<T, U>(moves);
    lemma_bfs_closed(s, succ, len);
    lemma_bfs_order_is_prefix(s, succ, len);
    let order = orbit_states::<T, U>(moves, s);
    assert forall|j: int| 0 <= j < order.len() implies order.contains(
        #[trigger] moves[m].spec_apply(order[j]),
    ) by {
        assert(succ(order[j])[m] == moves[m].spec_apply(order[j]));
        assert(succ(order[j]).contains(moves[m].spec_apply(order[j])));
    }
}

/// What compiling a puzzle gives: the moves as given, the orbits, the
/// compiled index of each piece (the inverse of the orbits' pieces laid out
/// one after another), for each move and compiled index `k` the table of
/// the move on the orbit of piece `piece_index_map[k]`, the solved state
/// (every piece at the first state of its orbit), and the automaton tables.
pub open spec fn compiled_from<T: View, U: Move<T>, V: DfaEvaluator<U>>(
    moves: Seq<U>,
    solved: Seq<T>,
    dfa_start: V::V,
    c: CompiledPuzzleDefinition<T, U>,
) -> bool {
    &&& c.moves@ == moves
    &&& solved.len() <= i32::MAX
    &&& c.piece_index_map@.len() == solved.len()
    &&& orbits_layout::<T, U>(moves, solved, c.orbits@, c.piece_orbit_map@)
    &&& inverse_maps(concat(pieces_of(c.orbits@)), c.piece_index_map@)
    &&& c.compiled_moves@.len() == moves.len()
    &&& forall|m: int|
        0 <= m < moves.len() ==> #[trigger] c.compiled_moves@[m]@.len() == solved.len()
    &&& forall|m: int, k: int|
        0 <= m < moves.len() && 0 <= k < solved.len() ==> #[trigger] c.compiled_moves@[m]@[k]@
            == compiled_row::<T, U>(
            moves[m],
            row_states(c.orbits@, c.piece_orbit_map@, c.piece_index_map@, k),
        )
    &&& c.solved_state@ == Seq::new(solved.len(), |p: int| 0i32)
    &&& forall|o: int| 0 <= o < c.orbits@.len() ==> #[trigger] c.orbits@[o].states@.len() <= i32::MAX + 1
    &&& dfa_tables::<U, V>(moves, dfa_start, c.allowed_moves@, c.next_dfa_states@)
}

impl<T: Debug + Clone + Eq + View, U: Clone + Move<T>> CompiledPuzzleDefinition<T, U> {
    /// Compiles a puzzle. The searches for the orbits and for the automaton
    /// states must end, and an orbit's states must be numbered by `i32`.
    #[verifier::spinoff_prover]
    #[verifier::rlimit(30)]
    pub fn try_from<V: DfaEvaluator<U> + Clone + Eq>(puzzle: PuzzleDefinition<T, U, V>) -> (r: Result<
        Self,
        CompilerError<T>,
    >)
        requires
            eq_by_view::<T>(),
            eq_by_view::<V>(),
            puzzle.solved_state@.len() <= i32::MAX,
            forall|p: int|
                0 <= p < puzzle.solved_state@.len() ==> #[trigger] orbit_states::<T, U>(
                    puzzle.moves@,
                    puzzle.solved_state@[p]@,
                ).len() <= i32::MAX + 1,
        ensures
            r matches Ok(c) && c.wf() && compiled_from::<T, U, V>(
                puzzle.moves@,
                puzzle.solved_state@,
                puzzle.dfa_start@,
                c,
            ),
    {
        let PuzzleDefinition { moves, solved_state, dfa_start } = puzzle;
        let ghost n = solved_state@.len();
        let ghost keys = piece_orbits::<T, U>(moves@, solved_state@);
        let ghost dk = distinct(keys);
        let (orbits, piece_orbit_map) = find_orbits(&solved_state, &moves);
        proof {
            lemma_index_piece_map(keys, orbits@, piece_orbit_map@);
            lemma_distinct(keys);
            assert forall|o: int| 0 <= o < orbits@.len() implies #[trigger] orbits@[o].states@.len()
                <= i32::MAX + 1 by {
                assert(views(orbits@[o].states@) == dk[o]);
                assert(dk.contains(dk[o]));
                let p = choose|p: int| 0 <= p < keys.len() && keys[p] == dk[o];
                assert(orbit_states::<T, U>(moves@, solved_state@[p]@) == keys[p]);
            }
            assert forall|p: int| 0 <= p < n implies 0 <= #[trigger] piece_orbit_map@[p] < orbits@.len() by {
                assert(in_orbit_of(dk, keys, piece_orbit_map@, p));
            }
        }
        let ghost groups = pieces_of(orbits@);
        let mut index_piece_map: Vec<i32> = Vec::new();
        let mut j: usize = 0;
        while j < orbits.len()
            invariant
                groups == pieces_of(orbits@),
                j <= orbits@.len(),
                index_piece_map@ == concat(groups.take(j as int)),
            decreases orbits@.len() - j,
        {
            let pieces = &orbits[j].pieces;
            let ghost before = index_piece_map@;
            let mut k: usize = 0;
            while k < pieces.len()
                invariant
                    k <= pieces@.len(),
                    index_piece_map@ == before + pieces@.take(k as int),
                decreases pieces@.len() - k,
            {
                index_piece_map.push(pieces[k]);
                assert(before + pieces@.take(k + 1) =~= (before + pieces@.take(k as int)).push(pieces@[k as int]));
                k += 1;
            }
            assert(pieces@.take(pieces@.len() as int) =~= pieces@);
            assert(groups.take(j + 1).drop_last() =~= groups.take(j as int));
            j += 1;
        }
        assert(groups.take(groups.len() as int) =~= groups);
        let ghost ipm = index_piece_map@;
        let len = index_piece_map.len();
        let mut piece_index_map: Vec<i32> = vec![0; len];
        let mut k: usize = 0;
        while k < len
            invariant
                len == n == ipm.len() <= i32::MAX,
                ipm == index_piece_map@,
                ipm.no_duplicates(),
                forall|a: int| 0 <= a < n ==> 0 <= #[trigger] ipm[a] < n,
                piece_index_map@.len() == n,
                k <= n,
                forall|a: int| 0 <= a < k ==> #[trigger] piece_index_map@[ipm[a] as int] == a,
            decreases n - k,
        {
            piece_index_map.set(index_piece_map[k] as usize, k as i32);
            assert forall|a: int| 0 <= a < k + 1 implies #[trigger] piece_index_map@[ipm[a] as int] == a by {
                if a < k {
                    assert(ipm[a] != ipm[k as int]);
                }
            }
            k += 1;
        }
        proof {
            assert forall|p: int| 0 <= p < n implies 0 <= #[trigger] piece_index_map@[p] < n
                && ipm[piece_index_map@[p] as int] == p by {
                assert(ipm.contains(p as i32));
                let a = choose|a: int| 0 <= a < n && ipm[a] == p as i32;
                assert(piece_index_map@[ipm[a] as int] == a);
            }
            assert(inverse_maps(ipm, piece_index_map@));
        }
        let mut compiled_moves: Vec<CompiledMove> = Vec::new();
        let mut m: usize = 0;
        while m < moves.len()
            invariant
                eq_by_view::<T>(),
                n == solved_state@.len() <= i32::MAX,
                keys == piece_orbits::<T, U>(moves@, solved_state@),
                dk == distinct(keys),
                dk.len() <= n,
                orbits_layout::<T, U>(moves@, solved_state@, orbits@, piece_orbit_map@),
                forall|o: int| 0 <= o < orbits@.len() ==> #[trigger] orbits@[o].states@.len() <= i32::MAX + 1,
                forall|p: int| 0 <= p < n ==> 0 <= #[trigger] piece_orbit_map@[p] < orbits@.len(),
                piece_orbit_map@.len() == n,
                piece_index_map@.len() == n,
                forall|p: int| 0 <= p < n ==> 0 <= #[trigger] piece_index_map@[p] < n,
                m <= moves@.len(),
                compiled_moves@.len() == m,
                forall|a: int| 0 <= a < m ==> #[trigger] compiled_moves@[a]@.len() == n,
                forall|a: int, k: int|
                    0 <= a < m && 0 <= k < n ==> #[trigger] compiled_moves@[a]@[k]@
                        == compiled_row::<T, U>(
                        moves@[a],
                        row_states(orbits@, piece_orbit_map@, piece_index_map@, k),
                    ),
                forall|a: int, k: int|
                    0 <= a < m && 0 <= k < n ==> #[trigger] row_closed::<T, U>(
                        moves@[a],
                        row_states(orbits@, piece_orbit_map@, piece_index_map@, k),
                    ),
            decreases moves@.len() - m,
        {
            proof {
                assert forall|k: int| 0 <= k < n implies #[trigger] row_closed::<T, U>(
                    moves@[m as int],
                    row_states(orbits@, piece_orbit_map@, piece_index_map@, k),
                ) by {
                    let q = piece_index_map@[k] as int;
                    assert(in_orbit_of(dk, keys, piece_orbit_map@, q));
                    let g = first_index(dk, keys[q]);
                    assert(piece_orbit_map@[q] as int == g);
                    assert(views(orbits@[g].states@) == dk[g]);
                    assert(row_states(orbits@, piece_orbit_map@, piece_index_map@, k) == keys[q]);
                    assert(bfs_complete(solved_state@[q]@, move_images::<T, U>(moves@), keys[q].len()));
                    lemma_orbit_closed::<T, U>(moves@, solved_state@[q]@, keys[q].len(), m as int);
                }
            }
            match compile_move(&moves[m], &orbits, &piece_orbit_map, &piece_index_map) {
                Ok(table) => compiled_moves.push(table),
                Err(e) => return Err(e),
            }
            m += 1;
        }
        let mut compiled_solved_state: Vec<CompiledPieceState> = Vec::new();
        let mut p: usize = 0;
        while p < solved_state.len()
            invariant
                eq_by_view::<T>(),
                n == solved_state@.len() <= i32::MAX,
                keys == piece_orbits::<T, U>(moves@, solved_state@),
                dk == distinct(keys),
                dk.len() <= n,
                orbits_layout::<T, U>(moves@, solved_state@, orbits@, piece_orbit_map@),
                forall|p: int| 0 <= p < n ==> 0 <= #[trigger] piece_orbit_map@[p] < orbits@.len(),
                p <= n,
                compiled_solved_state@ == Seq::new(p as nat, |q: int| 0i32),
            decreases n - p,
        {
            proof {
                assert(in_orbit_of(dk, keys, piece_orbit_map@, p as int));
                let g = first_index(dk, keys[p as int]);
                assert(piece_orbit_map@[p as int] as int == g);
                assert(views(orbits@[g].states@) == dk[g]);
                assert(views(orbits@[g].states@) == keys[p as int]);
                assert(bfs_complete(solved_state@[p as int]@, move_images::<T, U>(moves@), keys[p as int].len()));
                lemma_bfs_found(solved_state@[p as int]@, move_images::<T, U>(moves@), keys[p as int].len());
                assert(keys[p as int][0] == solved_state@[p as int]@);
                assert(keys[p as int].contains(solved_state@[p as int]@));
                lemma_first_index(keys[p as int], solved_state@[p as int]@);
            }
            match compile_state(&solved_state[p], &orbits[piece_orbit_map[p] as usize]) {
                Ok(state) => compiled_solved_state.push(state),
                Err(e) => return Err(e),
            }
            assert(compiled_solved_state@ =~= Seq::new((p + 1) as nat, |q: int| 0i32));
            p += 1;
        }
        let (allowed_moves, next_dfa_states) = find_dfa_masks(dfa_start, &moves);
        let compiled = CompiledPuzzleDefinition {
            moves,
            compiled_moves,
            orbits,
            piece_orbit_map,
            piece_index_map,
            solved_state: compiled_solved_state,
            allowed_moves,
            next_dfa_states,
        };
        proof {
            assert forall|a: int, k: int|
                0 <= a < compiled.compiled_moves@.len() && 0 <= k < n implies {
                    &&& #[trigger] compiled.compiled_moves@[a]@[k]@.len() == compiled.row_size(k)
                    &&& forall|v: int|
                        0 <= v < compiled.row_size(k) ==> 0 <= #[trigger] compiled.compiled_moves@[a]@[k]@[v]
                            < compiled.row_size(k)
                } by {
                let states = row_states(compiled.orbits@, compiled.piece_orbit_map@, compiled.piece_index_map@, k);
                assert(row_closed::<T, U>(compiled.moves@[a], states));
                assert(states.len() == compiled.row_size(k));
                assert forall|v: int| 0 <= v < compiled.row_size(k) implies 0
                    <= #[trigger] compiled.compiled_moves@[a]@[k]@[v] < compiled.row_size(k) by {
                    assert(states.contains(compiled.moves@[a].spec_apply(states[v])));
                    lemma_first_index(states, compiled.moves@[a].spec_apply(states[v]));
                }
            }
            assert forall|k: int| 0 <= k < n implies 0 <= #[trigger] compiled.solved_state@[k] < compiled.row_size(k) by {
                let q = compiled.piece_index_map@[k] as int;
                assert(in_orbit_of(dk, keys, compiled.piece_orbit_map@, q));
                let g = first_index(dk, keys[q]);
                assert(compiled.piece_orbit_map@[q] as int == g);
                assert(views(compiled.orbits@[g].states@) == dk[g]);
                assert(views(compiled.orbits@[g].states@) == keys[q]);
                lemma_bfs_found(solved_state@[q]@, move_images::<T, U>(compiled.moves@), keys[q].len());
            }
            assert(compiled.wf());
        }
        Ok(compiled)
    }
}

/// Law: a compiled move's table, read through the states of a piece's
/// orbit, is the move: where the tables at the piece's compiled index are
/// for the piece's own orbit (that of piece `piece_index_map[k]`, for
/// compiled index `k`; so wherever `piece_index_map` maps the piece's
/// compiled index back to it, or to a piece of the same orbit), the state
/// numbered by the table's entry for state `v` is the move applied to the
/// state numbered `v`.
pub proof fn lemma_compiled_move_is_move<T: View, U: Move<T>, V: DfaEvaluator<U>>(
    moves: Seq<U>,
    solved: Seq<T>,
    dfa_start: V::V,
    c: CompiledPuzzleDefinition<T, U>,
    m: int,
    i: int,
    v: int,
)
    requires
        compiled_from::<T, U, V>(moves, solved, dfa_start, c),
        0 <= m < moves.len(),
        0 <= i < solved.len(),
        c.piece_orbit_map@[c.piece_index_map@[c.piece_index_map@[i] as int] as int] == c.piece_orbit_map@[i],
        0 <= v < c.orbits@[c.piece_orbit_map@[i] as int].states@.len(),
    ensures
        0 <= c.compiled_moves@[m]@[c.piece_index_map@[i] as int]@[v] < c.orbits@[c.piece_orbit_map@[i] as int].states@.len(),
        views(c.orbits@[c.piece_orbit_map@[i] as int].states@)[c.compiled_moves@[m]@[c.piece_index_map@[i] as int]@[v] as int]
            == moves[m].spec_apply(views(c.orbits@[c.piece_orbit_map@[i] as int].states@)[v]),
{
    let keys = piece_orbits::<T, U>(moves, solved);
    let dk = distinct(keys);
    let k = c.piece_index_map@[i] as int;
    assert(0 <= k < solved.len());
    assert(in_orbit_of(dk, keys, c.piece_orbit_map@, i));
    let g = first_index(dk, keys[i]);
    lemma_distinct(keys);
    assert(c.piece_orbit_map@[i] as int == g);
    let states = views(c.orbits@[g].states@);
    assert(states == dk[g]);
    assert(row_states(c.orbits@, c.piece_orbit_map@, c.piece_index_map@, k) == states);
    assert(bfs_complete(solved[i]@, move_images::<T, U>(moves), keys[i].len()));
    lemma_orbit_closed::<T, U>(moves, solved[i]@, keys[i].len(), m);
    let x = moves[m].spec_apply(states[v]);
    assert(states.contains(x));
    lemma_first_index(states, x);
    assert(c.orbits@[g].states@.len() <= i32::MAX + 1);
    assert(c.compiled_moves@[m]@[k]@[v] == first_index(states, x) as i32);
}

/// Law: the compiled solved state reads back as the puzzle's solved state:
/// the compiled state at each piece's compiled index numbers, among the
/// states of the piece's orbit, the piece's solved state.
pub proof fn lemma_solved_reads_back<T: View, U: Move<T>, V: DfaEvaluator<U>>(
    moves: Seq<U>,
    solved: Seq<T>,
    dfa_start: V::V,
    c: CompiledPuzzleDefinition<T, U>,
    p: int,
)
    requires
        compiled_from::<T, U, V>(moves, solved, dfa_start, c),
        0 <= p < solved.len(),
    ensures
        0 <= c.solved_state@[c.piece_index_map@[p] as int] < c.orbits@[c.piece_orbit_map@[p] as int].states@.len(),
        c.orbits@[c.piece_orbit_map@[p] as int].states@[c.solved_state@[c.piece_index_map@[p] as int] as int]@
            == solved[p]@,
{
    let keys = piece_orbits::<T, U>(moves, solved);
    let dk = distinct(keys);
    lemma_distinct(keys);
    assert(in_orbit_of(dk, keys, c.piece_orbit_map@, p));
    let g = first_index(dk, keys[p]);
    assert(c.piece_orbit_map@[p] as int == g);
    assert(views(c.orbits@[g].states@) == dk[g]);
    assert(bfs_complete(solved[p]@, move_images::<T, U>(moves), keys[p].len()));
    lemma_bfs_found(solved[p]@, move_images::<T, U>(moves), keys[p].len());
    let k = c.piece_index_map@[p] as int;
    assert(0 <= k < solved.len());
    assert(c.solved_state@[k] == 0);
    assert(views(c.orbits@[g].states@)[0] == c.orbits@[g].states@[0]@);
}

/// `s` followed by nothing new: a sequence without repetition is its own
/// distinct elements.
proof fn lemma_distinct_of_unique<K>(s: Seq<K>)
    requires
        s.no_duplicates(),
    ensures
        distinct(s) == s,
    decreases s.len(),
{
    if s.len() > 0 {
        let init = s.drop_last();
        assert(init.no_duplicates());
        lemma_distinct_of_unique(init);
        if init.contains(s.last()) {
            let j = choose|j: int| 0 <= j < init.len() && init[j] == s.last();
            assert(s[j] == s[s.len() - 1]);
        }
        assert(init.push(s.last()) =~= s);
    }
}

/// With keys all different, each key's members are its own index alone.
proof fn lemma_members_of_unique<K>(keys: Seq<K>, j: int, n: nat)
    requires
        keys.no_duplicates(),
        n <= keys.len(),
        n <= i32::MAX + 1,
        0 <= j < keys.len(),
    ensures
        members(keys, keys[j], n) == (if j < n { seq![j as i32] } else { Seq::<i32>::empty() }),
    decreases n,
{
    if n > 0 {
        lemma_members_of_unique(keys, j, (n - 1) as nat);
        if keys[n - 1] == keys[j] {
            assert(n - 1 == j);
        }
    }
}

/// Law: where the pieces' solved states all differ, every orbit holds one
/// piece, and each piece's compiled index is its own index (so the compiled
/// move tables of every piece are for the piece's own orbit, and every
/// compiled state can be read back).
pub proof fn lemma_unique_pieces_keep_order<T: View, U: Move<T>, V: DfaEvaluator<U>>(
    moves: Seq<U>,
    solved: Seq<T>,
    dfa_start: V::V,
    c: CompiledPuzzleDefinition<T, U>,
)
    requires
        compiled_from::<T, U, V>(moves, solved, dfa_start, c),
        views(solved).no_duplicates(),
    ensures
        forall|p: int| 0 <= p < solved.len() ==> #[trigger] c.piece_index_map@[p] == p,
        forall|p: int| 0 <= p < solved.len() ==> #[trigger] c.piece_orbit_map@[p] == p,
        c.decodable(),
{
    let n = solved.len();
    let keys = piece_orbits::<T, U>(moves, solved);
    assert forall|p: int| 0 <= p < n implies #[trigger] keys[p][0] == solved[p]@ by {
        assert(bfs_complete(solved[p]@, move_images::<T, U>(moves), keys[p].len()));
        lemma_bfs_found(solved[p]@, move_images::<T, U>(moves), keys[p].len());
    }
    assert(keys.no_duplicates()) by {
        assert forall|a: int, b: int| 0 <= a < n && 0 <= b < n && a != b implies keys[a] != keys[b] by {
            assert(views(solved)[a] == solved[a]@);
            assert(views(solved)[b] == solved[b]@);
            if keys[a] == keys[b] {
                assert(keys[a][0] == keys[b][0]);
            }
        }
    }
    lemma_distinct_of_unique(keys);
    let groups = pieces_of(c.orbits@);
    assert forall|j: int| 0 <= j < groups.len() implies #[trigger] groups[j] == seq![j as i32] by {
        assert(views(c.orbits@[j].states@) == distinct(keys)[j]);
        lemma_members_of_unique(keys, j, n);
    }
    lemma_concat_of_singletons(groups);
    let ipm = concat(groups);
    assert forall|p: int| 0 <= p < n implies #[trigger] c.piece_index_map@[p] == p by {
        assert(ipm[p] == p);
        assert(c.piece_index_map@[ipm[p] as int] == p);
    }
    assert forall|p: int| 0 <= p < n implies #[trigger] c.piece_orbit_map@[p] == p by {
        assert(in_orbit_of(distinct(keys), keys, c.piece_orbit_map@, p));
        assert(keys.contains(keys[p]));
        lemma_first_index(keys, keys[p]);
    }
}

/// Groups `[0], [1], ...` laid out one after another count up from 0.
proof fn lemma_concat_of_singletons(groups: Seq<Seq<i32>>)
    requires
        groups.len() <= i32::MAX + 1,
        forall|j: int| 0 <= j < groups.len() ==> #[trigger] groups[j] == seq![j as i32],
    ensures
        concat(groups).len() == groups.len(),
        forall|k: int| 0 <= k < groups.len() ==> #[trigger] concat(groups)[k] == k,
    decreases groups.len(),
{
    if groups.len() > 0 {
        let init = groups.drop_last();
        assert forall|j: int| 0 <= j < init.len() implies #[trigger] init[j] == seq![j as i32] by {
            assert(init[j] == groups[j]);
        }
        lemma_concat_of_singletons(init);
        assert(groups.last() == seq![(groups.len() - 1) as i32]);
        assert forall|k: int| 0 <= k < groups.len() implies #[trigger] concat(groups)[k] == k by {
            if k < init.len() {
                assert(concat(groups)[k] == concat(init)[k]);
            }
        }
    }
}

} // verus!
