use puzzle_sim::defs::{CompiledPuzzleDefinition, Move, OrbitDefinition, PuzzleDefinition};
use puzzle_sim::puzzles::rubik::{rubik, Cubie, MoveId};
use puzzle_sim::sim::{pad_nested_vec, LoadedPuzzleDefinition, PuzzleState, PuzzleStates, SimError};

fn loaded_cube(size: usize) -> (LoadedPuzzleDefinition<Cubie, MoveId>, Vec<MoveId>, Vec<Cubie>) {
    let puzzle = rubik(size);
    let moves = puzzle.moves.clone();
    let solved = puzzle.solved_state.clone();
    let compiled = CompiledPuzzleDefinition::try_from(puzzle).unwrap();
    (LoadedPuzzleDefinition::load(compiled), moves, solved)
}

#[test]
fn pad_nested_vec_pads_and_cuts() {
    let padded = pad_nested_vec(vec![vec![1, 2], vec![3, 4, 5, 6], vec![]], -1, 3);
    assert_eq!(padded, vec![vec![1, 2, -1], vec![3, 4, 5], vec![-1, -1, -1]]);
}

#[test]
fn pad_nested_vec_of_nothing_is_nothing() {
    let padded: Vec<Vec<i32>> = pad_nested_vec(vec![], 0, 4);
    assert!(padded.is_empty());
}

#[test]
fn new_state_is_solved() {
    let (loaded, _, solved) = loaded_cube(2);
    let state = PuzzleState::new(&loaded);
    assert_eq!(state.raw_state(), vec![0; 8]);
    assert_eq!(state.state().unwrap(), solved);
}

#[test]
fn new_states_are_all_solved() {
    let (loaded, _, solved) = loaded_cube(2);
    let states = PuzzleStates::new(3, &loaded);
    assert_eq!(states.raw_states(), vec![vec![0; 8]; 3]);
    assert_eq!(states.states().unwrap(), vec![solved.clone(), solved.clone(), solved]);
}

#[test]
fn simulated_move_is_the_move() {
    let (loaded, moves, solved) = loaded_cube(2);
    let state = PuzzleState::new(&loaded);
    for move_id in moves.iter() {
        let moved = state.apply_move(move_id).unwrap();
        let expected: Vec<Cubie> = solved.iter().map(|c| move_id.apply(c)).collect();
        assert_eq!(moved.state().unwrap(), expected);
    }
}

#[test]
fn move_and_inverse_give_solved_state() {
    let (loaded, moves, _) = loaded_cube(3);
    let state = PuzzleState::new(&loaded);
    let turned = state.apply_move(&moves[0]).unwrap();
    assert_ne!(turned.raw_state(), state.raw_state());
    let back = turned.apply_move(&moves[2]).unwrap();
    assert_eq!(back.raw_state(), state.raw_state());
}

#[test]
fn four_quarter_turns_give_solved_state() {
    let (loaded, moves, _) = loaded_cube(3);
    let mut state = PuzzleState::new(&loaded);
    for _ in 0..4 {
        state = state.apply_move(&moves[4 * 3]).unwrap();
    }
    assert_eq!(state.raw_state(), PuzzleState::new(&loaded).raw_state());
}

#[test]
fn apply_moves_orders_states_then_moves() {
    let (loaded, moves, _) = loaded_cube(2);
    let start = PuzzleState::new(&loaded).apply_move(&moves[0]).unwrap();
    let states = PuzzleStates::new(1, &loaded).apply_move(&moves[0]).unwrap();
    let keys: Vec<&MoveId> = vec![&moves[3], &moves[7], &moves[12]];
    let branched = states.apply_moves(&keys).unwrap();
    let rows = branched.raw_states();
    assert_eq!(rows.len(), 3);
    for (k, key) in keys.iter().enumerate() {
        assert_eq!(rows[k], start.apply_move(key).unwrap().raw_state());
    }
    let two = PuzzleStates::new(2, &loaded).apply_moves(&keys).unwrap().raw_states();
    assert_eq!(two.len(), 6);
    assert_eq!(two[0], two[3]);
    assert_eq!(two[2], two[5]);
}

#[test]
fn apply_all_moves_is_every_move_in_order() {
    let (loaded, moves, _) = loaded_cube(2);
    let state = PuzzleState::new(&loaded);
    let all = state.apply_all_moves().unwrap().raw_states();
    assert_eq!(all.len(), moves.len());
    for (m, move_id) in moves.iter().enumerate() {
        assert_eq!(all[m], state.apply_move(move_id).unwrap().raw_state());
    }
    let keys: Vec<&MoveId> = moves.iter().collect();
    assert_eq!(state.apply_moves(&keys).unwrap().raw_states(), all);
}

#[test]
fn unknown_move_is_refused() {
    let puzzle = rubik(2);
    let all_moves = puzzle.moves.clone();
    let compiled = CompiledPuzzleDefinition::try_from(PuzzleDefinition {
        moves: all_moves[..3].to_vec(),
        solved_state: puzzle.solved_state,
        dfa_start: puzzle.dfa_start,
    })
    .unwrap();
    let loaded = LoadedPuzzleDefinition::load(compiled);
    let state = PuzzleState::new(&loaded);
    match state.apply_move(&all_moves[5]) {
        Err(SimError::MoveNotFound(key)) => assert_eq!(key, all_moves[5]),
        _ => panic!("a move outside the puzzle was applied"),
    }
    let keys: Vec<&MoveId> = vec![&all_moves[1], &all_moves[9], &all_moves[10]];
    match state.apply_moves(&keys) {
        Err(SimError::MoveNotFound(key)) => assert_eq!(key, all_moves[9]),
        _ => panic!("a move outside the puzzle was applied"),
    }
}

#[test]
fn tables_are_read_as_given() {
    // One piece with two states; the only move's table sends state 0 to 1
    // and has no entry for state 1, so loading pads it with -1.
    let compiled = CompiledPuzzleDefinition {
        moves: vec![7u8],
        compiled_moves: vec![vec![vec![1]]],
        orbits: vec![OrbitDefinition { slice: 0..1, pieces: vec![0], states: vec![10i32, 20] }],
        piece_orbit_map: vec![0],
        piece_index_map: vec![0],
        solved_state: vec![0],
        allowed_moves: vec![vec![0]],
        next_dfa_states: vec![vec![0]],
    };
    let loaded = LoadedPuzzleDefinition::load(compiled);
    let state = PuzzleState::new(&loaded);
    assert_eq!(state.state().unwrap(), vec![10]);
    let once = state.apply_move(&7).unwrap();
    assert_eq!(once.raw_state(), vec![1]);
    assert_eq!(once.state().unwrap(), vec![20]);
    let twice = once.apply_move(&7).unwrap();
    assert_eq!(twice.raw_state(), vec![-1]);
}

#[test]
fn a_long_sequence_of_moves_reads_back_as_the_moves() {
    let (loaded, moves, solved) = loaded_cube(3);
    let mut state = PuzzleState::new(&loaded);
    let mut expected = solved.clone();
    for step in 0..40 {
        let move_id = &moves[(step * 7 + 3) % moves.len()];
        state = state.apply_move(move_id).unwrap();
        expected = expected.iter().map(|c| move_id.apply(c)).collect();
    }
    assert_eq!(state.state().unwrap(), expected);
}
