use puzzle_sim::compiler::{compile_state, decompile_state, CompilerError};
use puzzle_sim::defs::{CompiledPuzzleDefinition, Move, OrbitDefinition, PuzzleDefinition};
use puzzle_sim::puzzles::rubik::rubik;

fn orbit_of(states: Vec<i32>) -> OrbitDefinition<i32> {
    OrbitDefinition { slice: 0..1, pieces: vec![0], states }
}

#[test]
fn decompile_state_reads_the_numbered_state() {
    let orbit = orbit_of(vec![7, 9, 11]);
    assert_eq!(decompile_state(0, &orbit).unwrap(), 7);
    assert_eq!(decompile_state(2, &orbit).unwrap(), 11);
}

#[test]
fn decompile_state_refuses_out_of_range() {
    let orbit = orbit_of(vec![7, 9, 11]);
    assert!(matches!(
        decompile_state(3, &orbit),
        Err(CompilerError::InvalidCompiledPieceState(3))
    ));
    assert!(matches!(
        decompile_state(-1, &orbit),
        Err(CompilerError::InvalidCompiledPieceState(-1))
    ));
}

#[test]
fn compile_state_gives_first_position() {
    let orbit = orbit_of(vec![7, 9, 11, 9]);
    assert_eq!(compile_state(&9, &orbit).unwrap(), 1);
    assert_eq!(compile_state(&11, &orbit).unwrap(), 2);
}

#[test]
fn compile_state_refuses_unknown_state() {
    let orbit = orbit_of(vec![7, 9, 11]);
    assert!(matches!(
        compile_state(&8, &orbit),
        Err(CompilerError::InvalidPieceState(8))
    ));
}

#[test]
fn compile_then_decompile_round_trips() {
    let orbit = orbit_of(vec![4, 5, 6, 7]);
    for state in [4, 5, 6, 7] {
        let compiled = compile_state(&state, &orbit).unwrap();
        assert_eq!(decompile_state(compiled, &orbit).unwrap(), state);
    }
    for index in 0..4 {
        let state = decompile_state(index, &orbit).unwrap();
        assert_eq!(compile_state(&state, &orbit).unwrap(), index);
    }
}

#[test]
fn compiled_cube_keeps_pieces_in_order() {
    let puzzle = rubik(2);
    let num_moves = puzzle.moves.len();
    let compiled = CompiledPuzzleDefinition::try_from(puzzle).unwrap();
    assert_eq!(compiled.moves.len(), num_moves);
    assert_eq!(compiled.solved_state, vec![0; 8]);
    assert_eq!(compiled.piece_index_map, (0..8).collect::<Vec<i32>>());
    assert_eq!(compiled.piece_orbit_map, (0..8).collect::<Vec<i32>>());
    assert_eq!(compiled.orbits.len(), 8);
    for (index, orbit) in compiled.orbits.iter().enumerate() {
        assert_eq!(orbit.pieces, vec![index as i32]);
        assert_eq!(orbit.slice, (index as i32)..(index as i32 + 1));
    }
}

#[test]
fn compiled_cube_orbits_start_at_solved_states() {
    let puzzle = rubik(2);
    let solved = puzzle.solved_state.clone();
    let compiled = CompiledPuzzleDefinition::try_from(puzzle).unwrap();
    for (piece, state) in solved.iter().enumerate() {
        let orbit = &compiled.orbits[compiled.piece_orbit_map[piece] as usize];
        assert_eq!(orbit.states[0], *state);
    }
}

#[test]
fn compiled_move_tables_are_the_moves() {
    let puzzle = rubik(2);
    let moves = puzzle.moves.clone();
    let compiled = CompiledPuzzleDefinition::try_from(puzzle).unwrap();
    for (m, move_id) in moves.iter().enumerate() {
        for piece in 0..8 {
            let orbit = &compiled.orbits[compiled.piece_orbit_map[piece] as usize];
            let row = &compiled.compiled_moves[m][compiled.piece_index_map[piece] as usize];
            assert_eq!(row.len(), orbit.states.len());
            for (v, state) in orbit.states.iter().enumerate() {
                let next = row[v] as usize;
                assert_eq!(orbit.states[next], move_id.apply(state));
            }
        }
    }
}

#[test]
fn every_orbit_state_is_reached_and_unique() {
    let compiled = CompiledPuzzleDefinition::try_from(rubik(3)).unwrap();
    for orbit in compiled.orbits.iter() {
        for (a, x) in orbit.states.iter().enumerate() {
            for (b, y) in orbit.states.iter().enumerate() {
                if a != b {
                    assert_ne!(x, y);
                }
            }
        }
    }
}

#[test]
fn compiled_dfa_allows_every_move_at_start() {
    let puzzle = rubik(2);
    let num_moves = puzzle.moves.len() as i32;
    let compiled = CompiledPuzzleDefinition::try_from(puzzle).unwrap();
    assert_eq!(compiled.allowed_moves.len(), compiled.next_dfa_states.len());
    assert_eq!(compiled.allowed_moves[0], (0..num_moves).collect::<Vec<i32>>());
    for (state, nexts) in compiled.next_dfa_states.iter().enumerate() {
        assert_eq!(nexts.len(), compiled.allowed_moves[state].len());
        for next in nexts {
            assert!((*next as usize) < compiled.next_dfa_states.len());
        }
    }
}

#[test]
fn compiled_dfa_refuses_same_layer_twice() {
    let puzzle = rubik(2);
    let compiled = CompiledPuzzleDefinition::try_from(puzzle).unwrap();
    // After the first move (axis X, lowest layer, clockwise), no move of the
    // same layer may follow.
    let after = compiled.next_dfa_states[0][0] as usize;
    let allowed = &compiled.allowed_moves[after];
    assert!(!allowed.contains(&0));
    assert!(!allowed.contains(&1));
    assert!(!allowed.contains(&2));
    // The other layer of the same axis may follow.
    assert!(allowed.contains(&3));
}

#[test]
fn compiling_a_subset_of_moves_keeps_their_order() {
    let mut puzzle = rubik(2);
    puzzle.moves.truncate(3);
    let kept = puzzle.moves.clone();
    let compiled = CompiledPuzzleDefinition::try_from(PuzzleDefinition {
        moves: puzzle.moves,
        solved_state: puzzle.solved_state,
        dfa_start: puzzle.dfa_start,
    })
    .unwrap();
    assert_eq!(compiled.moves, kept);
    assert_eq!(compiled.compiled_moves.len(), 3);
}

#[test]
fn compiled_dfa_next_states_follow_the_automaton() {
    let compiled = CompiledPuzzleDefinition::try_from(rubik(2)).unwrap();
    // From the start every move is allowed; the automaton forgets the
    // rotation, so the three rotations of one layer lead to one state.
    let next = &compiled.next_dfa_states[0];
    assert_eq!(next[0], next[1]);
    assert_eq!(next[1], next[2]);
    assert_ne!(next[0], next[3]);
    assert_ne!(next[0], 0);
    // Turning the lower layer of an axis and then the upper one leads to a
    // state where no move about that axis is allowed.
    let after_low = next[0] as usize;
    let position = compiled.allowed_moves[after_low].iter().position(|&m| m == 3).unwrap();
    let after_both = compiled.next_dfa_states[after_low][position] as usize;
    assert!(compiled.allowed_moves[after_both].iter().all(|&m| m >= 6));
}
