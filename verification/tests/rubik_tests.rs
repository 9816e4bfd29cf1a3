use puzzle_sim::defs::{DfaEvaluator, Move};
use puzzle_sim::defs::CompiledPuzzleDefinition;
use puzzle_sim::puzzles::rubik::rubik;

#[test]
fn cube_of_two_has_eight_cubies_and_eighteen_moves() {
    let puzzle = rubik(2);
    assert_eq!(puzzle.solved_state.len(), 8);
    assert_eq!(puzzle.moves.len(), 18);
}

#[test]
fn cube_of_three_has_twenty_six_cubies_and_twenty_seven_moves() {
    let puzzle = rubik(3);
    assert_eq!(puzzle.solved_state.len(), 26);
    assert_eq!(puzzle.moves.len(), 27);
}

#[test]
fn cube_of_four_has_fifty_six_cubies() {
    let puzzle = rubik(4);
    assert_eq!(puzzle.solved_state.len(), 56);
    assert_eq!(puzzle.moves.len(), 36);
}

#[test]
fn cube_of_one_has_one_cubie() {
    let puzzle = rubik(1);
    assert_eq!(puzzle.solved_state.len(), 1);
    assert_eq!(puzzle.moves.len(), 9);
}

#[test]
fn solved_cubies_are_all_different() {
    let puzzle = rubik(3);
    for (a, x) in puzzle.solved_state.iter().enumerate() {
        for (b, y) in puzzle.solved_state.iter().enumerate() {
            if a != b {
                assert_ne!(x, y);
            }
        }
    }
}

#[test]
fn moves_are_all_different() {
    let puzzle = rubik(3);
    for (a, x) in puzzle.moves.iter().enumerate() {
        for (b, y) in puzzle.moves.iter().enumerate() {
            if a != b {
                assert_ne!(x, y);
            }
        }
    }
}

#[test]
fn clockwise_then_counter_clockwise_gives_cubies_back() {
    let puzzle = rubik(3);
    // Moves come in groups of three per layer: clockwise, half, counter-clockwise.
    for group in 0..9 {
        let clockwise = &puzzle.moves[3 * group];
        let counter = &puzzle.moves[3 * group + 2];
        for cubie in puzzle.solved_state.iter() {
            assert_eq!(counter.apply(&clockwise.apply(cubie)), *cubie);
        }
    }
}

#[test]
fn four_quarter_turns_and_two_half_turns_give_cubies_back() {
    let puzzle = rubik(3);
    for move_id in puzzle.moves.iter() {
        for cubie in puzzle.solved_state.iter() {
            let mut c = *cubie;
            for _ in 0..4 {
                c = move_id.apply(&c);
            }
            assert_eq!(c, *cubie);
        }
    }
    for group in 0..9 {
        let half = &puzzle.moves[3 * group + 1];
        for cubie in puzzle.solved_state.iter() {
            assert_eq!(half.apply(&half.apply(cubie)), *cubie);
        }
    }
}

#[test]
fn half_turn_is_two_quarter_turns() {
    let puzzle = rubik(3);
    for group in 0..9 {
        let clockwise = &puzzle.moves[3 * group];
        let half = &puzzle.moves[3 * group + 1];
        for cubie in puzzle.solved_state.iter() {
            assert_eq!(half.apply(cubie), clockwise.apply(&clockwise.apply(cubie)));
        }
    }
}

#[test]
fn a_move_turns_only_its_layer() {
    let puzzle = rubik(3);
    // The first move turns the layer x = -1; the cubies of other layers stay.
    let turned = puzzle
        .solved_state
        .iter()
        .filter(|c| puzzle.moves[0].apply(c) != **c)
        .count();
    // The nine cubies of the layer all change: the centre keeps its position
    // but its orientation, along the z axis, turns about the x axis.
    assert_eq!(turned, 9);
}

#[test]
fn dfa_allows_increasing_layers_about_one_axis() {
    let puzzle = rubik(3);
    let start = puzzle.dfa_start.clone();
    // moves[0]: axis X, layer -1; moves[3]: axis X, layer 0; moves[6]: axis X, layer 1.
    let after_low = start.next(&puzzle.moves[0]).unwrap();
    assert!(after_low.next(&puzzle.moves[0]).is_none());
    assert!(after_low.next(&puzzle.moves[1]).is_none());
    let after_mid = after_low.next(&puzzle.moves[3]).unwrap();
    assert!(after_mid.next(&puzzle.moves[0]).is_none());
    assert!(after_mid.next(&puzzle.moves[6]).is_some());
}

#[test]
fn dfa_resets_on_a_new_axis() {
    let puzzle = rubik(3);
    let start = puzzle.dfa_start.clone();
    // moves[9..]: axis Y.
    let after_x = start.next(&puzzle.moves[6]).unwrap();
    let after_y = after_x.next(&puzzle.moves[9]).unwrap();
    assert!(after_y.next(&puzzle.moves[0]).is_some());
}

#[test]
fn cube_sizes_stay_within_their_bounds() {
    for size in 0..6usize {
        let puzzle = rubik(size);
        let bound = (size + 1) * (size + 1) * (size + 1);
        assert!(puzzle.solved_state.len() <= bound);
        assert!(puzzle.moves.len() <= 9 * (size + 1));
        assert_eq!(puzzle.moves.len(), 9 * size);
        let compiled = CompiledPuzzleDefinition::try_from(puzzle).unwrap();
        for orbit in compiled.orbits.iter() {
            assert!(orbit.states.len() <= 6 * bound);
        }
    }
}

#[test]
fn cube_of_zero_is_empty() {
    let puzzle = rubik(0);
    assert!(puzzle.solved_state.is_empty());
    assert!(puzzle.moves.is_empty());
}

#[test]
fn every_cubie_of_the_cube_of_two_reaches_twenty_four_states() {
    // Every cubie can be turned about each axis wherever it is, so it
    // reaches its images under the 24 rotations of the cube, all different.
    let compiled = CompiledPuzzleDefinition::try_from(rubik(2)).unwrap();
    for orbit in compiled.orbits.iter() {
        assert_eq!(orbit.states.len(), 24);
    }
}

#[test]
fn dfa_states_compare_and_clone_by_content() {
    let puzzle = rubik(3);
    let start = puzzle.dfa_start.clone();
    assert_eq!(start, puzzle.dfa_start);
    let a = start.next(&puzzle.moves[0]).unwrap();
    let b = start.next(&puzzle.moves[1]).unwrap();
    // Both turn the layer x = -1 first; the rotation is not remembered.
    assert_eq!(a, b);
    assert_eq!(a.clone(), a);
    let c = start.next(&puzzle.moves[3]).unwrap();
    assert_ne!(a, c);
    assert_ne!(a, start);
}

#[test]
fn cubies_and_moves_compare_by_content() {
    let puzzle = rubik(3);
    let cubie = puzzle.solved_state[4];
    assert_eq!(cubie.clone(), cubie);
    assert_eq!(puzzle.moves[7].clone(), puzzle.moves[7]);
    assert_ne!(puzzle.moves[7], puzzle.moves[8]);
    assert_ne!(puzzle.solved_state[3], puzzle.solved_state[4]);
}

#[test]
fn sizes_beyond_i32_wrap_their_half() {
    if usize::BITS >= 64 {
        // Half of this size is 2^32 + 3, which as an i32 is 3: the cube of
        // side 6 (the size is even, so there is no layer 0).
        let wrapped = rubik((1usize << 33) + 6);
        let six = rubik(6);
        assert_eq!(wrapped.solved_state, six.solved_state);
        assert_eq!(wrapped.moves, six.moves);
        // Half of the largest size is -1 as an i32: no layers at all.
        let empty = rubik(usize::MAX);
        assert!(empty.solved_state.is_empty());
        assert!(empty.moves.is_empty());
    }
}

#[test]
fn dfa_compares_with_the_highest_turned_layer_even_when_all_are_negative() {
    let puzzle = rubik(7);
    let start = puzzle.dfa_start.clone();
    // moves[0]: axis X, layer -3; moves[3]: axis X, layer -2; moves[6]: layer -1.
    let after = start.next(&puzzle.moves[0]).unwrap();
    let after = after.next(&puzzle.moves[3]).unwrap();
    assert!(after.next(&puzzle.moves[0]).is_none());
    assert!(after.next(&puzzle.moves[6]).is_some());
}

#[test]
fn half_turn_is_two_counter_clockwise_quarter_turns() {
    let puzzle = rubik(3);
    for group in 0..9 {
        let half = &puzzle.moves[3 * group + 1];
        let counter = &puzzle.moves[3 * group + 2];
        for cubie in puzzle.solved_state.iter() {
            assert_eq!(half.apply(cubie), counter.apply(&counter.apply(cubie)));
        }
    }
}
