use tetrubik::{colour_correct, solve, turn, Colour, Corner, FaceState, Rotation, SolveError, State};

fn all_corners() -> Vec<Corner> {
    vec![
        Corner::FrontLeftBase,
        Corner::FrontRightBase,
        Corner::FrontLeftRight,
        Corner::BaseLeftRight,
    ]
}

#[test]
fn turns() {
    for corner in all_corners() {
        for rotation in vec![Rotation::Clockwise, Rotation::AntiClockwise] {
            let complete = State::new();
            let state: State = turn(complete, corner, rotation);
            assert!(colour_correct(state).is_ok());
        }
    }
}

#[test]
fn clockwise_turns() {
    for corner in all_corners() {
        let mut state = State::new();
        for rotation in vec![Rotation::Clockwise, Rotation::Clockwise, Rotation::Clockwise] {
            state = turn(state, corner, rotation);
            assert!(colour_correct(state).is_ok());
        }
        assert_eq!(state, State::new());
    }
}

#[test]
fn anticlockwise_turns() {
    for corner in all_corners() {
        let mut state = State::new();
        for rotation in vec![
            Rotation::AntiClockwise,
            Rotation::AntiClockwise,
            Rotation::AntiClockwise,
        ] {
            state = turn(state, corner, rotation);
            assert!(colour_correct(state).is_ok());
        }
        assert_eq!(state, State::new());
    }
}

#[test]
fn back_forth_turns() {
    for corner in all_corners() {
        let mut state = State::new();
        for rotation in vec![Rotation::AntiClockwise, Rotation::Clockwise] {
            state = turn(state, corner, rotation);
            assert!(colour_correct(state).is_ok());
        }
        assert_eq!(state, State::new());
    }
}

#[test]
fn forth_back_turns() {
    for corner in all_corners() {
        let mut state = State::new();
        for rotation in vec![Rotation::Clockwise, Rotation::AntiClockwise] {
            state = turn(state, corner, rotation);
            assert!(colour_correct(state).is_ok());
        }
        assert_eq!(state, State::new());
    }
}

#[test]
fn complete() {
    println!("starting complete test");
    let moves: Vec<(Corner, Rotation)> = solve(State::new()).unwrap();
    let expected: Vec<(Corner, Rotation)> = Vec::new();
    assert_eq!(moves, expected);
}

#[test]
fn nearly_complete() {
    for corner in all_corners() {
        let state: State = turn(State::new(), corner, Rotation::Clockwise);
        assert!(colour_correct(state).is_ok());
        let moves: Vec<(Corner, Rotation)> = solve(state).unwrap();
        let expected: Vec<(Corner, Rotation)> = vec![(corner, Rotation::AntiClockwise)];
        assert_eq!(moves, expected);
    }
}

#[test]
fn anticlockwise_scramble_is_undone_clockwise() {
    for corner in all_corners() {
        let state = turn(State::new(), corner, Rotation::AntiClockwise);
        assert_eq!(solve(state), Ok(vec![(corner, Rotation::Clockwise)]));
    }
}

#[test]
fn two_turn_scramble_takes_two_turns() {
    let once = turn(State::new(), Corner::FrontLeftBase, Rotation::Clockwise);
    let twice = turn(once, Corner::BaseLeftRight, Rotation::Clockwise);
    let moves = solve(twice).unwrap();
    assert_eq!(moves.len(), 2);
    let mut state = twice;
    for (corner, rotation) in moves {
        state = turn(state, corner, rotation);
    }
    assert_eq!(state, State::new());
}

#[test]
fn turn_moves_exact_facelets() {
    let state = turn(State::new(), Corner::FrontLeftBase, Rotation::Clockwise);
    assert_eq!(
        state.front,
        FaceState::new(
            Colour::Red,
            Colour::Red,
            Colour::Red,
            Colour::Yellow,
            Colour::Yellow,
            Colour::Yellow
        )
    );
    assert_eq!(
        state.left,
        FaceState::new(
            Colour::Yellow,
            Colour::Green,
            Colour::Green,
            Colour::Green,
            Colour::Yellow,
            Colour::Yellow
        )
    );
    assert_eq!(state.right, FaceState::from_colour(Colour::Blue));
    assert_eq!(
        state.base,
        FaceState::new(
            Colour::Green,
            Colour::Red,
            Colour::Red,
            Colour::Red,
            Colour::Green,
            Colour::Green
        )
    );
}

#[test]
fn solved_state_is_uniform() {
    let s = State::new();
    assert_eq!(s.front, FaceState::from_colour(Colour::Red));
    assert_eq!(s.left, FaceState::from_colour(Colour::Yellow));
    assert_eq!(s.right, FaceState::from_colour(Colour::Blue));
    assert_eq!(s.base, FaceState::from_colour(Colour::Green));
}

#[test]
fn generator_orders() {
    assert_eq!(Rotation::new_vec(), vec![Rotation::Clockwise, Rotation::AntiClockwise]);
    assert_eq!(Corner::new_vec(), all_corners());
}

#[test]
fn rejects_wrong_colour_counts() {
    let mut state = State::new();
    // Red now covers seven facelets and yellow five.
    state.left.three = Colour::Red;
    assert_eq!(colour_correct(state), Err(SolveError::InvalidState));
    assert_eq!(solve(state), Err(SolveError::InvalidState));
}

#[test]
fn rejects_bad_corner_cluster() {
    let mut state = State::new();
    // Swap two facelets of the front-left-base cluster: counts stay right,
    // but red, yellow, green is not a cyclic rotation of red, green, yellow.
    state.base.three = Colour::Yellow;
    state.left.three = Colour::Green;
    assert_eq!(colour_correct(state), Err(SolveError::InvalidState));
}

#[test]
fn rejects_repeated_edge_pair() {
    let mut state = State::new();
    // The front's second and fourth facelets now both pair red with blue.
    state.front.four = Colour::Red;
    state.base.four = Colour::Blue;
    state.front.six = Colour::Green;
    state.left.two = Colour::Yellow;
    assert!(colour_correct(state).is_err());
}

#[test]
fn accepts_solved_state() {
    assert_eq!(colour_correct(State::new()), Ok(()));
}
