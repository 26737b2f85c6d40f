use muscovite::constants::{BLACK, WHITE};
use muscovite::game::{Board, Move, Position, State};
use muscovite::search::{heuristic, iterative_time_bound_alpha_beta_search, time_bound_alpha_beta_search};
use std::time::{Duration, Instant};

#[test]
fn test_heuristic() {
    let mut state = State::init(WHITE.to_string());
    let mut score: i32 = heuristic(&state);
    assert_eq!(score, -10);

    state.board = Board::new([
        [0, 0, 0, 0, 2, 0, 0, 0, 0],
        [0, 0, 0, 0, 0, 0, 2, 0, 0],
        [0, 0, 0, 0, 1, 0, 0, 0, 0],
        [0, 0, 2, 2, 3, 2, 0, 1, 2],
        [2, 2, 1, 1, 0, 1, 1, 2, 2],
        [2, 0, 0, 0, 1, 0, 0, 0, 2],
        [0, 0, 0, 0, 1, 0, 0, 0, 0],
        [0, 0, 0, 0, 2, 0, 0, 0, 0],
        [0, 0, 0, 2, 2, 2, 0, 0, 0]
    ]);
    score = heuristic(&state);
    assert_eq!(score, -20);

    let mut state = State::init(BLACK.to_string());
    state.board = Board::new([
        [2, 0, 3, 0, 0, 0, 0, 0, 0],
        [0, 0, 0, 0, 0, 0, 0, 0, 0],
        [0, 0, 0, 0, 0, 0, 2, 1, 0],
        [2, 0, 0, 0, 1, 0, 0, 0, 2],
        [2, 2, 1, 1, 0, 1, 1, 2, 2],
        [2, 0, 0, 0, 1, 0, 2, 0, 0],
        [0, 0, 0, 0, 1, 0, 0, 0, 0],
        [0, 0, 0, 0, 2, 0, 0, 0, 0],
        [0, 0, 0, 2, 2, 2, 0, 0, 0]
    ]);
    score = heuristic(&state);
    assert_eq!(score, std::i32::MIN);

    let mut state = State::init(BLACK.to_string());
    state.board = Board::new([
        [0, 0, 0, 2, 2, 0, 0, 0, 0],
        [0, 0, 0, 0, 2, 0, 0, 0, 0],
        [0, 0, 0, 0, 0, 2, 0, 0, 0],
        [2, 0, 0, 1, 3, 0, 0, 0, 2],
        [2, 2, 1, 1, 0, 2, 0, 2, 2],
        [2, 0, 0, 1, 2, 0, 0, 0, 0],
        [0, 0, 0, 0, 0, 0, 0, 0, 0],
        [0, 0, 0, 0, 2, 0, 0, 0, 0],
        [0, 0, 0, 2, 2, 0, 0, 0, 0]
    ]);
    let m = Move {
        from: Position {
            x: 8,
            y: 3
        },
        to: Position {
            x: 5,
            y: 3
        }
    };
    state.apply_move(&m);
    let score = heuristic(&state);
    assert_eq!(score, -95);

    let mut state = State::init(WHITE.to_string());
    state.board = Board::new([
        [0, 0, 0, 2, 2, 0, 0, 0, 0],
        [0, 0, 0, 0, 2, 0, 0, 0, 0],
        [0, 0, 0, 0, 1, 2, 0, 0, 0],
        [2, 0, 0, 1, 0, 0, 0, 0, 2],
        [2, 2, 1, 1, 3, 2, 0, 2, 2],
        [2, 0, 0, 1, 2, 0, 0, 0, 0],
        [0, 0, 0, 0, 0, 0, 0, 0, 0],
        [0, 0, 0, 0, 2, 0, 0, 0, 0],
        [0, 0, 0, 2, 2, 0, 0, 0, 0]
    ]);
    state.apply_move(&Move {
        from: Position {
            x: 4,
            y: 4
        },
        to: Position {
            x: 4,
            y: 3
        }
    });
    state.board = Board::new([
        [0, 0, 0, 2, 2, 0, 0, 0, 0],
        [0, 0, 0, 0, 2, 0, 0, 0, 0],
        [0, 0, 0, 0, 1, 2, 0, 0, 0],
        [2, 0, 0, 1, 3, 0, 0, 0, 2],
        [2, 2, 1, 1, 0, 2, 0, 2, 2],
        [2, 0, 0, 1, 2, 0, 0, 0, 0],
        [0, 0, 0, 0, 0, 0, 0, 0, 0],
        [0, 0, 0, 0, 2, 0, 0, 0, 0],
        [0, 0, 0, 2, 2, 0, 0, 0, 0]
    ]);
    state.apply_move(&Move {
        from: Position {
            x: 3,
            y: 0
        },
        to: Position {
            x: 3,
            y: 2
        }
    });
    let score = heuristic(&state);
    assert_eq!(score, 5000);

    let mut state = State::init(BLACK.to_string());
    state.board = Board::new([
        [0, 0, 0, 0, 2, 0, 0, 0, 0],
        [0, 0, 0, 0, 0, 0, 0, 2, 0],
        [0, 0, 0, 0, 1, 2, 0, 0, 0],
        [0, 0, 0, 2, 0, 3, 0, 0, 2],
        [2, 2, 0, 2, 0, 0, 1, 2, 2],
        [0, 0, 2, 1, 2, 0, 0, 0, 0],
        [0, 0, 0, 2, 0, 0, 0, 0, 0],
        [0, 0, 0, 0, 2, 0, 0, 0, 0],
        [0, 0, 0, 0, 2, 0, 0, 0, 0]
    ]);
    let score1 = heuristic(&state);
    state.board = Board::new([
        [0, 0, 0, 0, 2, 0, 0, 0, 0],
        [0, 0, 0, 0, 0, 0, 0, 2, 0],
        [0, 0, 0, 0, 1, 2, 0, 0, 0],
        [0, 0, 0, 2, 0, 3, 0, 0, 2],
        [2, 2, 0, 2, 0, 0, 1, 2, 2],
        [0, 0, 2, 1, 0, 2, 0, 0, 0],
        [0, 0, 0, 0, 0, 0, 0, 0, 0],
        [0, 0, 0, 0, 2, 0, 0, 0, 0],
        [0, 0, 0, 2, 2, 0, 0, 0, 0]
    ]);
    let score2 = heuristic(&state);
    assert!(score1 > score2);
}

#[test]
fn test_time_bound_alpha_beta_search() {
    let mut state = State::init(BLACK.to_string());
    state.board = Board::new([
        [0, 0, 0, 2, 2, 0, 0, 0, 0],
        [0, 0, 0, 0, 2, 0, 0, 0, 0],
        [0, 0, 0, 0, 1, 2, 0, 0, 0],
        [2, 0, 0, 1, 3, 0, 0, 0, 2],
        [2, 2, 1, 1, 0, 2, 0, 2, 2],
        [2, 0, 0, 1, 2, 0, 0, 0, 0],
        [0, 0, 0, 0, 0, 0, 0, 0, 0],
        [0, 0, 0, 0, 2, 0, 0, 0, 0],
        [0, 0, 0, 2, 2, 0, 0, 0, 0]
    ]);
    let end_instant = Instant::now().checked_add(Duration::new(60, 0)).unwrap();
    let chosen_move = time_bound_alpha_beta_search(&state, 2, end_instant);
    let predicted_move = Move {
        from: Position {
            x: 8,
            y: 3,
        },
        to: Position {
            x: 5,
            y: 3
        }
    };
    assert!(chosen_move.0.is_some());
    assert_eq!(chosen_move.0.unwrap(), predicted_move);
}

#[test]
fn test_iterative_time_bound_alpha_beta_search() {
    let mut state = State::init(WHITE.to_string());
    state.board = Board::new([
        [2, 0, 0, 0, 0, 0, 0, 0, 0],
        [0, 0, 0, 0, 0, 0, 0, 0, 0],
        [0, 0, 0, 0, 0, 0, 2, 1, 0],
        [2, 0, 3, 0, 1, 0, 0, 0, 2],
        [2, 2, 1, 1, 0, 1, 1, 2, 2],
        [2, 0, 0, 0, 1, 0, 2, 0, 0],
        [0, 0, 0, 0, 1, 0, 0, 0, 0],
        [0, 0, 0, 0, 2, 0, 0, 0, 0],
        [0, 0, 0, 2, 2, 2, 0, 0, 0]
    ]);
    let end_instant = Instant::now().checked_add(Duration::new(60, 0)).unwrap();
    let chosen_move = iterative_time_bound_alpha_beta_search(&state, 2, end_instant);
    let predicted_move = Move {
        from: Position {
            x: 2,
            y: 3,
        },
        to: Position {
            x: 2,
            y: 0
        }
    };
    assert!(chosen_move.is_some());
    assert_eq!(chosen_move.unwrap(), predicted_move);

    let mut state = State::init(BLACK.to_string());
    state.board = Board::new([
        [0, 0, 0, 2, 2, 0, 0, 0, 0],
        [0, 0, 0, 0, 2, 0, 0, 0, 0],
        [0, 0, 0, 0, 1, 2, 0, 0, 0],
        [2, 0, 0, 1, 3, 0, 0, 0, 2],
        [2, 2, 1, 1, 0, 2, 0, 2, 2],
        [2, 0, 0, 1, 2, 0, 0, 0, 0],
        [0, 0, 0, 0, 0, 0, 0, 0, 0],
        [0, 0, 0, 0, 2, 0, 0, 0, 0],
        [0, 0, 0, 2, 2, 0, 0, 0, 0]
    ]);
    let end_instant = Instant::now().checked_add(Duration::new(60, 0)).unwrap();
    let chosen_move = iterative_time_bound_alpha_beta_search(&state, 2, end_instant);
    let predicted_move = Move {
        from: Position {
            x: 8,
            y: 3,
        },
        to: Position {
            x: 5,
            y: 3
        }
    };
    assert!(chosen_move.is_some());
    assert_eq!(chosen_move.unwrap(), predicted_move);

    let mut state = State::init(BLACK.to_string());
    state.board = Board::new([
        [0, 0, 0, 0, 2, 0, 0, 0, 0],
        [0, 0, 0, 0, 2, 0, 0, 0, 0],
        [0, 1, 2, 0, 0, 2, 0, 0, 0],
        [2, 0, 3, 0, 0, 2, 0, 0, 0],
        [2, 2, 0, 2, 0, 2, 0, 2, 2],
        [0, 0, 2, 0, 2, 0, 0, 0, 0],
        [0, 0, 0, 0, 0, 0, 0, 0, 0],
        [0, 0, 0, 0, 2, 0, 0, 0, 0],
        [0, 0, 0, 0, 2, 0, 0, 0, 0]
    ]);
    let end_instant = Instant::now().checked_add(Duration::new(60, 0)).unwrap();
    let chosen_move = iterative_time_bound_alpha_beta_search(&state, 2, end_instant);
    let predicted_move = Move {
        from: Position {
            x: 1,
            y: 4,
        },
        to: Position {
            x: 2,
            y: 4
        }
    };
    assert!(chosen_move.is_some());
    assert_eq!(chosen_move.unwrap(), predicted_move);

    let mut state = State::init(BLACK.to_string());
    state.board = Board::new([
        [0, 0, 0, 0, 2, 0, 0, 0, 0],
        [0, 0, 0, 0, 0, 0, 0, 2, 0],
        [0, 0, 0, 0, 1, 2, 0, 0, 0],
        [0, 0, 0, 2, 0, 3, 0, 0, 2],
        [2, 2, 0, 2, 0, 0, 1, 2, 2],
        [0, 0, 2, 1, 2, 0, 0, 0, 0],
        [0, 0, 0, 0, 0, 0, 0, 0, 0],
        [0, 0, 0, 0, 2, 0, 0, 0, 0],
        [0, 0, 0, 2, 2, 0, 0, 0, 0]
    ]);
    let end_instant = Instant::now().checked_add(Duration::new(60, 0)).unwrap();
    let chosen_move = iterative_time_bound_alpha_beta_search(&state, 2, end_instant);
    let predicted_move = Move {
        from: Position {
            x: 4,
            y: 5,
        },
        to: Position {
            x: 5,
            y: 5
        }
    };
    assert!(chosen_move.is_some());
    assert_eq!(chosen_move.unwrap(), predicted_move);
}
