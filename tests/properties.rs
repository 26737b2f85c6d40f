use muscovite::constants::{B, BLACK, E, K, W, WHITE};
use muscovite::game::{Board, Move, Position, State, Status};
use muscovite::network::{decode_length, encode_length, frame_message};
use muscovite::rules::{
    captures, game_status, get_one_cell_closer, get_opposite_color, is_barrier, legal_move,
    legal_moves, obstacles,
};
use muscovite::search::{
    alpha_beta_search, deepening_step, heuristic, iterative_time_bound_alpha_beta_search,
    merge_evaluations,
    search_random, shard_ranges, time_bound_alpha_beta_search, MAX_SCORE, MIN_SCORE,
};
use muscovite::serialization::{board_from_names, cell_from_name, column_letter};
use std::time::{Duration, Instant};

fn mv(fx: u32, fy: u32, tx: u32, ty: u32) -> Move {
    Move { from: Position { x: fx, y: fy }, to: Position { x: tx, y: ty } }
}

fn piece_count(board: &Board) -> usize {
    board.white_cells().len() + board.black_cells().len() + board.filter_cells(K).len()
}

fn far_deadline() -> Instant {
    Instant::now().checked_add(Duration::new(60, 0)).unwrap()
}

#[test]
fn black_has_eighty_moves_at_start() {
    let state = State::init(BLACK.to_string());
    assert_eq!(legal_moves(&state).len(), 80);
}

#[test]
fn king_moves_for_white() {
    let mut state = State::init(WHITE.to_string());
    let mut board = Board::init();
    board.board[4][3] = E;
    state.board = board;
    let moves = legal_moves(&state);
    assert_eq!(moves.len(), 52);
    assert!(moves.contains(&mv(4, 4, 3, 4)));
}

#[test]
fn black_slides_within_its_camp() {
    let mut state = State::init(BLACK.to_string());
    let mut board = Board::init();
    board.board[4][0] = E;
    state.board = board;
    assert!(legal_move(&state, &mv(1, 4, 0, 4)));
    assert!(legal_move(&state, &mv(0, 3, 0, 4)));
    assert!(!legal_move(&state, &mv(2, 4, 1, 4)));
    let mut white = State::init(WHITE.to_string());
    white.board = board;
    assert!(!legal_move(&white, &mv(2, 4, 1, 4)));
}

#[test]
fn quiet_move_keeps_piece_count() {
    let mut board = Board::init();
    let before = piece_count(&board);
    let m = mv(4, 2, 1, 2);
    board.apply_move(&m);
    assert_eq!(captures(&board, &m), vec![]);
    assert_eq!(piece_count(&board), before);
    assert_eq!(board.cell_content(Position { x: 1, y: 2 }), W);
    assert_eq!(board.cell_content(Position { x: 4, y: 2 }), E);
}

#[test]
fn capture_removes_the_flanked_piece() {
    let mut board = Board::new([
        [0, 0, 0, 0, 2, 0, 0, 0, 0],
        [0, 0, 0, 0, 2, 0, 0, 0, 0],
        [0, 0, 0, 2, 1, 0, 0, 0, 0],
        [2, 0, 0, 0, 1, 0, 0, 0, 2],
        [2, 2, 1, 1, 3, 1, 1, 2, 2],
        [2, 0, 0, 0, 1, 0, 0, 0, 2],
        [0, 0, 0, 0, 1, 0, 0, 0, 0],
        [0, 0, 0, 0, 2, 0, 0, 0, 0],
        [0, 0, 0, 2, 2, 2, 0, 0, 0],
    ]);
    let before = piece_count(&board);
    board.apply_move(&mv(5, 8, 5, 2));
    assert_eq!(board.cell_content(Position { x: 4, y: 2 }), E);
    assert_eq!(board.cell_content(Position { x: 5, y: 2 }), B);
    assert_eq!(piece_count(&board), before - 1);
}

#[test]
fn captures_only_occupied_cells() {
    let board = Board::new([
        [0, 0, 0, 0, 2, 0, 0, 0, 0],
        [0, 0, 0, 0, 2, 0, 0, 0, 0],
        [0, 0, 0, 2, 1, 2, 1, 2, 0],
        [2, 0, 0, 0, 1, 0, 0, 0, 0],
        [2, 2, 1, 1, 3, 1, 0, 2, 2],
        [2, 0, 0, 0, 1, 0, 0, 0, 2],
        [0, 0, 0, 0, 1, 0, 0, 0, 0],
        [0, 0, 0, 0, 2, 0, 0, 0, 0],
        [0, 0, 0, 2, 2, 2, 0, 0, 0],
    ]);
    let c = captures(&board, &mv(5, 0, 5, 2));
    assert_eq!(c.len(), 2);
    for p in c {
        assert!(!board.is_empty(p));
    }
}

#[test]
fn king_fully_surrounded_on_throne_is_captured() {
    let board = Board::new([
        [0, 0, 0, 0, 2, 2, 0, 0, 0],
        [0, 0, 0, 0, 2, 1, 0, 0, 0],
        [0, 0, 0, 0, 1, 0, 0, 0, 0],
        [0, 0, 0, 0, 2, 0, 1, 1, 2],
        [2, 2, 1, 2, 3, 2, 0, 2, 2],
        [0, 0, 0, 0, 2, 0, 0, 1, 2],
        [0, 0, 0, 0, 1, 0, 0, 0, 0],
        [0, 0, 0, 1, 2, 0, 0, 0, 0],
        [0, 0, 0, 2, 2, 0, 0, 0, 0],
    ]);
    assert_eq!(captures(&board, &mv(5, 8, 5, 4)), vec![Position { x: 4, y: 4 }]);
}

#[test]
fn status_of_king_escape_and_capture() {
    let mut board = Board::init();
    board.board[4][4] = E;
    board.board[0][2] = K;
    let mut white = State::init(WHITE.to_string());
    white.board = board;
    assert_eq!(game_status(&white), Status::WIN);
    assert_eq!(heuristic(&white), MAX_SCORE);
    let mut black = State::init(BLACK.to_string());
    black.board = board;
    assert_eq!(game_status(&black), Status::LOSS);
    assert_eq!(heuristic(&black), MIN_SCORE);

    let mut no_king = Board::init();
    no_king.board[4][4] = E;
    white.board = no_king;
    black.board = no_king;
    assert_eq!(game_status(&white), Status::LOSS);
    assert_eq!(heuristic(&white), MIN_SCORE);
    assert_eq!(game_status(&black), Status::WIN);
    assert_eq!(heuristic(&black), MAX_SCORE);
}

#[test]
fn repeated_board_is_a_draw() {
    let mut state = State::init(WHITE.to_string());
    state.apply_move(&mv(4, 2, 1, 2));
    state.apply_move(&mv(3, 0, 3, 1));
    state.apply_move(&mv(1, 2, 4, 2));
    assert_eq!(game_status(&state), Status::ONGOING);
    state.apply_move(&mv(3, 1, 3, 0));
    assert!(state.board == Board::init());
    assert_eq!(game_status(&state), Status::DRAW);
    assert_eq!(heuristic(&state), 0);
}

#[test]
fn receive_records_board_and_status() {
    let mut state = State::init(WHITE.to_string());
    let mut board = Board::init();
    board.board[4][4] = E;
    state.receive(board, BLACK.to_string());
    assert_eq!(state.history.len(), 2);
    assert!(state.history[1] == board);
    assert_eq!(state.turn, BLACK.to_string());
    assert_eq!(state.status, Status::LOSS);
}

#[test]
fn obstacles_and_steps() {
    let state = State::init(WHITE.to_string());
    assert!(obstacles(&state, &mv(4, 2, 4, 0)));
    assert!(!obstacles(&state, &mv(4, 2, 1, 2)));
    assert!(obstacles(&state, &mv(4, 2, 4, 4)));
    assert_eq!(
        get_one_cell_closer(Position { x: 4, y: 2 }, Position { x: 1, y: 2 }),
        Some(Position { x: 3, y: 2 })
    );
    assert_eq!(get_one_cell_closer(Position { x: 4, y: 2 }, Position { x: 1, y: 3 }), None);
    let board = Board::init();
    assert!(is_barrier(&board, Position { x: 4, y: 1 }) == false);
    let mut empty_camp = Board::init();
    empty_camp.board[1][4] = E;
    assert!(is_barrier(&empty_camp, Position { x: 4, y: 1 }));
    assert_eq!(get_opposite_color(&WHITE.to_string()), BLACK.to_string());
    assert_eq!(get_opposite_color(&BLACK.to_string()), WHITE.to_string());
}

#[test]
fn board_neighbours() {
    let board = Board::init();
    let s = board.surrounding_cells(Position { x: 0, y: 0 });
    assert_eq!(s, [None, Some(Position { x: 0, y: 1 }), Some(Position { x: 1, y: 0 }), None]);
    assert_eq!(board.upper_cell(Position { x: 3, y: 0 }), None);
    assert_eq!(board.left_cell(Position { x: 3, y: 2 }), Some(Position { x: 2, y: 2 }));
    assert_eq!(board.king_cell(), Some(Position { x: 4, y: 4 }));
    assert!(board.is_king_in_throne());
    assert!(!board.is_king_next_throne());
    assert_eq!(board.white_cells().len(), 8);
    assert_eq!(board.black_cells().len(), 16);
    assert_eq!(board.cell_color(Position { x: 4, y: 4 }), Some(WHITE.to_string()));
    assert_eq!(board.cell_color(Position { x: 0, y: 0 }), None);
}

#[test]
fn search_is_deterministic() {
    let mut state = State::init(BLACK.to_string());
    state.board = Board::new([
        [0, 0, 0, 2, 2, 0, 0, 0, 0],
        [0, 0, 0, 0, 2, 0, 0, 0, 0],
        [0, 0, 0, 0, 1, 2, 0, 0, 0],
        [2, 0, 0, 1, 3, 0, 0, 0, 2],
        [2, 2, 1, 1, 0, 2, 0, 2, 2],
        [2, 0, 0, 1, 2, 0, 0, 0, 0],
        [0, 0, 0, 0, 0, 0, 0, 0, 0],
        [0, 0, 0, 0, 2, 0, 0, 0, 0],
        [0, 0, 0, 2, 2, 0, 0, 0, 0],
    ]);
    let a = alpha_beta_search(&state, 1);
    let b = alpha_beta_search(&state, 1);
    assert_eq!(a, b);
    let timed = time_bound_alpha_beta_search(&state, 1, far_deadline());
    assert!(timed.2);
    assert_eq!((timed.0, timed.1), a);
    let c = iterative_time_bound_alpha_beta_search(&state, 1, far_deadline());
    let d = iterative_time_bound_alpha_beta_search(&state, 1, far_deadline());
    assert_eq!(c, d);
    assert_eq!(c, Some(mv(8, 3, 6, 3)));
}

#[test]
fn passed_deadline_gives_unfinished_search() {
    let state = State::init(WHITE.to_string());
    let first = legal_moves(&state)[0];
    let r = time_bound_alpha_beta_search(&state, 2, Instant::now());
    assert!(!r.2);
    assert_eq!(r.0, Some(first));
    assert_eq!(iterative_time_bound_alpha_beta_search(&state, 2, Instant::now()), Some(first));
}

#[test]
fn no_move_without_pieces() {
    let mut state = State::init(BLACK.to_string());
    let mut board = Board::init();
    for y in 0..9 {
        for x in 0..9 {
            if board.board[y][x] == B {
                board.board[y][x] = E;
            }
        }
    }
    state.board = board;
    assert_eq!(alpha_beta_search(&state, 1).0, None);
    assert_eq!(search_random(&state), None);
    assert_eq!(iterative_time_bound_alpha_beta_search(&state, 1, far_deadline()), None);
}

#[test]
fn random_move_is_legal() {
    let state = State::init(WHITE.to_string());
    let moves = legal_moves(&state);
    for _ in 0..20 {
        let m = search_random(&state).unwrap();
        assert!(moves.contains(&m));
    }
}

#[test]
fn shards_cover_the_moves() {
    assert_eq!(shard_ranges(10, 3), vec![(0, 3), (3, 6), (6, 10)]);
    assert_eq!(shard_ranges(2, 4), vec![(0, 0), (0, 1), (1, 1), (1, 2)]);
    assert_eq!(shard_ranges(0, 2), vec![(0, 0), (0, 0)]);
}

#[test]
fn merge_keeps_the_extreme() {
    let a = mv(4, 2, 1, 2);
    let b = mv(4, 2, 2, 2);
    let c = mv(4, 2, 3, 2);
    let evaluated = vec![(a, 5, true), (b, 9, true), (c, 9, true), (c, 40, false)];
    assert_eq!(merge_evaluations(true, None, &evaluated), Some((b, 9)));
    assert_eq!(merge_evaluations(false, None, &evaluated), Some((a, 5)));
    assert_eq!(merge_evaluations(false, Some((c, 1)), &evaluated), Some((c, 1)));
    assert_eq!(merge_evaluations(true, None, &vec![]), None);
    assert_eq!(merge_evaluations(true, None, &vec![(a, -3, false)]), None);
}

#[test]
fn wire_lengths() {
    assert_eq!(encode_length(0x01020304), [1, 2, 3, 4]);
    assert_eq!(decode_length([0, 0, 1, 0]), 256);
    assert_eq!(decode_length(encode_length(5800)), 5800);
    let frame = frame_message(&b"hi".to_vec()).unwrap();
    assert_eq!(frame, vec![0, 0, 0, 2, b'h', b'i']);
}

#[test]
fn server_names() {
    assert_eq!(cell_from_name("WHITE"), W);
    assert_eq!(cell_from_name("BLACK"), B);
    assert_eq!(cell_from_name("KING"), K);
    assert_eq!(cell_from_name("EMPTY"), E);
    assert_eq!(cell_from_name("THRONE"), E);
    let names = ["EMPTY", "WHITE", "BLACK", "KING"];
    let rows: Vec<Vec<String>> = (0..9)
        .map(|y| (0..9).map(|x| names[(x + y) % 4].to_string()).collect())
        .collect();
    let board = board_from_names(&rows);
    assert_eq!(board.cell_content(Position { x: 1, y: 0 }), W);
    assert_eq!(board.cell_content(Position { x: 2, y: 1 }), K);
    assert_eq!(board.cell_content(Position { x: 0, y: 0 }), E);
    assert_eq!(column_letter(0), 'a');
    assert_eq!(column_letter(8), 'i');
}

#[test]
fn board_text_of_start() {
    let text = Board::init().to_text();
    let lines: Vec<&str> = text.lines().collect();
    assert_eq!(lines.len(), 20);
    assert_eq!(lines[0], "    a   b   c   d   e   f   g   h   i");
    assert_eq!(lines[1], "  ┌───┬───┬───┬───┬───┬───┬───┬───┬───┐");
    assert_eq!(lines[2], "1 │   │   │   │ ● │ ● │ ● │   │   │   │");
    assert_eq!(lines[3], "  ├───┼───┼───┼───┼───┼───┼───┼───┼───┤");
    assert_eq!(lines[10], "5 │ ● │ ● │ ○ │ ○ │ △ │ ○ │ ○ │ ● │ ● │");
    assert_eq!(lines[19], "  └───┴───┴───┴───┴───┴───┴───┴───┴───┘");
}

#[test]
fn deepening_step_outcomes() {
    let a = Some(mv(4, 2, 1, 2));
    let b = Some(mv(4, 2, 2, 2));
    assert_eq!(deepening_step(a, (b, 7, false)), (a, true));
    assert_eq!(deepening_step(a, (b, 7, true)), (b, false));
    assert_eq!(deepening_step(a, (b, MAX_SCORE, true)), (b, true));
    assert_eq!(deepening_step(None, (b, MIN_SCORE, true)), (b, true));
}

#[test]
fn ongoing_position_never_scores_zero() {
    let mut state = State::init(WHITE.to_string());
    let board = Board::new([
        [0, 0, 0, 0, 0, 0, 0, 0, 0],
        [0, 0, 0, 0, 2, 0, 1, 0, 0],
        [0, 0, 0, 0, 2, 0, 0, 0, 0],
        [0, 0, 0, 0, 0, 0, 0, 0, 2],
        [0, 0, 2, 0, 3, 2, 0, 0, 0],
        [0, 0, 0, 0, 0, 0, 0, 1, 0],
        [0, 0, 2, 0, 0, 0, 2, 0, 0],
        [0, 0, 2, 0, 0, 0, 0, 0, 0],
        [0, 0, 0, 0, 0, 0, 0, 0, 0],
    ]);
    state.board = board;
    state.history = vec![board];
    assert_eq!(game_status(&state), Status::ONGOING);
    assert_eq!(heuristic(&state), 1);
}

#[test]
fn heuristic_values() {
    let state = State::init(WHITE.to_string());
    assert_eq!(heuristic(&state), -10);
    let mut lost_piece = State::init(WHITE.to_string());
    let mut board = Board::init();
    board.board[0][3] = E;
    lost_piece.board = board;
    assert_eq!(heuristic(&lost_piece), 15);
}

#[test]
fn side_to_move_without_moves_loses() {
    let mut board = Board::init();
    for y in 0..9 {
        for x in 0..9 {
            if board.board[y][x] == B {
                board.board[y][x] = E;
            }
        }
    }
    let mut white = State::init(WHITE.to_string());
    white.board = board;
    white.turn = BLACK.to_string();
    assert_eq!(game_status(&white), Status::WIN);
    assert_eq!(heuristic(&white), MAX_SCORE);
    let mut black = State::init(BLACK.to_string());
    black.board = board;
    black.turn = BLACK.to_string();
    assert_eq!(game_status(&black), Status::LOSS);
    assert_eq!(heuristic(&black), MIN_SCORE);
    black.turn = WHITE.to_string();
    assert_eq!(game_status(&black), Status::ONGOING);
}
