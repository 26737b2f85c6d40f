use vstd::prelude::*;
use vstd::string::*;
use std::time::Instant;
use rand::Rng;
use crate::constants::{B, BLACK, E, F, K, T, W, WHITE};
use crate::game::{
    Board, Grid, Move, Position, Snapshot, State, Status, cells_with, grid_at, in_board, king_of,
    neighbor, valid_move, valid_position, well_formed,
};
use crate::rules::{
    after_move, barrier_at, game_status, get_opposite_color, is_barrier, is_legal_target_cell,
    is_white_color, legal_moves, legal_moves_of, obstacles, open_cell, path_blocked, plays_white,
    status_of, step_x, step_y, type_of,
};

verus! {

/// Score of a position won by white.
pub const MAX_SCORE: i32 = 2147483647;

/// Score of a position won by black.
pub const MIN_SCORE: i32 = -2147483648;

/// Score of a position where the king escapes next move.
pub const ESCAPE_NEXT_SCORE: i32 = 10000;

/// Score of a position where the king is likely to escape within two moves.
pub const ESCAPE_SOON_SCORE: i32 = 5000;

/// Score of a position where the king is likely to be captured next move.
pub const CAPTURE_NEXT_SCORE: i32 = -10000;

pub open spec fn b2i(b: bool) -> int {
    if b {
        1
    } else {
        0
    }
}

/// The edge cell in line with `p`: 0 top, 1 bottom, 2 left, 3 right.
pub open spec fn line_end(p: Position, i: int) -> Position {
    if i == 0 {
        Position { x: p.x, y: 0 }
    } else if i == 1 {
        Position { x: p.x, y: 8 }
    } else if i == 2 {
        Position { x: 0, y: p.y }
    } else {
        Position { x: 8, y: p.y }
    }
}

/// The line from `p` to the edge in direction `i` ends on an escape cell and
/// nothing stands in the way.
pub open spec fn free_escape(g: Grid, p: Position, i: int) -> bool {
    type_of(line_end(p, i)) == F && !path_blocked(g, Move { from: p, to: line_end(p, i) })
}

/// The number of free escape lines from `p`.
pub open spec fn escapes_from(g: Grid, p: Position) -> int {
    b2i(free_escape(g, p, 0)) + b2i(free_escape(g, p, 1)) + b2i(free_escape(g, p, 2)) + b2i(
        free_escape(g, p, 3),
    )
}

pub open spec fn max_int(a: int, b: int) -> int {
    if a >= b {
        a
    } else {
        b
    }
}

/// The most free escape lines from a cell that the king at `p` reaches sliding in
/// direction `d`, from step `k` on.
pub open spec fn best_escapes_dir(g: Grid, p: Position, d: int, k: int) -> int
    decreases 9 - k,
{
    let x = step_x(p, d, k);
    let y = step_y(p, d, k);
    if k < 1 || k > 8 || !in_board(x, y) || !open_cell(g, x, y) {
        0
    } else {
        max_int(
            escapes_from(g, Position { x: x as u32, y: y as u32 }),
            best_escapes_dir(g, p, d, k + 1),
        )
    }
}

/// The most free escape lines the king at `p` can have after one move.
pub open spec fn escapes_after_move(g: Grid, p: Position) -> int {
    max_int(
        max_int(best_escapes_dir(g, p, 0, 1), best_escapes_dir(g, p, 1, 1)),
        max_int(best_escapes_dir(g, p, 2, 1), best_escapes_dir(g, p, 3, 1)),
    )
}

pub open spec fn holds_at(g: Grid, q: Option<Position>, c: u32) -> bool {
    q is Some && grid_at(g, q->0) == c
}

pub open spec fn barrier_opt(g: Grid, q: Option<Position>) -> bool {
    q is Some && barrier_at(g, q->0)
}

/// Black soldiers next to `p`.
pub open spec fn black_adjacent(g: Grid, p: Position) -> int {
    b2i(holds_at(g, neighbor(p, 0), B)) + b2i(holds_at(g, neighbor(p, 1), B)) + b2i(
        holds_at(g, neighbor(p, 2), B),
    ) + b2i(holds_at(g, neighbor(p, 3), B))
}

/// Barriers next to `p`.
pub open spec fn barriers_adjacent(g: Grid, p: Position) -> int {
    b2i(barrier_opt(g, neighbor(p, 0))) + b2i(barrier_opt(g, neighbor(p, 1))) + b2i(
        barrier_opt(g, neighbor(p, 2)),
    ) + b2i(barrier_opt(g, neighbor(p, 3)))
}

pub open spec fn opposite_direction(d: int) -> int {
    if d == 0 {
        1
    } else if d == 1 {
        0
    } else if d == 2 {
        3
    } else {
        2
    }
}

/// Going from `a` in direction `e` from step `k` on, over open cells, the first
/// cell that is not open holds a black soldier: that soldier can slide to `a`.
pub open spec fn black_slides_to(g: Grid, a: Position, e: int, k: int) -> bool
    decreases 9 - k,
{
    let x = step_x(a, e, k);
    let y = step_y(a, e, k);
    if k < 1 || k > 8 || !in_board(x, y) {
        false
    } else if open_cell(g, x, y) {
        black_slides_to(g, a, e, k + 1)
    } else {
        g[y][x] == B
    }
}

/// The cell next to the king at `p` in direction `d` is open, and a black soldier
/// can slide onto it coming from direction `e` (not from the king's side).
pub open spec fn threat_in(g: Grid, p: Position, d: int, e: int) -> bool {
    let a = neighbor(p, d);
    a is Some && open_cell(g, a->0.x as int, a->0.y as int) && e != opposite_direction(d)
        && black_slides_to(g, a->0, e, 1)
}

/// Slides onto the cell next to the king in direction `d`, from the first `n`
/// directions.
pub open spec fn threats_at(g: Grid, p: Position, d: int, n: int) -> int
    decreases n,
{
    if n <= 0 {
        0
    } else {
        threats_at(g, p, d, n - 1) + b2i(threat_in(g, p, d, n - 1))
    }
}

/// Slides onto the cells next to the king in the first `n` directions.
pub open spec fn threats_upto(g: Grid, p: Position, n: int) -> int
    decreases n,
{
    if n <= 0 {
        0
    } else {
        threats_upto(g, p, n - 1) + threats_at(g, p, n - 1, 4)
    }
}

/// How black soldiers can close in on the king at `p` in one move: each slide
/// of a black soldier onto a free cell next to the king counts once.
pub open spec fn threats(g: Grid, p: Position) -> int {
    threats_upto(g, p, 4)
}

/// Bonus for the king standing on a cell, rewarding the lanes towards the escapes
/// and penalizing the throne.
pub open spec fn position_weight(x: int, y: int) -> int {
    if y == 1 || y == 7 {
        if x == 1 || x == 7 {
            5
        } else if x == 2 || x == 6 {
            10
        } else {
            0
        }
    } else if y == 2 || y == 6 {
        if x == 1 || x == 7 {
            5
        } else if x == 2 || x == 6 {
            10
        } else if 3 <= x <= 5 {
            5
        } else {
            0
        }
    } else if y == 4 {
        if x == 2 || x == 6 {
            5
        } else if x == 4 {
            -10
        } else {
            0
        }
    } else {
        0
    }
}

pub open spec fn next_to_throne(p: Position) -> bool {
    exists|d: int|
        0 <= d < 4 && #[trigger] neighbor(p, d) is Some && type_of(neighbor(p, d)->0) == T
}

/// Where the king stood on the board before the last one, if it was there.
pub open spec fn previous_king(s: Snapshot, k: Position) -> Position {
    if s.history.len() >= 2 && king_of(s.history[s.history.len() - 2]) is Some {
        king_of(s.history[s.history.len() - 2])->0
    } else {
        k
    }
}

/// The score of an ongoing game with the king at `k`, positive in white's favour;
/// never 0, which is kept for a draw.
pub open spec fn ongoing_score(s: Snapshot, k: Position) -> int {
    let g = s.grid;
    let escapes = escapes_from(g, k);
    let escapes_next = escapes_after_move(g, k);
    let blacks = black_adjacent(g, k);
    let barriers = barriers_adjacent(g, k);
    let threat = threats(g, k);
    let in_throne = type_of(k) == T;
    let near_throne = next_to_throne(k);
    let moved = previous_king(s, k) != k;
    if escapes >= 2 && (barriers == 0 || blacks <= 1) {
        ESCAPE_NEXT_SCORE as int
    } else if escapes_next >= 2 && ((in_throne && (blacks <= 2 || (blacks <= 3 && threat == 0)))
        || (near_throne && (blacks <= 1 || (blacks <= 2 && threat == 0))) || (!in_throne
        && !near_throne && (blacks == 0 || (blacks <= 1 && threat == 0)))) {
        ESCAPE_SOON_SCORE as int
    } else if moved && !in_throne && !near_throne && barriers > 0 && threat > 0 {
        CAPTURE_NEXT_SCORE as int
    } else {
        let v = ordinary_score(s, k);
        if v == 0 {
            1
        } else {
            v
        }
    }
}

/// The weighted sum behind the score of an ongoing game: material, free escape
/// lines now and after one king move, black soldiers next to the king, black
/// soldiers about to close in, and where the king stands.
pub open spec fn ordinary_score(s: Snapshot, k: Position) -> int {
    let g = s.grid;
    (cells_with(g, W).len() - cells_with(g, B).len() + 8) * 25 + escapes_from(g, k) * 70
        + escapes_after_move(g, k) * 35 - black_adjacent(g, k) * 10 - threats(g, k) * 10
        + position_weight(k.x as int, k.y as int)
}

/// The heuristic value of a state: `MAX_SCORE` when the side `s.color` has won,
/// `MIN_SCORE` when it has lost, 0 for a draw; an ongoing game is scored
/// positive in white's favour.
pub open spec fn heuristic_of(s: Snapshot) -> int {
    let status = status_of(s);
    if status == Status::WIN {
        MAX_SCORE as int
    } else if status == Status::LOSS {
        MIN_SCORE as int
    } else if status == Status::DRAW {
        0
    } else {
        ongoing_score(s, king_of(s.grid)->0)
    }
}


fn line_end_exec(p: Position, i: usize) -> (r: Position)
    ensures
        r == line_end(p, i as int),
{
    if i == 0 {
        Position { x: p.x, y: 0 }
    } else if i == 1 {
        Position { x: p.x, y: 8 }
    } else if i == 2 {
        Position { x: 0, y: p.y }
    } else {
        Position { x: 8, y: p.y }
    }
}

/// The number of free escape lines from `p`.
fn king_escapes(state: &State, p: Position) -> (r: u32)
    requires
        valid_position(p),
    ensures
        r == escapes_from(state.board@, p),
{
    let mut n: u32 = 0;
    let mut i: usize = 0;
    while i < 4
        invariant
            i <= 4,
            valid_position(p),
            n == if i == 0 {
                0
            } else if i == 1 {
                b2i(free_escape(state.board@, p, 0))
            } else if i == 2 {
                b2i(free_escape(state.board@, p, 0)) + b2i(free_escape(state.board@, p, 1))
            } else if i == 3 {
                b2i(free_escape(state.board@, p, 0)) + b2i(free_escape(state.board@, p, 1))
                    + b2i(free_escape(state.board@, p, 2))
            } else {
                escapes_from(state.board@, p)
            },
        decreases 4 - i,
    {
        let e = line_end_exec(p, i);
        if state.board.cell_type(e) == F && !obstacles(state, &Move { from: p, to: e }) {
            n = n + 1;
        }
        i = i + 1;
    }
    n
}

/// The most free escape lines from a cell the king at `p` reaches sliding in
/// direction `d`.
fn best_escapes_in_direction(state: &State, p: Position, d: usize) -> (r: u32)
    requires
        valid_position(p),
        d < 4,
    ensures
        r == best_escapes_dir(state.board@, p, d as int, 1),
        r <= 4,
{
    let mut best: u32 = 0;
    let mut k: u32 = 1;
    loop
        invariant_except_break
            max_int(best as int, best_escapes_dir(state.board@, p, d as int, k as int))
                == best_escapes_dir(state.board@, p, d as int, 1),
        invariant
            1 <= k <= 9,
            best <= 4,
            valid_position(p),
            d < 4,
        ensures
            best == best_escapes_dir(state.board@, p, d as int, 1),
        decreases 9 - k,
    {
        match crate::rules::step_exec(p, d, k) {
            None => {
                break ;
            },
            Some(c) => {
                if !is_legal_target_cell(state, c) {
                    break ;
                }
                let e = king_escapes(state, c);
                assert(c == Position { x: step_x(p, d as int, k as int) as u32, y: step_y(p, d as int, k as int) as u32 });
                if e > best {
                    best = e;
                }
                k = k + 1;
            },
        }
    }
    best
}

fn count_holding(board: &Board, s: [Option<Position>; 4], c: u32) -> (r: u32)
    requires
        forall|d: int| 0 <= d < 4 ==> (#[trigger] s[d] is Some ==> valid_position(s[d]->0)),
    ensures
        r == b2i(holds_at(board@, s[0], c)) + b2i(holds_at(board@, s[1], c)) + b2i(
            holds_at(board@, s[2], c),
        ) + b2i(holds_at(board@, s[3], c)),
        r <= 4,
{
    let mut n: u32 = 0;
    let mut i: usize = 0;
    while i < 4
        invariant
            i <= 4,
            n <= i,
            forall|d: int| 0 <= d < 4 ==> (#[trigger] s[d] is Some ==> valid_position(s[d]->0)),
            n == if i == 0 {
                0
            } else if i == 1 {
                b2i(holds_at(board@, s[0], c))
            } else if i == 2 {
                b2i(holds_at(board@, s[0], c)) + b2i(holds_at(board@, s[1], c))
            } else if i == 3 {
                b2i(holds_at(board@, s[0], c)) + b2i(holds_at(board@, s[1], c)) + b2i(
                    holds_at(board@, s[2], c),
                )
            } else {
                b2i(holds_at(board@, s[0], c)) + b2i(holds_at(board@, s[1], c)) + b2i(
                    holds_at(board@, s[2], c),
                ) + b2i(holds_at(board@, s[3], c))
            },
        decreases 4 - i,
    {
        assert(s[i as int] is Some ==> valid_position(s[i as int]->0));
        if let Some(q) = s[i] {
            if board.cell_content(q) == c {
                n = n + 1;
            }
        }
        i = i + 1;
    }
    n
}

fn count_barriers(board: &Board, s: [Option<Position>; 4]) -> (r: u32)
    requires
        forall|d: int| 0 <= d < 4 ==> (#[trigger] s[d] is Some ==> valid_position(s[d]->0)),
    ensures
        r == b2i(barrier_opt(board@, s[0])) + b2i(barrier_opt(board@, s[1])) + b2i(
            barrier_opt(board@, s[2]),
        ) + b2i(barrier_opt(board@, s[3])),
        r <= 4,
{
    let mut n: u32 = 0;
    let mut i: usize = 0;
    while i < 4
        invariant
            i <= 4,
            n <= i,
            forall|d: int| 0 <= d < 4 ==> (#[trigger] s[d] is Some ==> valid_position(s[d]->0)),
            n == if i == 0 {
                0
            } else if i == 1 {
                b2i(barrier_opt(board@, s[0]))
            } else if i == 2 {
                b2i(barrier_opt(board@, s[0])) + b2i(barrier_opt(board@, s[1]))
            } else if i == 3 {
                b2i(barrier_opt(board@, s[0])) + b2i(barrier_opt(board@, s[1])) + b2i(
                    barrier_opt(board@, s[2]),
                )
            } else {
                b2i(barrier_opt(board@, s[0])) + b2i(barrier_opt(board@, s[1])) + b2i(
                    barrier_opt(board@, s[2]),
                ) + b2i(barrier_opt(board@, s[3]))
            },
        decreases 4 - i,
    {
        assert(s[i as int] is Some ==> valid_position(s[i as int]->0));
        if let Some(q) = s[i] {
            if is_barrier(board, q) {
                n = n + 1;
            }
        }
        i = i + 1;
    }
    n
}

/// A black soldier can slide to `a` coming from direction `e`.
fn black_slides_exec(board: &Board, a: Position, e: usize) -> (r: bool)
    requires
        valid_position(a),
        e < 4,
    ensures
        r == black_slides_to(board@, a, e as int, 1),
{
    let mut k: u32 = 1;
    loop
        invariant
            1 <= k <= 9,
            valid_position(a),
            e < 4,
            black_slides_to(board@, a, e as int, k as int) == black_slides_to(board@, a, e as int, 1),
        decreases 9 - k,
    {
        match crate::rules::step_exec(a, e, k) {
            None => {
                return false;
            },
            Some(c) => {
                let content = board.cell_content(c);
                let t = board.cell_type(c);
                if !(content == E && (t == crate::constants::R || t == F)) {
                    return content == B;
                }
                k = k + 1;
            },
        }
    }
}

fn position_weight_exec(x: u32, y: u32) -> (r: i32)
    ensures
        r == position_weight(x as int, y as int),
{
    if y == 1 || y == 7 {
        if x == 1 || x == 7 {
            5
        } else if x == 2 || x == 6 {
            10
        } else {
            0
        }
    } else if y == 2 || y == 6 {
        if x == 1 || x == 7 {
            5
        } else if x == 2 || x == 6 {
            10
        } else if 3 <= x && x <= 5 {
            5
        } else {
            0
        }
    } else if y == 4 {
        if x == 2 || x == 6 {
            5
        } else if x == 4 {
            -10
        } else {
            0
        }
    } else {
        0
    }
}


/// The most free escape lines the king at `p` can have after one move.
fn king_escapes_after_move(state: &State, p: Position) -> (r: u32)
    requires
        valid_position(p),
    ensures
        r == escapes_after_move(state.board@, p),
        r <= 4,
{
    let up = best_escapes_in_direction(state, p, 0);
    let down = best_escapes_in_direction(state, p, 1);
    let right = best_escapes_in_direction(state, p, 2);
    let left = best_escapes_in_direction(state, p, 3);
    let vertical = if up >= down {
        up
    } else {
        down
    };
    let horizontal = if right >= left {
        right
    } else {
        left
    };
    if vertical >= horizontal {
        vertical
    } else {
        horizontal
    }
}

/// How black soldiers can close in on the king at `p` in one move.
fn count_threats(board: &Board, p: Position) -> (r: u32)
    requires
        valid_position(p),
    ensures
        r == threats(board@, p),
        r <= 16,
{
    let around = board.surrounding_cells(p);
    let mut total: u32 = 0;
    let mut d: usize = 0;
    while d < 4
        invariant
            d <= 4,
            total <= 4 * d,
            valid_position(p),
            forall|i: int| 0 <= i < 4 ==> #[trigger] around[i] == neighbor(p, i),
            total == threats_upto(board@, p, d as int),
        decreases 4 - d,
    {
        let mut here: u32 = 0;
        let mut e: usize = 0;
        assert(around[d as int] == neighbor(p, d as int));
        while e < 4
            invariant
                e <= 4,
                d < 4,
                here <= e,
                valid_position(p),
                around[d as int] == neighbor(p, d as int),
                here == threats_at(board@, p, d as int, e as int),
            decreases 4 - e,
        {
            let opposite: usize = if d == 0 {
                1
            } else if d == 1 {
                0
            } else if d == 2 {
                3
            } else {
                2
            };
            if let Some(a) = around[d] {
                if e != opposite && crate::rules::is_open_cell(board, a) && black_slides_exec(
                    board,
                    a,
                    e,
                ) {
                    here = here + 1;
                }
            }
            e = e + 1;
        }
        total = total + here;
        d = d + 1;
    }
    total
}

/// The score of an ongoing game with the king at `king`.
#[verifier::rlimit(60)]
fn ongoing_value(state: &State, king: Position) -> (r: i32)
    requires
        valid_position(king),
    ensures
        r == ongoing_score(state@, king),
{
    let board = &state.board;
    proof {
        crate::game::lemma_cells_with(board@, W, 9);
        crate::game::lemma_cells_with(board@, B, 9);
        crate::game::lemma_cells_with(board@, K, 9);
    }
    let n = state.history.len();
    let previous = if n >= 2 {
        match state.history[n - 2].king_cell() {
            Some(pk) => pk,
            None => king,
        }
    } else {
        king
    };
    assert(previous == previous_king(state@, king));
    let king_moved = previous != king;
    let around = board.surrounding_cells(king);
    let king_in_throne = board.cell_type(king) == T;
    let king_next_throne = next_to_throne_exec(board, king);

    let escapes = king_escapes(state, king);
    let escapes_next = king_escapes_after_move(state, king);
    let blacks = count_holding(board, around, B);
    let barriers = count_barriers(board, around);
    let threat = count_threats(board, king);

    // Winning in one move
    if escapes >= 2 && (barriers == 0 || blacks <= 1) {
        return ESCAPE_NEXT_SCORE;
    }
    // Winning in two moves
    if escapes_next >= 2 && ((king_in_throne && (blacks <= 2 || (blacks <= 3 && threat == 0)))
        || (king_next_throne && (blacks <= 1 || (blacks <= 2 && threat == 0))) || (
    !king_in_throne && !king_next_throne && (blacks == 0 || (blacks <= 1 && threat == 0)))) {
        return ESCAPE_SOON_SCORE;
    }
    // Losing in one move
    if king_moved && !king_in_throne && !king_next_throne && barriers > 0 && threat > 0 {
        return CAPTURE_NEXT_SCORE;
    }

    let whites = board.white_cells().len() as i32;
    let black_count = board.black_cells().len() as i32;
    let mut value: i32 = (whites - black_count + 8) * 25;
    value = value + escapes as i32 * 70;
    value = value + escapes_next as i32 * 35;
    value = value - blacks as i32 * 10;
    value = value - threat as i32 * 10;
    value = value + position_weight_exec(king.x, king.y);
    if value == 0 {
        1
    } else {
        value
    }
}

fn next_to_throne_exec(board: &Board, p: Position) -> (r: bool)
    requires
        valid_position(p),
    ensures
        r == next_to_throne(p),
{
    let s = board.surrounding_cells(p);
    let mut i: usize = 0;
    while i < 4
        invariant
            i <= 4,
            valid_position(p),
            forall|d: int| 0 <= d < 4 ==> #[trigger] s[d] == neighbor(p, d),
            forall|d: int|
                0 <= d < i ==> !(#[trigger] neighbor(p, d) is Some && type_of(neighbor(p, d)->0)
                    == T),
        decreases 4 - i,
    {
        assert(s[i as int] == neighbor(p, i as int));
        if let Some(c) = s[i] {
            if board.cell_type(c) == T {
                return true;
            }
        }
        i = i + 1;
    }
    false
}

/// The heuristic value of a state: `MAX_SCORE` when the side `state.color` has
/// won, `MIN_SCORE` when it has lost, 0 for a draw; an ongoing game is scored
/// positive in white's favour, and never 0.
pub fn heuristic(state: &State) -> (r: i32)
    ensures
        r == heuristic_of(state@),
{
    let status = game_status(state);
    if status == Status::WIN {
        return MAX_SCORE;
    }
    if status == Status::LOSS {
        return MIN_SCORE;
    }
    if status == Status::DRAW {
        return 0;
    }
    proof {
        crate::game::lemma_cells_with(state.board@, K, 9);
    }
    let king = state.board.king_cell().unwrap();
    ongoing_value(state, king)
}


#[verifier::external_type_specification]
#[verifier::external_body]
pub struct ExInstant(Instant);

/// Relies on `std::time::Instant::now`: the current instant of the monotonic clock.
#[verifier::external_body]
fn now() -> Instant {
    Instant::now()
}

/// Relies on the order of `std::time::Instant` (`PartialOrd::ge`): `a` is at or
/// after `b`.
#[verifier::external_body]
fn at_or_after(a: &Instant, b: &Instant) -> bool {
    *a >= *b
}

/// The clock has reached `end`. Nothing is known of the answer.
fn deadline_reached(end: &Instant) -> bool {
    let t = now();
    at_or_after(&t, end)
}

pub open spec fn opposite_color(c: Seq<char>) -> Seq<char> {
    if plays_white(c) {
        BLACK@
    } else {
        WHITE@
    }
}

/// The state after the move `m`: the board recorded in the history, the move
/// played, the other side's point of view and its turn to move.
pub open spec fn result_of(s: Snapshot, m: Move) -> Snapshot {
    Snapshot {
        grid: after_move(s.grid, m),
        history: s.history.push(s.grid),
        color: opposite_color(s.color),
        turn: opposite_color(s.color),
    }
}

pub open spec fn is_terminal(s: Snapshot) -> bool {
    status_of(s) != Status::ONGOING
}

pub open spec fn moves_of(s: Snapshot) -> Seq<Move> {
    legal_moves_of(s.grid, s.color)
}

/// The heuristic on white's scale, which the search uses: for a state seen by
/// black, the win and loss scores are exchanged.
pub open spec fn leaf_value(s: Snapshot) -> int {
    let h = heuristic_of(s);
    if !plays_white(s.color) && h == MAX_SCORE as int {
        MIN_SCORE as int
    } else if !plays_white(s.color) && h == MIN_SCORE as int {
        MAX_SCORE as int
    } else {
        h
    }
}

pub open spec fn max_of(a: int, b: int) -> int {
    if a >= b {
        a
    } else {
        b
    }
}

pub open spec fn min_of(a: int, b: int) -> int {
    if a <= b {
        a
    } else {
        b
    }
}

/// Alpha-beta value of `s` for the maximizing side (white), `depth` plies deep.
pub open spec fn max_value_of(s: Snapshot, alpha: int, beta: int, depth: nat) -> int
    decreases depth, 1nat, 0nat,
{
    if depth == 0 || is_terminal(s) {
        leaf_value(s)
    } else {
        max_loop(s, moves_of(s), 0, alpha, beta, MIN_SCORE as int, depth)
    }
}

/// The maximizing side tries the moves of `ms` from the `i`-th on, with the best
/// value so far `best`; it stops once `alpha` reaches `beta`.
pub open spec fn max_loop(
    s: Snapshot,
    ms: Seq<Move>,
    i: int,
    alpha: int,
    beta: int,
    best: int,
    depth: nat,
) -> int
    decreases depth, 0nat, ms.len() - i,
{
    if i >= ms.len() || i < 0 || depth == 0 {
        best
    } else {
        let v = min_value_of(result_of(s, ms[i]), alpha, beta, (depth - 1) as nat);
        let b = max_of(best, v);
        let a = max_of(alpha, v);
        if beta <= a {
            b
        } else {
            max_loop(s, ms, i + 1, a, beta, b, depth)
        }
    }
}

/// Alpha-beta value of `s` for the minimizing side (black), `depth` plies deep.
pub open spec fn min_value_of(s: Snapshot, alpha: int, beta: int, depth: nat) -> int
    decreases depth, 1nat, 0nat,
{
    if depth == 0 || is_terminal(s) {
        leaf_value(s)
    } else {
        min_loop(s, moves_of(s), 0, alpha, beta, MAX_SCORE as int, depth)
    }
}

pub open spec fn min_loop(
    s: Snapshot,
    ms: Seq<Move>,
    i: int,
    alpha: int,
    beta: int,
    best: int,
    depth: nat,
) -> int
    decreases depth, 0nat, ms.len() - i,
{
    if i >= ms.len() || i < 0 || depth == 0 {
        best
    } else {
        let v = max_value_of(result_of(s, ms[i]), alpha, beta, (depth - 1) as nat);
        let b = min_of(best, v);
        let bb = min_of(beta, v);
        if bb <= alpha {
            b
        } else {
            min_loop(s, ms, i + 1, alpha, bb, b, depth)
        }
    }
}


/// The root of the search tries the moves of `ms` from the `i`-th on: white keeps
/// the first move of highest value, black the first of lowest value.
pub open spec fn root_loop(
    s: Snapshot,
    ms: Seq<Move>,
    i: int,
    alpha: int,
    beta: int,
    best: Option<Move>,
    depth: nat,
) -> (Option<Move>, int)
    decreases ms.len() - i,
{
    if i >= ms.len() || i < 0 {
        (best, if plays_white(s.color) { alpha } else { beta })
    } else if plays_white(s.color) {
        let v = min_value_of(result_of(s, ms[i]), alpha, beta, depth);
        if v > alpha || best is None {
            root_loop(s, ms, i + 1, v, beta, Some(ms[i]), depth)
        } else {
            root_loop(s, ms, i + 1, alpha, beta, best, depth)
        }
    } else {
        let v = max_value_of(result_of(s, ms[i]), alpha, beta, depth);
        if v < beta || best is None {
            root_loop(s, ms, i + 1, alpha, v, Some(ms[i]), depth)
        } else {
            root_loop(s, ms, i + 1, alpha, beta, best, depth)
        }
    }
}

/// The move the search picks for the side `s.color`, with its value; no move when
/// that side has none.
pub open spec fn search_of(s: Snapshot, depth: nat) -> (Option<Move>, int) {
    root_loop(s, moves_of(s), 0, MIN_SCORE as int, MAX_SCORE as int, None, depth)
}

/// The moves to try from `state`: the legal moves of its side.
pub fn actions(state: &State) -> (r: Vec<Move>)
    ensures
        r@ == moves_of(state@),
        forall|i: int| 0 <= i < r@.len() ==> valid_move(#[trigger] r@[i]),
{
    proof {
        crate::rules::lemma_legal_moves_valid(state.board@, state.color@, 9);
    }
    legal_moves(state)
}

/// The state after the move `m`, seen by the other side.
pub fn result(state: &State, m: &Move) -> (r: State)
    requires
        valid_move(*m),
    ensures
        r@ == result_of(state@, *m),
{
    let mut history: Vec<Board> = Vec::new();
    let mut i: usize = 0;
    while i < state.history.len()
        invariant
            i <= state.history.len(),
            history@ == state.history@.take(i as int),
        decreases state.history.len() - i,
    {
        history.push(state.history[i]);
        assert(history@ =~= state.history@.take(i + 1));
        i = i + 1;
    }
    assert(history@ =~= state.history@);
    history.push(state.board);
    let mut board = state.board;
    board.apply_move(m);
    let r = State {
        color: get_opposite_color(&state.color),
        board,
        turn: get_opposite_color(&state.color),
        history,
        status: state.status,
    };
    assert(crate::game::boards_view(r.history@) =~= state@.history.push(state@.grid));
    r
}

/// The game is over in `state`.
pub fn terminal_test(state: &State) -> (r: bool)
    ensures
        r == is_terminal(state@),
{
    game_status(state) != Status::ONGOING
}

/// The heuristic of `state` on white's scale.
fn leaf_score(state: &State) -> (r: i32)
    ensures
        r == leaf_value(state@),
{
    let h = heuristic(state);
    if !is_white_color(&state.color) {
        if h == MAX_SCORE {
            return MIN_SCORE;
        }
        if h == MIN_SCORE {
            return MAX_SCORE;
        }
    }
    h
}

fn max_value(state: &State, alpha: i32, beta: i32, depth: u32) -> (r: i32)
    ensures
        r == max_value_of(state@, alpha as int, beta as int, depth as nat),
    decreases depth,
{
    if depth == 0 || terminal_test(state) {
        return leaf_score(state);
    }
    let moves = actions(state);
    let mut best: i32 = MIN_SCORE;
    let mut a: i32 = alpha;
    let mut i: usize = 0;
    while i < moves.len()
        invariant
            i <= moves.len(),
            depth > 0,
            moves@ == moves_of(state@),
            forall|j: int| 0 <= j < moves@.len() ==> valid_move(#[trigger] moves@[j]),
            max_loop(state@, moves@, i as int, a as int, beta as int, best as int, depth as nat)
                == max_value_of(state@, alpha as int, beta as int, depth as nat),
        decreases moves.len() - i,
    {
        let child = result(state, &moves[i]);
        let v = min_value(&child, a, beta, depth - 1);
        if v > best {
            best = v;
        }
        if v > a {
            a = v;
        }
        if beta <= a {
            return best;
        }
        i = i + 1;
    }
    best
}

fn min_value(state: &State, alpha: i32, beta: i32, depth: u32) -> (r: i32)
    ensures
        r == min_value_of(state@, alpha as int, beta as int, depth as nat),
    decreases depth,
{
    if depth == 0 || terminal_test(state) {
        return leaf_score(state);
    }
    let moves = actions(state);
    let mut best: i32 = MAX_SCORE;
    let mut b: i32 = beta;
    let mut i: usize = 0;
    while i < moves.len()
        invariant
            i <= moves.len(),
            depth > 0,
            moves@ == moves_of(state@),
            forall|j: int| 0 <= j < moves@.len() ==> valid_move(#[trigger] moves@[j]),
            min_loop(state@, moves@, i as int, alpha as int, b as int, best as int, depth as nat)
                == min_value_of(state@, alpha as int, beta as int, depth as nat),
        decreases moves.len() - i,
    {
        let child = result(state, &moves[i]);
        let v = max_value(&child, alpha, b, depth - 1);
        if v < best {
            best = v;
        }
        if v < b {
            b = v;
        }
        if b <= alpha {
            return best;
        }
        i = i + 1;
    }
    best
}

/// Alpha-beta search from `state` for the side `state.color`: white maximizes,
/// black minimizes. Each reply is searched `depth` plies deep. Returns the chosen
/// move, none when the side has no legal move, and its value.
pub fn alpha_beta_search(state: &State, depth: u32) -> (r: (Option<Move>, i32))
    ensures
        (r.0, r.1 as int) == search_of(state@, depth as nat),
{
    let moves = actions(state);
    let white = is_white_color(&state.color);
    let mut best_action: Option<Move> = None;
    let mut alpha: i32 = MIN_SCORE;
    let mut beta: i32 = MAX_SCORE;
    let mut i: usize = 0;
    while i < moves.len()
        invariant
            i <= moves.len(),
            white == plays_white(state@.color),
            moves@ == moves_of(state@),
            forall|j: int| 0 <= j < moves@.len() ==> valid_move(#[trigger] moves@[j]),
            root_loop(state@, moves@, i as int, alpha as int, beta as int, best_action, depth as nat)
                == search_of(state@, depth as nat),
        decreases moves.len() - i,
    {
        let child = result(state, &moves[i]);
        if white {
            let value = min_value(&child, alpha, beta, depth);
            if value > alpha || best_action.is_none() {
                alpha = value;
                best_action = Some(moves[i]);
            }
        } else {
            let value = max_value(&child, alpha, beta, depth);
            if value < beta || best_action.is_none() {
                beta = value;
                best_action = Some(moves[i]);
            }
        }
        i = i + 1;
    }
    (best_action, if white { alpha } else { beta })
}


/// `max_value` under a deadline: the flag tells whether the search finished in
/// time, and only then is the value the alpha-beta value.
fn max_value_timed(state: &State, alpha: i32, beta: i32, depth: u32, end: &Instant) -> (r: (
    i32,
    bool,
))
    ensures
        r.1 ==> r.0 == max_value_of(state@, alpha as int, beta as int, depth as nat),
    decreases depth,
{
    if deadline_reached(end) {
        return (0, false);
    }
    if depth == 0 || terminal_test(state) {
        return (leaf_score(state), true);
    }
    let moves = actions(state);
    let mut best: i32 = MIN_SCORE;
    let mut a: i32 = alpha;
    let mut i: usize = 0;
    while i < moves.len()
        invariant
            i <= moves.len(),
            depth > 0,
            moves@ == moves_of(state@),
            forall|j: int| 0 <= j < moves@.len() ==> valid_move(#[trigger] moves@[j]),
            max_loop(state@, moves@, i as int, a as int, beta as int, best as int, depth as nat)
                == max_value_of(state@, alpha as int, beta as int, depth as nat),
        decreases moves.len() - i,
    {
        let child = result(state, &moves[i]);
        let (v, completed) = min_value_timed(&child, a, beta, depth - 1, end);
        if !completed {
            return (best, false);
        }
        if v > best {
            best = v;
        }
        if v > a {
            a = v;
        }
        if beta <= a {
            return (best, true);
        }
        i = i + 1;
    }
    (best, true)
}

/// `min_value` under a deadline, as `max_value_timed`.
fn min_value_timed(state: &State, alpha: i32, beta: i32, depth: u32, end: &Instant) -> (r: (
    i32,
    bool,
))
    ensures
        r.1 ==> r.0 == min_value_of(state@, alpha as int, beta as int, depth as nat),
    decreases depth,
{
    if deadline_reached(end) {
        return (0, false);
    }
    if depth == 0 || terminal_test(state) {
        return (leaf_score(state), true);
    }
    let moves = actions(state);
    let mut best: i32 = MAX_SCORE;
    let mut b: i32 = beta;
    let mut i: usize = 0;
    while i < moves.len()
        invariant
            i <= moves.len(),
            depth > 0,
            moves@ == moves_of(state@),
            forall|j: int| 0 <= j < moves@.len() ==> valid_move(#[trigger] moves@[j]),
            min_loop(state@, moves@, i as int, alpha as int, b as int, best as int, depth as nat)
                == min_value_of(state@, alpha as int, beta as int, depth as nat),
        decreases moves.len() - i,
    {
        let child = result(state, &moves[i]);
        let (v, completed) = max_value_timed(&child, alpha, b, depth - 1, end);
        if !completed {
            return (best, false);
        }
        if v < best {
            best = v;
        }
        if v < b {
            b = v;
        }
        if b <= alpha {
            return (best, true);
        }
        i = i + 1;
    }
    (best, true)
}

/// `alpha_beta_search` under the deadline `end`. The flag tells whether the
/// search finished in time; only then are the move and value those of
/// `alpha_beta_search`. A move is returned exactly when the side has a legal
/// move: when time runs out it is the best one found so far, or the first legal
/// move if none was.
pub fn time_bound_alpha_beta_search(state: &State, depth: u32, end_instant: Instant) -> (r: (
    Option<Move>,
    i32,
    bool,
))
    ensures
        r.2 ==> (r.0, r.1 as int) == search_of(state@, depth as nat),
        r.0 is Some ==> moves_of(state@).contains(r.0->0),
        moves_of(state@).len() > 0 ==> r.0 is Some,
        moves_of(state@).len() == 0 ==> r.0 is None && r.2,
{
    let moves = actions(state);
    let white = is_white_color(&state.color);
    let mut best_action: Option<Move> = None;
    let mut alpha: i32 = MIN_SCORE;
    let mut beta: i32 = MAX_SCORE;
    let mut i: usize = 0;
    while i < moves.len()
        invariant
            i <= moves.len(),
            white == plays_white(state@.color),
            moves@ == moves_of(state@),
            forall|j: int| 0 <= j < moves@.len() ==> valid_move(#[trigger] moves@[j]),
            root_loop(state@, moves@, i as int, alpha as int, beta as int, best_action, depth as nat)
                == search_of(state@, depth as nat),
            best_action is Some ==> moves@.contains(best_action->0),
            i > 0 ==> best_action is Some,
        decreases moves.len() - i,
    {
        let child = result(state, &moves[i]);
        if white {
            let (value, completed) = min_value_timed(&child, alpha, beta, depth, &end_instant);
            if !completed {
                return (Some(best_action.unwrap_or(moves[0])), alpha, false);
            }
            if value > alpha || best_action.is_none() {
                alpha = value;
                best_action = Some(moves[i]);
            }
        } else {
            let (value, completed) = max_value_timed(&child, alpha, beta, depth, &end_instant);
            if !completed {
                return (Some(best_action.unwrap_or(moves[0])), beta, false);
            }
            if value < beta || best_action.is_none() {
                beta = value;
                best_action = Some(moves[i]);
            }
        }
        i = i + 1;
    }
    (best_action, if white { alpha } else { beta }, true)
}

/// The move chosen by deepening from depth `d` up to `max_depth`, when the
/// searches of the depths below `reached` finish in time: each finished depth
/// replaces the move, and a won or lost value ends the deepening.
pub open spec fn deepen(
    s: Snapshot,
    max_depth: nat,
    d: nat,
    reached: nat,
    best: Option<Move>,
) -> Option<Move>
    decreases max_depth + 1 - d,
{
    if d > max_depth || d >= reached {
        best
    } else {
        let (m, v) = search_of(s, d);
        if v == MAX_SCORE as int || v == MIN_SCORE as int {
            m
        } else {
            deepen(s, max_depth, d + 1, reached, m)
        }
    }
}

/// What iterative deepening does with the outcome of one depth's search (move,
/// value, finished in time): an unfinished search leaves the move as it was and
/// stops; a finished one replaces it, and stops on a won or lost value.
pub fn deepening_step(best: Option<Move>, outcome: (Option<Move>, i32, bool)) -> (r: (
    Option<Move>,
    bool,
))
    ensures
        r == if !outcome.2 {
            (best, true)
        } else {
            (outcome.0, outcome.1 == MAX_SCORE || outcome.1 == MIN_SCORE)
        },
{
    if !outcome.2 {
        (best, true)
    } else {
        (outcome.0, outcome.1 == MAX_SCORE || outcome.1 == MIN_SCORE)
    }
}

/// The first legal move of the side `s.color`, if any.
pub open spec fn first_move(s: Snapshot) -> Option<Move> {
    if moves_of(s).len() > 0 {
        Some(moves_of(s)[0])
    } else {
        None
    }
}

/// Iterative deepening under the deadline `end_instant`: searches depth 0, 1, ...
/// up to `depth` and keeps the move of the deepest search that finished in time,
/// the first legal move when none did. A move is returned exactly when the side
/// has a legal move.
pub fn iterative_time_bound_alpha_beta_search(state: &State, depth: u32, end_instant: Instant) -> (r:
    Option<Move>)
    ensures
        exists|reached: nat|
            r == #[trigger] deepen(state@, depth as nat, 0, reached, first_move(state@)),
        r is Some ==> moves_of(state@).contains(r->0),
        moves_of(state@).len() > 0 ==> r is Some,
        moves_of(state@).len() == 0 ==> r is None,
{
    let moves = actions(state);
    let mut best_action: Option<Move> = if moves.len() > 0 {
        Some(moves[0])
    } else {
        None
    };
    let mut current_depth: u32 = 0;
    loop
        invariant_except_break
            current_depth <= depth,
            forall|reached: nat|
                reached >= current_depth ==> #[trigger] deepen(
                    state@,
                    depth as nat,
                    0,
                    reached,
                    first_move(state@),
                ) == deepen(state@, depth as nat, current_depth as nat, reached, best_action),
        invariant
            best_action is Some ==> moves_of(state@).contains(best_action->0),
            moves_of(state@).len() == 0 ==> best_action is None,
            moves_of(state@).len() > 0 ==> best_action is Some,
        ensures
            exists|reached: nat|
                best_action == #[trigger] deepen(
                    state@,
                    depth as nat,
                    0,
                    reached,
                    first_move(state@),
                ),
        decreases depth - current_depth,
    {
        let ghost before = best_action;
        let ghost now = current_depth as nat;
        assert(deepen(state@, depth as nat, 0, now, first_move(state@)) == best_action);
        if deadline_reached(&end_instant) {
            break ;
        }
        let outcome = time_bound_alpha_beta_search(state, current_depth, end_instant);
        let (action, value, completed) = outcome;
        let (chosen, stop) = deepening_step(best_action, outcome);
        if !completed {
            break ;
        }
        best_action = chosen;
        assert forall|reached: nat| reached > now implies #[trigger] deepen(
            state@,
            depth as nat,
            0,
            reached,
            first_move(state@),
        ) == if value == MAX_SCORE || value == MIN_SCORE {
            action
        } else {
            deepen(state@, depth as nat, now + 1, reached, action)
        } by {
            assert(deepen(state@, depth as nat, 0, reached, first_move(state@)) == deepen(
                state@,
                depth as nat,
                now,
                reached,
                before,
            ));
        }
        if stop {
            assert(deepen(state@, depth as nat, 0, now + 1, first_move(state@)) == best_action);
            break ;
        }
        if current_depth == depth {
            assert(deepen(state@, depth as nat, 0, now + 1, first_move(state@)) == best_action);
            break ;
        }
        current_depth = current_depth + 1;
    }
    best_action
}


proof fn lemma_best_escapes_bounds(g: Grid, p: Position, d: int, k: int)
    ensures
        0 <= best_escapes_dir(g, p, d, k) <= 4,
    decreases 9 - k,
{
    let x = step_x(p, d, k);
    let y = step_y(p, d, k);
    if !(k < 1 || k > 8 || !in_board(x, y) || !open_cell(g, x, y)) {
        lemma_best_escapes_bounds(g, p, d, k + 1);
    }
}

proof fn lemma_threats_at_bounds(g: Grid, p: Position, d: int, n: int)
    ensures
        0 <= threats_at(g, p, d, n) <= if n < 0 { 0 } else { n },
    decreases n,
{
    if n > 0 {
        lemma_threats_at_bounds(g, p, d, n - 1);
    }
}

proof fn lemma_threats_bounds(g: Grid, p: Position, n: int)
    ensures
        0 <= threats_upto(g, p, n) <= if n < 0 { 0 } else { 4 * n },
    decreases n,
{
    if n > 0 {
        lemma_threats_bounds(g, p, n - 1);
        lemma_threats_at_bounds(g, p, n - 1, 4);
    }
}

/// The weighted sum of an ongoing game stays well inside the thresholds: each
/// count it weighs is bounded.
pub proof fn lemma_ordinary_score_bounds(s: Snapshot, k: Position)
    requires
        well_formed(s.grid),
    ensures
        -3000 <= ordinary_score(s, k) <= 3000,
{
    crate::game::lemma_cells_with(s.grid, W, 9);
    crate::game::lemma_cells_with(s.grid, B, 9);
    lemma_best_escapes_bounds(s.grid, k, 0, 1);
    lemma_best_escapes_bounds(s.grid, k, 1, 1);
    lemma_best_escapes_bounds(s.grid, k, 2, 1);
    lemma_best_escapes_bounds(s.grid, k, 3, 1);
    lemma_threats_bounds(s.grid, k, 4);
}

/// The scores are ordered: a won game above the king escaping next move, above
/// the king escaping soon, above any ordinary score, above the king being
/// captured next move, above a lost game. An ongoing game never scores 0.
pub proof fn lemma_score_order(s: Snapshot, k: Position)
    requires
        well_formed(s.grid),
    ensures
        MIN_SCORE < CAPTURE_NEXT_SCORE < ordinary_score(s, k) < ESCAPE_SOON_SCORE
            < ESCAPE_NEXT_SCORE < MAX_SCORE,
        CAPTURE_NEXT_SCORE <= ongoing_score(s, k) <= ESCAPE_NEXT_SCORE,
        ongoing_score(s, k) != 0,
{
    lemma_ordinary_score_bounds(s, k);
}

/// The heuristic gives the win score exactly to the states whose side has won,
/// the loss score exactly to those it has lost, and 0 exactly to draws.
pub proof fn lemma_heuristic_sentinels(state: State)
    ensures
        heuristic_of(state@) == MAX_SCORE <==> status_of(state@) == Status::WIN,
        heuristic_of(state@) == MIN_SCORE <==> status_of(state@) == Status::LOSS,
        heuristic_of(state@) == 0 <==> status_of(state@) == Status::DRAW,
{
    state.board.lemma_well_formed();
    lemma_score_order(state@, king_of(state@.grid)->0);
}

/// The search is a function of the position: states with the same board, history
/// and colour get the same move and value at every depth, and iterative deepening
/// picks the same move whenever the same depths finish in time.
pub proof fn lemma_search_deterministic(a: State, b: State, depth: nat, reached: nat)
    requires
        a@ == b@,
    ensures
        search_of(a@, depth) == search_of(b@, depth),
        deepen(a@, depth, 0, reached, first_move(a@)) == deepen(
            b@,
            depth,
            0,
            reached,
            first_move(b@),
        ),
{
}


/// Relies on `rand::random` (rand 0.7): a value drawn from the thread's generator.
#[verifier::external_body]
fn random_i32() -> i32 {
    rand::random::<i32>()
}

/// Relies on `rand::Rng::gen_range` (rand 0.7) with the thread's generator: a
/// number at least 0 and below `high`. It panics when `high` is 0.
#[verifier::external_body]
fn random_below(high: usize) -> (r: usize)
    requires
        high > 0,
    ensures
        r < high,
{
    rand::thread_rng().gen_range(0, high)
}

/// A random score, whatever the state.
pub fn random_heuristic(_state: &State) -> i32 {
    random_i32()
}

/// A legal move drawn at random; none when the side has no legal move.
pub fn search_random(state: &State) -> (r: Option<Move>)
    ensures
        r is Some <==> moves_of(state@).len() > 0,
        r is Some ==> moves_of(state@).contains(r->0),
{
    let moves = actions(state);
    if moves.len() == 0 {
        return None;
    }
    let i = random_below(moves.len());
    Some(moves[i])
}

/// The `i`-th of `workers` contiguous shards of `n` root moves.
pub open spec fn shard_of(n: int, workers: int, i: int) -> (int, int) {
    (i * n / workers, (i + 1) * n / workers)
}

/// Splits `n` root moves into `workers` contiguous shards, one per worker, as even
/// as they can be: shard `i` holds the moves from `i * n / workers` to
/// `(i + 1) * n / workers`. Each shard starts where the one before ends, the first
/// at 0 and the last ends at `n`.
pub fn shard_ranges(n: usize, workers: usize) -> (r: Vec<(usize, usize)>)
    requires
        workers > 0,
        n * (workers + 1) <= usize::MAX,
    ensures
        r.len() == workers,
        forall|i: int|
            0 <= i < workers ==> (#[trigger] r@[i].0 as int, r@[i].1 as int) == shard_of(
                n as int,
                workers as int,
                i,
            ),
        forall|i: int| 0 <= i < workers ==> #[trigger] r@[i].0 <= r@[i].1,
        r@[0].0 == 0,
        r@[workers - 1].1 == n,
{
    let mut r: Vec<(usize, usize)> = Vec::new();
    let mut i: usize = 0;
    while i < workers
        invariant
            i <= workers,
            workers > 0,
            n * (workers + 1) <= usize::MAX,
            r.len() == i,
            forall|j: int|
                0 <= j < i ==> (#[trigger] r@[j].0 as int, r@[j].1 as int) == shard_of(
                    n as int,
                    workers as int,
                    j,
                ),
            forall|j: int| 0 <= j < i ==> #[trigger] r@[j].0 <= r@[j].1,
        decreases workers - i,
    {
        assert(i * n <= (i + 1) * n <= n * (workers + 1)) by (nonlinear_arith)
            requires
                i < workers,
        ;
        let start = i * n / workers;
        let end = (i + 1) * n / workers;
        proof {
            vstd::arithmetic::div_mod::lemma_div_is_ordered(
                (i * n) as int,
                ((i + 1) * n) as int,
                workers as int,
            );
        }
        r.push((start, end));
        i = i + 1;
    }
    assert(r@[workers - 1].1 == n) by {
        let k: int = workers - 1;
        let w: int = workers as int;
        let nn: int = n as int;
        assert((r@[k].0 as int, r@[k].1 as int) == shard_of(nn, w, k));
        vstd::arithmetic::div_mod::lemma_div_multiples_vanish(nn, w);
        assert((k + 1) * nn == w * nn);
    }
    r
}

/// The evaluation kept after `e` (move, value, finished in time): an unfinished
/// one is left out; otherwise the first of highest value for white, of lowest
/// value for black.
pub open spec fn keep_better(white: bool, best: Option<(Move, i32)>, e: (Move, i32, bool)) -> Option<
    (Move, i32),
> {
    if !e.2 {
        best
    } else if best is None || (white && (best->0).1 < e.1) || (!white && (best->0).1 > e.1) {
        Some((e.0, e.1))
    } else {
        best
    }
}

pub open spec fn any_finished(s: Seq<(Move, i32, bool)>) -> bool {
    exists|i: int| 0 <= i < s.len() && (#[trigger] s[i]).2
}

pub open spec fn merged(white: bool, best: Option<(Move, i32)>, s: Seq<(Move, i32, bool)>) -> Option<
    (Move, i32),
>
    decreases s.len(),
{
    if s.len() == 0 {
        best
    } else {
        keep_better(white, merged(white, best, s.drop_last()), s.last())
    }
}

/// Merges the evaluations of root moves made by the workers (move, value,
/// finished in time) into the best one so far: unfinished ones are left out;
/// white keeps the first of highest value, black the first of lowest value.
pub fn merge_evaluations(
    white: bool,
    best: Option<(Move, i32)>,
    evaluated: &Vec<(Move, i32, bool)>,
) -> (r: Option<(Move, i32)>)
    ensures
        r == merged(white, best, evaluated@),
        r is None <==> best is None && !any_finished(evaluated@),
{
    let mut current = best;
    let mut i: usize = 0;
    while i < evaluated.len()
        invariant
            i <= evaluated.len(),
            current == merged(white, best, evaluated@.take(i as int)),
            current is None <==> best is None && !any_finished(evaluated@.take(i as int)),
        decreases evaluated.len() - i,
    {
        let e = evaluated[i];
        let ghost before = evaluated@.take(i as int);
        let ghost after = evaluated@.take(i + 1);
        if e.2 {
            let replace = match current {
                None => true,
                Some(b) => (white && b.1 < e.1) || (!white && b.1 > e.1),
            };
            if replace {
                current = Some((e.0, e.1));
            }
            assert(after[i as int] == e);
        } else {
            assert forall|j: int| 0 <= j < after.len() && (#[trigger] after[j]).2 implies 0 <= j
                < before.len() && before[j].2 by {
                assert(j != i);
                assert(after[j] == before[j]);
            }
        }
        assert(after.drop_last() =~= before);
        assert forall|j: int| 0 <= j < before.len() && (#[trigger] before[j]).2 implies 0 <= j
            < after.len() && after[j].2 by {
            assert(after[j] == before[j]);
        }
        i = i + 1;
    }
    assert(evaluated@.take(i as int) =~= evaluated@);
    current
}

} // verus!
