use vstd::prelude::*;
use vstd::string::*;
use crate::constants::{B, BLACK, C, E, F, K, R, T, W, WHITE};
use crate::game::{
    Board, Grid, Move, Position, Snapshot, State, Status, cells_with, cells_with_upto, in_board,
    king_of, row_cells_with, cell_type_at, grid_at, grid_set, is_white_piece, neighbor,
    valid_move, valid_position, well_formed,
};

verus! {

/// Both pieces belong to the same side (the king is white).
pub open spec fn same_side(a: u32, b: u32) -> bool {
    (is_white_piece(a) && is_white_piece(b)) || (a == B && b == B)
}

/// The pieces belong to opposite sides.
pub open spec fn opponents(a: u32, b: u32) -> bool {
    (is_white_piece(a) && b == B) || (a == B && is_white_piece(b))
}

pub open spec fn type_of(p: Position) -> u32 {
    cell_type_at(p.x as int, p.y as int)
}

/// An empty camp or throne: it takes part in captures as an enemy piece would.
pub open spec fn barrier_at(g: Grid, p: Position) -> bool {
    grid_at(g, p) == E && (type_of(p) == C || type_of(p) == T)
}

/// A neighbour of the king that closes it in: a barrier or a black soldier.
pub open spec fn closes_in(g: Grid, q: Option<Position>) -> bool {
    match q {
        Some(p) => barrier_at(g, p) || grid_at(g, p) == B,
        None => false,
    }
}

/// The king at `p` is closed in on all four sides.
pub open spec fn surrounded(g: Grid, p: Position) -> bool {
    closes_in(g, neighbor(p, 0)) && closes_in(g, neighbor(p, 1)) && closes_in(g, neighbor(p, 2))
        && closes_in(g, neighbor(p, 3))
}

/// The piece next to `to` in direction `d` is captured by the piece that has just
/// landed on `to`.
pub open spec fn captured_in(g: Grid, to: Position, d: int) -> bool {
    match neighbor(to, d) {
        None => false,
        Some(n) => match neighbor(n, d) {
            None => false,
            Some(f) => opponents(grid_at(g, to), grid_at(g, n)) && if grid_at(g, n) == K {
                surrounded(g, n) || (type_of(n) != T && (same_side(grid_at(g, f), grid_at(g, to))
                    || type_of(f) == C))
            } else {
                same_side(grid_at(g, f), grid_at(g, to)) || barrier_at(g, f)
            },
        },
    }
}

pub open spec fn captured_seq(g: Grid, to: Position, d: int) -> Seq<Position> {
    if captured_in(g, to, d) {
        seq![neighbor(to, d)->0]
    } else {
        seq![]
    }
}

/// The pieces captured by the move `m` on the grid `g` where the piece has already
/// landed: up, down, right, left.
pub open spec fn captures_of(g: Grid, m: Move) -> Seq<Position> {
    captured_seq(g, m.to, 0) + captured_seq(g, m.to, 1) + captured_seq(g, m.to, 2)
        + captured_seq(g, m.to, 3)
}

/// The grid with the piece moved from `m.from` to `m.to`, before any capture.
pub open spec fn moved_grid(g: Grid, m: Move) -> Grid {
    grid_set(grid_set(g, m.to, grid_at(g, m.from)), m.from, E)
}

/// The grid with every cell of `s` emptied.
pub open spec fn cleared(g: Grid, s: Seq<Position>) -> Grid
    decreases s.len(),
{
    if s.len() == 0 {
        g
    } else {
        grid_set(cleared(g, s.drop_last()), s.last(), E)
    }
}

/// The grid after the move `m`, captured pieces removed.
pub open spec fn after_move(g: Grid, m: Move) -> Grid {
    cleared(moved_grid(g, m), captures_of(moved_grid(g, m), m))
}

/// Returns true if a cell is an empty camp or throne.
pub fn is_barrier(board: &Board, cell: Position) -> (r: bool)
    requires
        valid_position(cell),
    ensures
        r == barrier_at(board@, cell),
{
    let cell_type = board.cell_type(cell);
    board.is_empty(cell) && (cell_type == C || cell_type == T)
}

fn is_white_content(c: u32) -> (r: bool)
    ensures
        r == is_white_piece(c),
{
    c == W || c == K
}

fn same_side_exec(a: u32, b: u32) -> (r: bool)
    ensures
        r == same_side(a, b),
{
    (is_white_content(a) && is_white_content(b)) || (a == B && b == B)
}

fn closes_in_exec(board: &Board, q: Option<Position>) -> (r: bool)
    requires
        q is Some ==> valid_position(q->0),
    ensures
        r == closes_in(board@, q),
{
    match q {
        Some(p) => is_barrier(board, p) || board.cell_content(p) == B,
        None => false,
    }
}

fn is_surrounded(board: &Board, p: Position) -> (r: bool)
    requires
        valid_position(p),
    ensures
        r == surrounded(board@, p),
{
    let s = board.surrounding_cells(p);
    assert(s[0] == neighbor(p, 0) && s[1] == neighbor(p, 1) && s[2] == neighbor(p, 2) && s[3]
        == neighbor(p, 3));
    closes_in_exec(board, s[0]) && closes_in_exec(board, s[1]) && closes_in_exec(board, s[2])
        && closes_in_exec(board, s[3])
}

fn captured_in_exec(board: &Board, to: Position, d: usize) -> (r: bool)
    requires
        valid_position(to),
        d < 4,
    ensures
        r == captured_in(board@, to, d as int),
{
    let s = board.surrounding_cells(to);
    assert(s[d as int] == neighbor(to, d as int));
    match s[d] {
        None => false,
        Some(n) => {
            let sn = board.surrounding_cells(n);
            assert(sn[d as int] == neighbor(n, d as int));
            match sn[d] {
                None => false,
                Some(f) => {
                    let mover = board.cell_content(to);
                    let target = board.cell_content(n);
                    let far = board.cell_content(f);
                    if !((is_white_content(mover) && target == B) || (mover == B
                        && is_white_content(target))) {
                        false
                    } else if target == K {
                        is_surrounded(board, n) || (board.cell_type(n) != T && (same_side_exec(
                            far,
                            mover,
                        ) || board.cell_type(f) == C))
                    } else {
                        same_side_exec(far, mover) || is_barrier(board, f)
                    }
                },
            }
        },
    }
}

/// The pieces captured by the move `m`, on a board where the moved piece has
/// already landed on `m.to`: in the order up, down, right, left of `m.to`.
pub fn captures(board: &Board, m: &Move) -> (r: Vec<Position>)
    requires
        valid_position(m.to),
    ensures
        r@ == captures_of(board@, *m),
        forall|i: int|
            0 <= i < r@.len() ==> valid_position(#[trigger] r@[i]) && grid_at(board@, r@[i]) != E,
{
    let mut captured: Vec<Position> = Vec::new();
    let s = board.surrounding_cells(m.to);
    let mut d: usize = 0;
    while d < 4
        invariant
            d <= 4,
            valid_position(m.to),
            forall|k: int| 0 <= k < 4 ==> #[trigger] s[k] == neighbor(m.to, k),
            captured@ == captures_of_upto(board@, m.to, d as int),
        decreases 4 - d,
    {
        if captured_in_exec(board, m.to, d) {
            assert(s[d as int] == neighbor(m.to, d as int));
            captured.push(s[d].unwrap());
        }
        d = d + 1;
    }
    proof {
        reveal_with_fuel(captures_of_upto, 5);
        assert(captures_of_upto(board@, m.to, 4) =~= captures_of(board@, *m));
        lemma_captures_occupied(board@, *m);
    }
    captured
}

pub open spec fn captures_of_upto(g: Grid, to: Position, n: int) -> Seq<Position>
    decreases n,
{
    if n <= 0 {
        seq![]
    } else {
        captures_of_upto(g, to, n - 1) + captured_seq(g, to, n - 1)
    }
}

/// Every captured cell is on the board and holds a piece.
pub proof fn lemma_captures_occupied(g: Grid, m: Move)
    requires
        well_formed(g),
        valid_position(m.to),
    ensures
        forall|i: int|
            0 <= i < captures_of(g, m).len() ==> valid_position(#[trigger] captures_of(g, m)[i])
                && grid_at(g, captures_of(g, m)[i]) != E,
{
    let s = captures_of(g, m);
    assert forall|i: int| 0 <= i < s.len() implies valid_position(#[trigger] s[i]) && grid_at(
        g,
        s[i],
    ) != E by {
        let a = captured_seq(g, m.to, 0);
        let b = captured_seq(g, m.to, 1);
        let c = captured_seq(g, m.to, 2);
        let d = captured_seq(g, m.to, 3);
        assert(s == a + b + c + d);
        if i < a.len() {
            assert(s[i] == a[i]);
        } else if i < a.len() + b.len() {
            assert(s[i] == b[i - a.len()]);
        } else if i < a.len() + b.len() + c.len() {
            assert(s[i] == c[i - a.len() - b.len()]);
        } else {
            assert(s[i] == d[i - a.len() - b.len() - c.len()]);
        }
    }
}


pub open spec fn plays_white(color: Seq<char>) -> bool {
    color == WHITE@
}

pub open spec fn plays_black(color: Seq<char>) -> bool {
    color == BLACK@
}

/// The piece `c` moves for the side `color`: white soldiers and the king for
/// white, black soldiers for black.
pub open spec fn moves_for(c: u32, color: Seq<char>) -> bool {
    (plays_white(color) && is_white_piece(c)) || (plays_black(color) && c == B)
}

/// The cell `k` steps from `p` in direction `d` (0 up, 1 down, 2 right, 3 left).
pub open spec fn step_x(p: Position, d: int, k: int) -> int {
    if d == 2 {
        p.x + k
    } else if d == 3 {
        p.x - k
    } else {
        p.x as int
    }
}

pub open spec fn step_y(p: Position, d: int, k: int) -> int {
    if d == 0 {
        p.y - k
    } else if d == 1 {
        p.y + k
    } else {
        p.y as int
    }
}

/// An empty regular or escape cell: any piece may stop on it or pass over it.
pub open spec fn open_cell(g: Grid, x: int, y: int) -> bool {
    g[y][x] == E && (cell_type_at(x, y) == R || cell_type_at(x, y) == F)
}

/// An empty camp cell at most two steps from the camp cell a black soldier leaves.
pub open spec fn camp_target(g: Grid, from: Position, x: int, y: int, k: int, black: bool) -> bool {
    black && type_of(from) == C && cell_type_at(x, y) == C && g[y][x] == E && k <= 2
}

pub open spec fn move_to(from: Position, x: int, y: int) -> Move {
    Move { from, to: Position { x: x as u32, y: y as u32 } }
}

/// The moves of the piece at `from` sliding in direction `d`, from step `k` on.
pub open spec fn slide_moves(g: Grid, from: Position, d: int, k: int, black: bool) -> Seq<Move>
    decreases 9 - k,
{
    let x = step_x(from, d, k);
    let y = step_y(from, d, k);
    if k < 1 || k > 8 || !in_board(x, y) {
        seq![]
    } else if open_cell(g, x, y) {
        seq![move_to(from, x, y)] + slide_moves(g, from, d, k + 1, black)
    } else if camp_target(g, from, x, y, k, black) {
        seq![move_to(from, x, y)]
    } else {
        seq![]
    }
}

/// The moves of the piece at `from`: right, left, down, up.
pub open spec fn piece_moves(g: Grid, from: Position, black: bool) -> Seq<Move> {
    slide_moves(g, from, 2, 1, black) + slide_moves(g, from, 3, 1, black) + slide_moves(
        g,
        from,
        1,
        1,
        black,
    ) + slide_moves(g, from, 0, 1, black)
}

pub open spec fn cell_moves(g: Grid, color: Seq<char>, x: int, y: int) -> Seq<Move> {
    if moves_for(g[y][x], color) {
        piece_moves(g, Position { x: x as u32, y: y as u32 }, plays_black(color))
    } else {
        seq![]
    }
}

pub open spec fn row_moves(g: Grid, color: Seq<char>, y: int, n: int) -> Seq<Move>
    decreases n,
{
    if n <= 0 {
        seq![]
    } else {
        row_moves(g, color, y, n - 1) + cell_moves(g, color, n - 1, y)
    }
}

pub open spec fn moves_upto(g: Grid, color: Seq<char>, n: int) -> Seq<Move>
    decreases n,
{
    if n <= 0 {
        seq![]
    } else {
        moves_upto(g, color, n - 1) + row_moves(g, color, n - 1, 9)
    }
}

/// All legal moves of the side `color`, piece by piece in reading order.
pub open spec fn legal_moves_of(g: Grid, color: Seq<char>) -> Seq<Move> {
    moves_upto(g, color, 9)
}

/// The text `a` reads `t`.
pub(crate) fn same_text(a: &str, t: &str) -> (r: bool)
    ensures
        r == (a@ == t@),
{
    let n = a.unicode_len();
    if n != t.unicode_len() {
        return false;
    }
    let mut i: usize = 0;
    while i < n
        invariant
            n == a@.len(),
            n == t@.len(),
            i <= n,
            forall|j: int| 0 <= j < i ==> a@[j] == t@[j],
        decreases n - i,
    {
        if a.get_char(i) != t.get_char(i) {
            return false;
        }
        i = i + 1;
    }
    assert(a@ =~= t@);
    true
}

pub fn is_white_color(color: &String) -> (r: bool)
    ensures
        r == plays_white(color@),
{
    same_text(color.as_str(), WHITE)
}

pub fn is_black_color(color: &String) -> (r: bool)
    ensures
        r == plays_black(color@),
{
    same_text(color.as_str(), BLACK)
}

/// Returns the opposite color: black for white, white for anything else.
pub fn get_opposite_color(color: &String) -> (r: String)
    ensures
        r@ == if plays_white(color@) { BLACK@ } else { WHITE@ },
{
    if is_white_color(color) {
        String::from_str(BLACK)
    } else {
        String::from_str(WHITE)
    }
}

/// The cell `p` is empty and regular or an escape.
pub fn is_open_cell(board: &Board, p: Position) -> (r: bool)
    requires
        valid_position(p),
    ensures
        r == open_cell(board@, p.x as int, p.y as int),
{
    let cell_type = board.cell_type(p);
    board.is_empty(p) && (cell_type == R || cell_type == F)
}

/// Checks if a cell is empty and regular or an escape.
pub fn is_legal_target_cell(state: &State, cell: Position) -> (r: bool)
    requires
        valid_position(cell),
    ensures
        r == open_cell(state.board@, cell.x as int, cell.y as int),
{
    let cell_type = state.board.cell_type(cell);
    state.board.is_empty(cell) && (cell_type == R || cell_type == F)
}

/// The cell `k` steps from `from` in direction `d`, if on the board.
pub(crate) fn step_exec(from: Position, d: usize, k: u32) -> (r: Option<Position>)
    requires
        valid_position(from),
        d < 4,
        1 <= k <= 9,
    ensures
        match r {
            Some(p) => in_board(step_x(from, d as int, k as int), step_y(from, d as int, k as int))
                && p.x == step_x(from, d as int, k as int) && p.y == step_y(
                from,
                d as int,
                k as int,
            ) && valid_position(p),
            None => !in_board(step_x(from, d as int, k as int), step_y(from, d as int, k as int)),
        },
{
    if d == 0 {
        if from.y >= k { Some(Position { x: from.x, y: from.y - k }) } else { None }
    } else if d == 1 {
        if from.y + k <= 8 { Some(Position { x: from.x, y: from.y + k }) } else { None }
    } else if d == 2 {
        if from.x + k <= 8 { Some(Position { x: from.x + k, y: from.y }) } else { None }
    } else {
        if from.x >= k { Some(Position { x: from.x - k, y: from.y }) } else { None }
    }
}

fn push_slide_moves(board: &Board, from: Position, d: usize, black: bool, moves: &mut Vec<Move>)
    requires
        valid_position(from),
        d < 4,
    ensures
        final(moves)@ == old(moves)@ + slide_moves(board@, from, d as int, 1, black),
{
    let ghost target = old(moves)@ + slide_moves(board@, from, d as int, 1, black);
    let from_type = board.cell_type(from);
    let mut k: u32 = 1;
    loop
        invariant_except_break
            moves@ + slide_moves(board@, from, d as int, k as int, black) == target,
        invariant
            1 <= k <= 9,
            valid_position(from),
            d < 4,
            from_type == type_of(from),
        ensures
            moves@ == target,
        decreases 9 - k,
    {
        let ghost before = moves@;
        match step_exec(from, d, k) {
            None => {
                assert(moves@ =~= target);
                break ;
            },
            Some(p) => {
                let m = Move { from, to: p };
                assert(m == move_to(from, p.x as int, p.y as int));
                let to_type = board.cell_type(p);
                if board.is_empty(p) && (to_type == R || to_type == F) {
                    moves.push(m);
                    assert(moves@ + slide_moves(board@, from, d as int, k + 1, black) =~= before
                        + slide_moves(board@, from, d as int, k as int, black));
                    k = k + 1;
                } else {
                    if black && from_type == C && to_type == C && board.is_empty(p) && k <= 2 {
                        moves.push(m);
                    }
                    assert(moves@ =~= target);
                    break ;
                }
            },
        }
    }
}

/// Returns all legal moves of the side `state.color`.
pub fn legal_moves(state: &State) -> (r: Vec<Move>)
    ensures
        r@ == legal_moves_of(state.board@, state.color@),
{
    side_moves(&state.board, &state.color)
}

/// Returns all legal moves of the side `color` on `board`.
#[verifier::rlimit(40)]
pub fn side_moves(board: &Board, color: &String) -> (r: Vec<Move>)
    ensures
        r@ == legal_moves_of(board@, color@),
{
    let white = is_white_color(color);
    let black = is_black_color(color);
    let mut moves: Vec<Move> = Vec::new();
    let mut y: u32 = 0;
    while y < 9
        invariant
            y <= 9,
            white == plays_white(color@),
            black == plays_black(color@),
            moves@ == moves_upto(board@, color@, y as int),
        decreases 9 - y,
    {
        let mut x: u32 = 0;
        while x < 9
            invariant
                y < 9,
                x <= 9,
                white == plays_white(color@),
                black == plays_black(color@),
                moves@ == moves_upto(board@, color@, y as int) + row_moves(
                    board@,
                    color@,
                    y as int,
                    x as int,
                ),
            decreases 9 - x,
        {
            let ghost before = moves@;
            let from = Position { x, y };
            let c = board.cell_content(from);
            if (white && (c == W || c == K)) || (black && c == B) {
                push_slide_moves(board, from, 2, black, &mut moves);
                push_slide_moves(board, from, 3, black, &mut moves);
                push_slide_moves(board, from, 1, black, &mut moves);
                push_slide_moves(board, from, 0, black, &mut moves);
            }
            proof {
                assert(moves@ =~= before + cell_moves(board@, color@, x as int, y as int));
                assert(moves@ =~= moves_upto(board@, color@, y as int) + row_moves(
                    board@,
                    color@,
                    y as int,
                    x + 1,
                ));
            }
            x = x + 1;
        }
        proof {
            assert(moves_upto(board@, color@, y + 1) =~= moves_upto(
                board@,
                color@,
                y as int,
            ) + row_moves(board@, color@, y as int, 9));
        }
        y = y + 1;
    }
    moves
}


/// The move goes along a row or a column and does not stay in place.
pub open spec fn aligned(m: Move) -> bool {
    (m.from.x == m.to.x && m.from.y != m.to.y) || (m.from.y == m.to.y && m.from.x != m.to.x)
}

/// The direction of an aligned move (0 up, 1 down, 2 right, 3 left).
pub open spec fn direction(m: Move) -> int {
    if m.from.x == m.to.x {
        if m.from.y > m.to.y { 0 } else { 1 }
    } else {
        if m.from.x < m.to.x { 2 } else { 3 }
    }
}

/// The number of cells an aligned move travels.
pub open spec fn distance(m: Move) -> int {
    if m.from.x == m.to.x {
        if m.from.y > m.to.y { m.from.y - m.to.y } else { m.to.y - m.from.y }
    } else {
        if m.from.x < m.to.x { m.to.x - m.from.x } else { m.from.x - m.to.x }
    }
}

/// Some cell on the way of an aligned move, its destination included, is not an
/// open cell.
pub open spec fn path_blocked(g: Grid, m: Move) -> bool {
    aligned(m) && exists|k: int|
        1 <= k <= distance(m) && !#[trigger] open_cell(
            g,
            step_x(m.from, direction(m), k),
            step_y(m.from, direction(m), k),
        )
}

/// The cell one step from `from` towards `to`, when they share a row or a column.
pub fn get_one_cell_closer(from: Position, to: Position) -> (r: Option<Position>)
    requires
        valid_position(from),
        valid_position(to),
    ensures
        r == if aligned(Move { from, to }) {
            Some(
                Position {
                    x: step_x(from, direction(Move { from, to }), 1) as u32,
                    y: step_y(from, direction(Move { from, to }), 1) as u32,
                },
            )
        } else {
            None
        },
{
    if from.x == to.x && from.y < to.y {
        return Some(Position { x: from.x, y: from.y + 1 });
    }
    if from.x == to.x && from.y > to.y {
        return Some(Position { x: from.x, y: from.y - 1 });
    }
    if from.y == to.y && from.x < to.x {
        return Some(Position { x: from.x + 1, y: from.y });
    }
    if from.y == to.y && from.x > to.x {
        return Some(Position { x: from.x - 1, y: from.y });
    }
    None
}

/// Returns true if an aligned move meets a cell it cannot pass over or stop on.
pub fn obstacles(state: &State, m: &Move) -> (r: bool)
    requires
        valid_move(*m),
    ensures
        r == path_blocked(state.board@, *m),
{
    if !((m.from.x == m.to.x && m.from.y != m.to.y) || (m.from.y == m.to.y && m.from.x
        != m.to.x)) {
        return false;
    }
    let d: usize = if m.from.x == m.to.x {
        if m.from.y > m.to.y { 0 } else { 1 }
    } else {
        if m.from.x < m.to.x { 2 } else { 3 }
    };
    let dist: u32 = if m.from.x == m.to.x {
        if m.from.y > m.to.y { m.from.y - m.to.y } else { m.to.y - m.from.y }
    } else {
        if m.from.x < m.to.x { m.to.x - m.from.x } else { m.from.x - m.to.x }
    };
    let mut k: u32 = 1;
    let mut cell = m.from;
    while k <= dist
        invariant
            valid_move(*m),
            aligned(*m),
            d == direction(*m),
            dist == distance(*m),
            1 <= dist <= 8,
            1 <= k <= dist + 1,
            valid_position(cell),
            cell.x == step_x(m.from, d as int, k - 1),
            cell.y == step_y(m.from, d as int, k - 1),
            forall|j: int|
                1 <= j < k ==> #[trigger] open_cell(
                    state.board@,
                    step_x(m.from, d as int, j),
                    step_y(m.from, d as int, j),
                ),
        decreases dist + 1 - k,
    {
        assert(aligned(Move { from: cell, to: m.to }) && direction(Move { from: cell, to: m.to })
            == d);
        cell = get_one_cell_closer(cell, m.to).unwrap();
        assert(cell.x == step_x(m.from, d as int, k as int) && cell.y == step_y(
            m.from,
            d as int,
            k as int,
        ));
        if !is_legal_target_cell(state, cell) {
            assert(!open_cell(
                state.board@,
                step_x(m.from, d as int, k as int),
                step_y(m.from, d as int, k as int),
            ));
            return true;
        }
        k = k + 1;
    }
    false
}

/// The move `m` is one of the legal moves of the side `state.color`.
pub fn legal_move(state: &State, m: &Move) -> (r: bool)
    ensures
        r == legal_moves_of(state.board@, state.color@).contains(*m),
{
    let moves = legal_moves(state);
    let mut i: usize = 0;
    while i < moves.len()
        invariant
            i <= moves.len(),
            moves@ == legal_moves_of(state.board@, state.color@),
            forall|j: int| 0 <= j < i ==> moves@[j] != *m,
        decreases moves.len() - i,
    {
        if moves[i] == *m {
            return true;
        }
        i = i + 1;
    }
    false
}

/// The two boards hold the same pieces on the same cells.
pub fn same_board(a: &Board, b: &Board) -> (r: bool)
    ensures
        r == (a@ == b@),
{
    let mut y: usize = 0;
    while y < 9
        invariant
            y <= 9,
            forall|i: int, j: int| 0 <= i < y && 0 <= j < 9 ==> a.board[i][j] == b.board[i][j],
        decreases 9 - y,
    {
        let mut x: usize = 0;
        while x < 9
            invariant
                y < 9,
                x <= 9,
                forall|i: int, j: int| 0 <= i < y && 0 <= j < 9 ==> a.board[i][j] == b.board[i][j],
                forall|j: int| 0 <= j < x ==> a.board[y as int][j] == b.board[y as int][j],
            decreases 9 - x,
        {
            if a.board[y][x] != b.board[y][x] {
                assert(a@[y as int][x as int] != b@[y as int][x as int]);
                return false;
            }
            x = x + 1;
        }
        y = y + 1;
    }
    assert forall|i: int| 0 <= i < 9 implies #[trigger] a@[i] == b@[i] by {
        assert(a@[i] =~= b@[i]);
    }
    assert(a@ =~= b@);
    true
}

/// The status of the game for the side `s.color`: the king taken or escaped ends
/// it, so does a side to move without a legal move (that side loses), and so does
/// a board seen before, but for the last two, in the history (a draw).
pub open spec fn status_of(s: Snapshot) -> Status {
    match king_of(s.grid) {
        None => if plays_white(s.color) {
            Status::LOSS
        } else {
            Status::WIN
        },
        Some(k) => if type_of(k) == F {
            if plays_white(s.color) {
                Status::WIN
            } else {
                Status::LOSS
            }
        } else if legal_moves_of(s.grid, s.turn).len() == 0 {
            if s.turn == s.color {
                Status::LOSS
            } else {
                Status::WIN
            }
        } else if s.history.len() > 3 && s.history.subrange(0, s.history.len() - 2).contains(
            s.grid,
        ) {
            Status::DRAW
        } else {
            Status::ONGOING
        },
    }
}

/// Returns the status of the game.
pub fn game_status(state: &State) -> (r: Status)
    ensures
        r == status_of(state@),
{
    let board = &state.board;
    let history = &state.history;
    let white = is_white_color(&state.color);
    let king_cell = board.king_cell();
    proof {
        crate::game::lemma_cells_with(board@, K, 9);
    }
    match king_cell {
        None => if white {
            Status::LOSS
        } else {
            Status::WIN
        },
        Some(k) => {
            if board.cell_type(k) == F {
                return if white {
                    Status::WIN
                } else {
                    Status::LOSS
                };
            }
            if side_moves(board, &state.turn).len() == 0 {
                return if same_text(state.turn.as_str(), state.color.as_str()) {
                    Status::LOSS
                } else {
                    Status::WIN
                };
            }
            if history.len() > 3 {
                let n = history.len() - 2;
                let ghost earlier = state@.history.subrange(0, n as int);
                let mut i: usize = 0;
                while i < n
                    invariant
                        i <= n,
                        n == history.len() - 2,
                        earlier == state@.history.subrange(0, n as int),
                        state@.history == crate::game::boards_view(history@),
                        forall|j: int| 0 <= j < i ==> earlier[j] != board@,
                        earlier.contains(board@) ==> status_of(state@) == Status::DRAW,
                    decreases n - i,
                {
                    if same_board(&history[i], board) {
                        assert(earlier[i as int] == board@);
                        return Status::DRAW;
                    }
                    i = i + 1;
                }
                assert(!earlier.contains(board@));
            }
            Status::ONGOING
        },
    }
}


/// Every move of `a + b` is on the board when every move of `a` and of `b` is.
proof fn lemma_concat_valid(a: Seq<Move>, b: Seq<Move>)
    requires
        forall|i: int| 0 <= i < a.len() ==> valid_move(#[trigger] a[i]),
        forall|i: int| 0 <= i < b.len() ==> valid_move(#[trigger] b[i]),
    ensures
        forall|i: int| 0 <= i < (a + b).len() ==> valid_move(#[trigger] (a + b)[i]),
{
    assert forall|i: int| 0 <= i < (a + b).len() implies valid_move(#[trigger] (a + b)[i]) by {
        if i < a.len() {
            assert((a + b)[i] == a[i]);
        } else {
            assert((a + b)[i] == b[i - a.len()]);
        }
    }
}

proof fn lemma_slide_valid(g: Grid, from: Position, d: int, k: int, black: bool)
    requires
        valid_position(from),
    ensures
        forall|i: int|
            0 <= i < slide_moves(g, from, d, k, black).len() ==> valid_move(
                #[trigger] slide_moves(g, from, d, k, black)[i],
            ),
    decreases 9 - k,
{
    let x = step_x(from, d, k);
    let y = step_y(from, d, k);
    if !(k < 1 || k > 8 || !in_board(x, y)) {
        lemma_slide_valid(g, from, d, k + 1, black);
        lemma_concat_valid(seq![move_to(from, x, y)], slide_moves(g, from, d, k + 1, black));
    }
}

proof fn lemma_row_moves_valid(g: Grid, color: Seq<char>, y: int, n: int)
    requires
        0 <= y < 9,
        n <= 9,
    ensures
        forall|i: int|
            0 <= i < row_moves(g, color, y, n).len() ==> valid_move(
                #[trigger] row_moves(g, color, y, n)[i],
            ),
    decreases n,
{
    if n > 0 {
        lemma_row_moves_valid(g, color, y, n - 1);
        let from = Position { x: (n - 1) as u32, y: y as u32 };
        let black = plays_black(color);
        lemma_slide_valid(g, from, 2, 1, black);
        lemma_slide_valid(g, from, 3, 1, black);
        lemma_slide_valid(g, from, 1, 1, black);
        lemma_slide_valid(g, from, 0, 1, black);
        lemma_concat_valid(slide_moves(g, from, 2, 1, black), slide_moves(g, from, 3, 1, black));
        lemma_concat_valid(
            slide_moves(g, from, 2, 1, black) + slide_moves(g, from, 3, 1, black),
            slide_moves(g, from, 1, 1, black),
        );
        lemma_concat_valid(
            slide_moves(g, from, 2, 1, black) + slide_moves(g, from, 3, 1, black) + slide_moves(
                g,
                from,
                1,
                1,
                black,
            ),
            slide_moves(g, from, 0, 1, black),
        );
        lemma_concat_valid(row_moves(g, color, y, n - 1), cell_moves(g, color, n - 1, y));
    }
}

/// Every legal move starts and ends on the board.
pub proof fn lemma_legal_moves_valid(g: Grid, color: Seq<char>, n: int)
    requires
        n <= 9,
    ensures
        forall|i: int|
            0 <= i < moves_upto(g, color, n).len() ==> valid_move(
                #[trigger] moves_upto(g, color, n)[i],
            ),
    decreases n,
{
    if n > 0 {
        lemma_legal_moves_valid(g, color, n - 1);
        lemma_row_moves_valid(g, color, n - 1, 9);
        lemma_concat_valid(moves_upto(g, color, n - 1), row_moves(g, color, n - 1, 9));
    }
}


pub open spec fn one_if(b: bool) -> int {
    if b {
        1
    } else {
        0
    }
}

/// The number of pieces on the board, the king included.
pub open spec fn piece_count(g: Grid) -> int {
    (cells_with(g, W).len() + cells_with(g, B).len() + cells_with(g, K).len()) as int
}

proof fn lemma_row_count_set(g: Grid, p: Position, v: u32, c: u32, y: int, n: int)
    requires
        well_formed(g),
        valid_position(p),
        0 <= y < 9,
        0 <= n <= 9,
    ensures
        row_cells_with(grid_set(g, p, v), c, y, n).len() == row_cells_with(g, c, y, n).len() + if y
            == p.y && p.x < n {
            one_if(v == c) - one_if(grid_at(g, p) == c)
        } else {
            0
        },
    decreases n,
{
    if n > 0 {
        lemma_row_count_set(g, p, v, c, y, n - 1);
    }
}

proof fn lemma_count_set_upto(g: Grid, p: Position, v: u32, c: u32, n: int)
    requires
        well_formed(g),
        valid_position(p),
        0 <= n <= 9,
    ensures
        cells_with_upto(grid_set(g, p, v), c, n).len() == cells_with_upto(g, c, n).len() + if p.y
            < n {
            one_if(v == c) - one_if(grid_at(g, p) == c)
        } else {
            0
        },
    decreases n,
{
    if n > 0 {
        lemma_count_set_upto(g, p, v, c, n - 1);
        lemma_row_count_set(g, p, v, c, n - 1, 9);
    }
}

/// Setting one cell changes the count of a content by what left and what came.
proof fn lemma_count_set(g: Grid, p: Position, v: u32, c: u32)
    requires
        well_formed(g),
        valid_position(p),
    ensures
        cells_with(grid_set(g, p, v), c).len() == cells_with(g, c).len() + one_if(v == c) - one_if(
            grid_at(g, p) == c,
        ),
{
    lemma_count_set_upto(g, p, v, c, 9);
}

/// A move onto an empty cell that captures nothing keeps the number of pieces.
pub proof fn lemma_quiet_move_keeps_pieces(board: Board, m: Move)
    requires
        valid_move(m),
        m.from != m.to,
        grid_at(board@, m.to) == E,
        captures_of(moved_grid(board@, m), m).len() == 0,
    ensures
        piece_count(after_move(board@, m)) == piece_count(board@),
{
    let g = board@;
    let g1 = grid_set(g, m.to, grid_at(g, m.from));
    assert(well_formed(g1));
    assert(grid_at(g1, m.from) == grid_at(g, m.from));
    lemma_count_set(g, m.to, grid_at(g, m.from), W);
    lemma_count_set(g, m.to, grid_at(g, m.from), B);
    lemma_count_set(g, m.to, grid_at(g, m.from), K);
    lemma_count_set(g1, m.from, E, W);
    lemma_count_set(g1, m.from, E, B);
    lemma_count_set(g1, m.from, E, K);
    assert(after_move(g, m) == moved_grid(g, m));
}

} // verus!
