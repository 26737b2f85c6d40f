use vstd::prelude::*;
use vstd::string::*;
use crate::constants::{B, BLACK, C, E, F, K, R, T, W, WHITE};
use crate::rules::{after_move, captures, captures_of, cleared, game_status, moved_grid, status_of};

verus! {

/// The board contents as rows of cells: `g[y][x]`.
pub type Grid = Seq<Seq<u32>>;

/// A cell of the board, column `x` and row `y`, both in `0..9`.
#[derive(Clone, Copy, Debug, PartialEq, Eq, Structural)]
pub struct Position {
    pub x: u32,
    pub y: u32,
}

/// A move of the piece at `from` to `to`.
#[derive(Clone, Copy, Debug, PartialEq, Eq, Structural)]
pub struct Move {
    pub from: Position,
    pub to: Position,
}

pub open spec fn in_board(x: int, y: int) -> bool {
    0 <= x < 9 && 0 <= y < 9
}

pub open spec fn valid_position(p: Position) -> bool {
    p.x < 9 && p.y < 9
}

pub open spec fn valid_move(m: Move) -> bool {
    valid_position(m.from) && valid_position(m.to)
}

pub open spec fn well_formed(g: Grid) -> bool {
    g.len() == 9 && forall|y: int| 0 <= y < 9 ==> #[trigger] g[y].len() == 9
}

/// The content of the cell at `p`.
pub open spec fn grid_at(g: Grid, p: Position) -> u32 {
    g[p.y as int][p.x as int]
}

/// The grid with the cell at `p` holding `v`.
pub open spec fn grid_set(g: Grid, p: Position, v: u32) -> Grid {
    g.update(p.y as int, g[p.y as int].update(p.x as int, v))
}

pub open spec fn is_camp(x: int, y: int) -> bool {
    ((x == 0 || x == 8) && 3 <= y <= 5) || ((y == 0 || y == 8) && 3 <= x <= 5) || (x == 4 && (y
        == 1 || y == 7)) || (y == 4 && (x == 1 || x == 7))
}

pub open spec fn is_edge(x: int, y: int) -> bool {
    x == 0 || x == 8 || y == 0 || y == 8
}

pub open spec fn is_corner(x: int, y: int) -> bool {
    (x == 0 || x == 8) && (y == 0 || y == 8)
}

/// The fixed layout of the board: the throne in the centre, four camps of four
/// cells each in the middle of the sides, escape cells on the rest of the edge but
/// the corners, regular cells elsewhere.
pub open spec fn cell_type_at(x: int, y: int) -> u32 {
    if x == 4 && y == 4 {
        T
    } else if is_camp(x, y) {
        C
    } else if is_edge(x, y) && !is_corner(x, y) {
        F
    } else {
        R
    }
}

pub open spec fn is_white_piece(c: u32) -> bool {
    c == W || c == K
}

pub open spec fn is_piece(c: u32) -> bool {
    c == W || c == B || c == K
}

/// The neighbour of `p` in direction `d` (0 up, 1 down, 2 right, 3 left), if on the board.
pub open spec fn neighbor(p: Position, d: int) -> Option<Position> {
    if d == 0 {
        if p.y > 0 { Some(Position { x: p.x, y: (p.y - 1) as u32 }) } else { None }
    } else if d == 1 {
        if p.y < 8 { Some(Position { x: p.x, y: (p.y + 1) as u32 }) } else { None }
    } else if d == 2 {
        if p.x < 8 { Some(Position { x: (p.x + 1) as u32, y: p.y }) } else { None }
    } else {
        if p.x > 0 { Some(Position { x: (p.x - 1) as u32, y: p.y }) } else { None }
    }
}

/// The diagonal neighbour of `p` (0 up right, 1 up left, 2 down right, 3 down left).
pub open spec fn diagonal_neighbor(p: Position, d: int) -> Option<Position> {
    if d == 0 {
        if p.y > 0 && p.x < 8 { Some(Position { x: (p.x + 1) as u32, y: (p.y - 1) as u32 }) } else { None }
    } else if d == 1 {
        if p.y > 0 && p.x > 0 { Some(Position { x: (p.x - 1) as u32, y: (p.y - 1) as u32 }) } else { None }
    } else if d == 2 {
        if p.y < 8 && p.x < 8 { Some(Position { x: (p.x + 1) as u32, y: (p.y + 1) as u32 }) } else { None }
    } else {
        if p.y < 8 && p.x > 0 { Some(Position { x: (p.x - 1) as u32, y: (p.y + 1) as u32 }) } else { None }
    }
}

/// The cells of row `y` among its first `n` that hold `c`, left to right.
pub open spec fn row_cells_with(g: Grid, c: u32, y: int, n: int) -> Seq<Position>
    decreases n,
{
    if n <= 0 {
        seq![]
    } else {
        row_cells_with(g, c, y, n - 1) + if g[y][n - 1] == c {
            seq![Position { x: (n - 1) as u32, y: y as u32 }]
        } else {
            seq![]
        }
    }
}

/// The cells of the first `n` rows that hold `c`, in reading order.
pub open spec fn cells_with_upto(g: Grid, c: u32, n: int) -> Seq<Position>
    decreases n,
{
    if n <= 0 {
        seq![]
    } else {
        cells_with_upto(g, c, n - 1) + row_cells_with(g, c, n - 1, 9)
    }
}

/// Every cell that holds `c`, row by row, left to right.
pub open spec fn cells_with(g: Grid, c: u32) -> Seq<Position> {
    cells_with_upto(g, c, 9)
}

/// The king's cell: the first cell holding the king, if any.
pub open spec fn king_of(g: Grid) -> Option<Position> {
    if cells_with(g, K).len() > 0 {
        Some(cells_with(g, K)[0])
    } else {
        None
    }
}

pub proof fn lemma_row_cells_with(g: Grid, c: u32, y: int, n: int)
    requires
        well_formed(g),
        0 <= y < 9,
        n <= 9,
    ensures
        row_cells_with(g, c, y, n).len() <= if n < 0 { 0 } else { n },
        forall|i: int|
            0 <= i < row_cells_with(g, c, y, n).len() ==> {
                let p = #[trigger] row_cells_with(g, c, y, n)[i];
                valid_position(p) && p.y == y && grid_at(g, p) == c
            },
    decreases n,
{
    if n > 0 {
        lemma_row_cells_with(g, c, y, n - 1);
    }
}

/// Each cell listed by `cells_with` is on the board and holds `c`; there are at most 81.
pub proof fn lemma_cells_with(g: Grid, c: u32, n: int)
    requires
        well_formed(g),
        n <= 9,
    ensures
        cells_with_upto(g, c, n).len() <= if n < 0 { 0 } else { 9 * n },
        forall|i: int|
            0 <= i < cells_with_upto(g, c, n).len() ==> {
                let p = #[trigger] cells_with_upto(g, c, n)[i];
                valid_position(p) && grid_at(g, p) == c
            },
    decreases n,
{
    if n > 0 {
        lemma_cells_with(g, c, n - 1);
        lemma_row_cells_with(g, c, n - 1, 9);
        let a = cells_with_upto(g, c, n - 1);
        let b = row_cells_with(g, c, n - 1, 9);
        assert forall|i: int| 0 <= i < (a + b).len() implies {
            let p = #[trigger] (a + b)[i];
            valid_position(p) && grid_at(g, p) == c
        } by {
            if i >= a.len() {
                assert((a + b)[i] == b[i - a.len()]);
            }
        }
    }
}

/// The 9×9 board: the content of every cell. Cell types are fixed (`cell_type_at`).
#[derive(Clone, Copy, Debug, PartialEq, Eq)]
pub struct Board {
    pub board: [[u32; 9]; 9],
}

impl View for Board {
    type V = Grid;

    open spec fn view(&self) -> Grid {
        Seq::new(9, |y: int| self.board[y]@)
    }
}


pub open spec fn initial_grid() -> Grid {
    seq![
        seq![E, E, E, B, B, B, E, E, E],
        seq![E, E, E, E, B, E, E, E, E],
        seq![E, E, E, E, W, E, E, E, E],
        seq![B, E, E, E, W, E, E, E, B],
        seq![B, B, W, W, K, W, W, B, B],
        seq![B, E, E, E, W, E, E, E, B],
        seq![E, E, E, E, W, E, E, E, E],
        seq![E, E, E, E, B, E, E, E, E],
        seq![E, E, E, B, B, B, E, E, E],
    ]
}

impl Board {
    pub proof fn lemma_well_formed(&self)
        ensures
            well_formed(self@),
    {
    }

    /// The starting position.
    pub fn init() -> (r: Board)
        ensures
            r@ == initial_grid(),
    {
        let r = Board {
            board: [
                [E, E, E, B, B, B, E, E, E],
                [E, E, E, E, B, E, E, E, E],
                [E, E, E, E, W, E, E, E, E],
                [B, E, E, E, W, E, E, E, B],
                [B, B, W, W, K, W, W, B, B],
                [B, E, E, E, W, E, E, E, B],
                [E, E, E, E, W, E, E, E, E],
                [E, E, E, E, B, E, E, E, E],
                [E, E, E, B, B, B, E, E, E],
            ],
        };
        assert(r@ =~~= initial_grid());
        r
    }

    pub fn new(board: [[u32; 9]; 9]) -> (r: Board)
        ensures
            r.board == board,
    {
        Board { board }
    }

    fn set_cell(&mut self, p: Position, v: u32)
        requires
            valid_position(p),
        ensures
            final(self)@ == grid_set(old(self)@, p, v),
    {
        let mut row = self.board[p.y as usize];
        row[p.x as usize] = v;
        self.board[p.y as usize] = row;
        assert(self@ =~~= grid_set(old(self)@, p, v));
    }

    /// Moves the piece at `m.from` to `m.to`, then removes the pieces it captures.
    /// Legality of the move is the caller's concern.
    pub fn apply_move(&mut self, m: &Move)
        requires
            valid_move(*m),
        ensures
            final(self)@ == after_move(old(self)@, *m),
    {
        let cell_content = self.cell_content(m.from);
        self.set_cell(m.to, cell_content);
        self.set_cell(m.from, E);
        let ghost landed = self@;
        assert(landed == moved_grid(old(self)@, *m));
        let captured = captures(self, m);
        let mut i: usize = 0;
        while i < captured.len()
            invariant
                0 <= i <= captured.len(),
                captured@ == captures_of(landed, *m),
                forall|j: int| 0 <= j < captured@.len() ==> valid_position(#[trigger] captured@[j]),
                self@ == cleared(landed, captured@.take(i as int)),
            decreases captured.len() - i,
        {
            self.set_cell(captured[i], E);
            proof {
                assert(captured@.take(i + 1).drop_last() =~= captured@.take(i as int));
            }
            i = i + 1;
        }
        assert(captured@.take(i as int) =~= captured@);
    }

    pub fn cell_type(&self, p: Position) -> (r: u32)
        requires
            valid_position(p),
        ensures
            r == cell_type_at(p.x as int, p.y as int),
    {
        let x = p.x;
        let y = p.y;
        if x == 4 && y == 4 {
            T
        } else if ((x == 0 || x == 8) && 3 <= y && y <= 5) || ((y == 0 || y == 8) && 3 <= x && x
            <= 5) || (x == 4 && (y == 1 || y == 7)) || (y == 4 && (x == 1 || x == 7)) {
            C
        } else if (x == 0 || x == 8 || y == 0 || y == 8) && !((x == 0 || x == 8) && (y == 0 || y
            == 8)) {
            F
        } else {
            R
        }
    }

    pub fn cell_content(&self, p: Position) -> (r: u32)
        requires
            valid_position(p),
        ensures
            r == grid_at(self@, p),
    {
        self.board[p.y as usize][p.x as usize]
    }

    /// The colour of the piece at `p`: the king counts as white.
    pub fn cell_color(&self, p: Position) -> (r: Option<String>)
        requires
            valid_position(p),
        ensures
            is_white_piece(grid_at(self@, p)) ==> r is Some && r->0@ == WHITE@,
            grid_at(self@, p) == B ==> r is Some && r->0@ == BLACK@,
            !is_piece(grid_at(self@, p)) ==> r is None,
    {
        let content = self.cell_content(p);
        if content == W || content == K {
            Some(String::from_str(WHITE))
        } else if content == B {
            Some(String::from_str(BLACK))
        } else {
            None
        }
    }

    /// The four orthogonal neighbours: up, down, right, left.
    pub fn surrounding_cells(&self, p: Position) -> (r: [Option<Position>; 4])
        ensures
            forall|d: int| 0 <= d < 4 ==> #[trigger] r[d] == neighbor(p, d),
    {
        let mut s: [Option<Position>; 4] = [None, None, None, None];
        if p.y > 0 {
            s[0] = Some(Position { x: p.x, y: p.y - 1 });
        }
        if p.y < 8 {
            s[1] = Some(Position { x: p.x, y: p.y + 1 });
        }
        if p.x < 8 {
            s[2] = Some(Position { x: p.x + 1, y: p.y });
        }
        if p.x > 0 {
            s[3] = Some(Position { x: p.x - 1, y: p.y });
        }
        s
    }

    /// The four diagonal neighbours: up right, up left, down right, down left.
    pub fn surrounding_diagonal_cells(&self, p: Position) -> (r: [Option<Position>; 4])
        ensures
            forall|d: int| 0 <= d < 4 ==> #[trigger] r[d] == diagonal_neighbor(p, d),
    {
        let mut s: [Option<Position>; 4] = [None, None, None, None];
        if p.y > 0 && p.x < 8 {
            s[0] = Some(Position { x: p.x + 1, y: p.y - 1 });
        }
        if p.y > 0 && p.x > 0 {
            s[1] = Some(Position { x: p.x - 1, y: p.y - 1 });
        }
        if p.y < 8 && p.x < 8 {
            s[2] = Some(Position { x: p.x + 1, y: p.y + 1 });
        }
        if p.y < 8 && p.x > 0 {
            s[3] = Some(Position { x: p.x - 1, y: p.y + 1 });
        }
        s
    }

    pub fn upper_cell(&self, p: Position) -> (r: Option<Position>)
        ensures
            r == if valid_position(p) { neighbor(p, 0) } else { None },
    {
        if p.x > 8 || p.y > 8 || p.y == 0 {
            None
        } else {
            Some(Position { x: p.x, y: p.y - 1 })
        }
    }

    pub fn lower_cell(&self, p: Position) -> (r: Option<Position>)
        ensures
            r == if valid_position(p) { neighbor(p, 1) } else { None },
    {
        if p.x > 8 || p.y > 8 || p.y == 8 {
            None
        } else {
            Some(Position { x: p.x, y: p.y + 1 })
        }
    }

    pub fn right_cell(&self, p: Position) -> (r: Option<Position>)
        ensures
            r == if valid_position(p) { neighbor(p, 2) } else { None },
    {
        if p.x > 8 || p.y > 8 || p.x == 8 {
            None
        } else {
            Some(Position { x: p.x + 1, y: p.y })
        }
    }

    pub fn left_cell(&self, p: Position) -> (r: Option<Position>)
        ensures
            r == if valid_position(p) { neighbor(p, 3) } else { None },
    {
        if p.x > 8 || p.y > 8 || p.x == 0 {
            None
        } else {
            Some(Position { x: p.x - 1, y: p.y })
        }
    }

    /// Every cell holding `cell_content`, row by row.
    pub fn filter_cells(&self, cell_content: u32) -> (r: Vec<Position>)
        ensures
            r@ == cells_with(self@, cell_content),
    {
        let mut cells: Vec<Position> = Vec::new();
        let mut y: u32 = 0;
        while y < 9
            invariant
                y <= 9,
                cells@ == cells_with_upto(self@, cell_content, y as int),
            decreases 9 - y,
        {
            let mut x: u32 = 0;
            while x < 9
                invariant
                    y < 9,
                    x <= 9,
                    cells@ == cells_with_upto(self@, cell_content, y as int) + row_cells_with(
                        self@,
                        cell_content,
                        y as int,
                        x as int,
                    ),
                decreases 9 - x,
            {
                let ghost before = cells@;
                if self.board[y as usize][x as usize] == cell_content {
                    cells.push(Position { x, y });
                }
                proof {
                    let a = cells_with_upto(self@, cell_content, y as int);
                    let b = row_cells_with(self@, cell_content, y as int, x as int);
                    let b1 = row_cells_with(self@, cell_content, y as int, x + 1);
                    assert(before =~= a + b);
                    assert(cells@ =~= a + b1);
                }
                x = x + 1;
            }
            proof {
                assert(cells_with_upto(self@, cell_content, y + 1) =~= cells_with_upto(
                    self@,
                    cell_content,
                    y as int,
                ) + row_cells_with(self@, cell_content, y as int, 9));
            }
            y = y + 1;
        }
        cells
    }

    pub fn king_cell(&self) -> (r: Option<Position>)
        ensures
            r == king_of(self@),
    {
        let v = self.filter_cells(K);
        if v.len() > 0 {
            Some(v[0])
        } else {
            None
        }
    }

    pub fn white_cells(&self) -> (r: Vec<Position>)
        ensures
            r@ == cells_with(self@, W),
    {
        self.filter_cells(W)
    }

    pub fn black_cells(&self) -> (r: Vec<Position>)
        ensures
            r@ == cells_with(self@, B),
    {
        self.filter_cells(B)
    }

    pub fn is_empty(&self, p: Position) -> (r: bool)
        requires
            valid_position(p),
        ensures
            r == (grid_at(self@, p) == E),
    {
        self.cell_content(p) == E
    }

    pub fn is_king_in_throne(&self) -> (r: bool)
        ensures
            r == (king_of(self@) is Some && cell_type_at(
                king_of(self@)->0.x as int,
                king_of(self@)->0.y as int,
            ) == T),
    {
        let king = self.king_cell();
        proof {
            lemma_cells_with(self@, K, 9);
        }
        match king {
            None => false,
            Some(k) => self.cell_type(k) == T,
        }
    }

    pub fn is_king_next_throne(&self) -> (r: bool)
        ensures
            r == (king_of(self@) is Some && exists|d: int|
                0 <= d < 4 && #[trigger] neighbor(king_of(self@)->0, d) is Some && cell_type_at(
                    neighbor(king_of(self@)->0, d)->0.x as int,
                    neighbor(king_of(self@)->0, d)->0.y as int,
                ) == T),
    {
        let king = self.king_cell();
        proof {
            lemma_cells_with(self@, K, 9);
        }
        match king {
            None => false,
            Some(k) => {
                let s = self.surrounding_cells(k);
                let mut i: usize = 0;
                while i < 4
                    invariant
                        i <= 4,
                        valid_position(k),
                        king_of(self@) == Some(k),
                        forall|d: int| 0 <= d < 4 ==> #[trigger] s[d] == neighbor(k, d),
                        forall|d: int|
                            0 <= d < i ==> !(#[trigger] neighbor(k, d) is Some && cell_type_at(
                                neighbor(k, d)->0.x as int,
                                neighbor(k, d)->0.y as int,
                            ) == T),
                    decreases 4 - i,
                {
                    if let Some(c) = s[i] {
                        assert(neighbor(k, i as int) == s[i as int]);
                        if self.cell_type(c) == T {
                            assert(neighbor(k, i as int)->0 == c);
                            assert(neighbor(king_of(self@)->0, i as int) is Some && cell_type_at(
                                neighbor(king_of(self@)->0, i as int)->0.x as int,
                                neighbor(king_of(self@)->0, i as int)->0.y as int,
                            ) == T);
                            return true;
                        }
                    }
                    i = i + 1;
                }
                false
            },
        }
    }
}


/// Column letters above the board.
pub const COLUMNS_LINE: &'static str = "    a   b   c   d   e   f   g   h   i\n";

pub const TOP_LINE: &'static str = "  ┌───┬───┬───┬───┬───┬───┬───┬───┬───┐\n";

pub const MIDDLE_LINE: &'static str = "  ├───┼───┼───┼───┼───┼───┼───┼───┼───┤\n";

pub const BOTTOM_LINE: &'static str = "  └───┴───┴───┴───┴───┴───┴───┴───┴───┘";

pub const ROW_END: &'static str = "│\n";

pub const WHITE_CELL: &'static str = "│ ○ ";

pub const BLACK_CELL: &'static str = "│ ● ";

pub const KING_CELL: &'static str = "│ △ ";

pub const EMPTY_CELL: &'static str = "│   ";

/// How a cell is drawn.
pub open spec fn cell_text(c: u32) -> Seq<char> {
    if c == W {
        WHITE_CELL@
    } else if c == B {
        BLACK_CELL@
    } else if c == K {
        KING_CELL@
    } else {
        EMPTY_CELL@
    }
}

/// The number of row `y` as printed, counting from 1, and a space.
pub open spec fn row_label(y: int) -> Seq<char> {
    if y == 0 {
        "1 "@
    } else if y == 1 {
        "2 "@
    } else if y == 2 {
        "3 "@
    } else if y == 3 {
        "4 "@
    } else if y == 4 {
        "5 "@
    } else if y == 5 {
        "6 "@
    } else if y == 6 {
        "7 "@
    } else if y == 7 {
        "8 "@
    } else {
        "9 "@
    }
}

/// The first `n` cells of row `y`, drawn.
pub open spec fn row_text(g: Grid, y: int, n: int) -> Seq<char>
    decreases n,
{
    if n <= 0 {
        seq![]
    } else {
        row_text(g, y, n - 1) + cell_text(g[y][n - 1])
    }
}

/// The first `n` rows, drawn with their numbers and the lines between them.
pub open spec fn rows_text(g: Grid, n: int) -> Seq<char>
    decreases n,
{
    if n <= 0 {
        seq![]
    } else {
        rows_text(g, n - 1) + row_label(n - 1) + row_text(g, n - 1, 9) + ROW_END@ + if n - 1 < 8 {
            MIDDLE_LINE@
        } else {
            seq![]
        }
    }
}

/// The board drawn as text, with the column letters and row numbers.
pub open spec fn board_text(g: Grid) -> Seq<char> {
    COLUMNS_LINE@ + TOP_LINE@ + rows_text(g, 9) + BOTTOM_LINE@
}

fn cell_symbol(c: u32) -> (r: &'static str)
    ensures
        r@ == cell_text(c),
{
    if c == W {
        WHITE_CELL
    } else if c == B {
        BLACK_CELL
    } else if c == K {
        KING_CELL
    } else {
        EMPTY_CELL
    }
}

fn row_number(y: usize) -> (r: &'static str)
    ensures
        r@ == row_label(y as int),
{
    if y == 0 {
        "1 "
    } else if y == 1 {
        "2 "
    } else if y == 2 {
        "3 "
    } else if y == 3 {
        "4 "
    } else if y == 4 {
        "5 "
    } else if y == 5 {
        "6 "
    } else if y == 6 {
        "7 "
    } else if y == 7 {
        "8 "
    } else {
        "9 "
    }
}

impl Board {
    /// The board drawn as text: white soldiers ○, black soldiers ●, the king △.
    pub fn to_text(&self) -> (r: String)
        ensures
            r@ == board_text(self@),
    {
        let mut out = String::from_str(COLUMNS_LINE);
        out.append(TOP_LINE);
        let ghost start = out@;
        let mut y: usize = 0;
        while y < 9
            invariant
                y <= 9,
                start == COLUMNS_LINE@ + TOP_LINE@,
                out@ == start + rows_text(self@, y as int),
            decreases 9 - y,
        {
            let ghost before_row = out@;
            out.append(row_number(y));
            let ghost after_label = out@;
            let mut x: usize = 0;
            while x < 9
                invariant
                    x <= 9,
                    y < 9,
                    out@ == after_label + row_text(self@, y as int, x as int),
                decreases 9 - x,
            {
                let ghost before = out@;
                out.append(cell_symbol(self.board[y][x]));
                assert(out@ =~= after_label + row_text(self@, y as int, x + 1));
                x = x + 1;
            }
            out.append(ROW_END);
            if y < 8 {
                out.append(MIDDLE_LINE);
            }
            assert(out@ =~= start + rows_text(self@, y + 1));
            y = y + 1;
        }
        out.append(BOTTOM_LINE);
        assert(out@ =~= board_text(self@));
        out
    }
}

/// The outcome of the game, seen from the colour of the state that holds it.
#[allow(non_camel_case_types)]
#[derive(Clone, Copy, Debug, PartialEq, Eq, Structural)]
pub enum Status {
    WIN,
    LOSS,
    DRAW,
    ONGOING,
}

/// What a game state stands for: the board, the earlier boards (oldest first),
/// the colour whose point of view it takes and the side to move.
pub struct Snapshot {
    pub grid: Grid,
    pub history: Seq<Grid>,
    pub color: Seq<char>,
    pub turn: Seq<char>,
}

/// A game in progress: its board, colour, the side whose turn it is, the earlier
/// boards and the last computed status.
#[derive(Clone)]
pub struct State {
    pub color: String,
    pub board: Board,
    pub turn: String,
    pub history: Vec<Board>,
    pub status: Status,
}

pub open spec fn boards_view(h: Seq<Board>) -> Seq<Grid> {
    h.map_values(|b: Board| b@)
}

impl View for State {
    type V = Snapshot;

    open spec fn view(&self) -> Snapshot {
        Snapshot {
            grid: self.board@,
            history: boards_view(self.history@),
            color: self.color@,
            turn: self.turn@,
        }
    }
}

impl State {
    /// A new game from the starting position, white to move, seen by `color`.
    pub fn init(color: String) -> (r: State)
        ensures
            r.color@ == color@,
            r.board@ == initial_grid(),
            r.turn@ == WHITE@,
            boards_view(r.history@) == seq![initial_grid()],
            r.status == Status::ONGOING,
    {
        let mut history: Vec<Board> = Vec::new();
        history.push(Board::init());
        let r = State {
            color,
            board: Board::init(),
            turn: String::from_str(WHITE),
            history,
            status: Status::ONGOING,
        };
        assert(boards_view(r.history@) =~= seq![initial_grid()]);
        r
    }

    /// Records the current board in the history, then plays `m` on it.
    pub fn apply_move(&mut self, m: &Move)
        requires
            valid_move(*m),
        ensures
            final(self)@.grid == after_move(old(self)@.grid, *m),
            final(self)@.history == old(self)@.history.push(old(self)@.grid),
            final(self).color == old(self).color,
            final(self).turn == old(self).turn,
            final(self).status == old(self).status,
    {
        self.history.push(self.board);
        self.board.apply_move(m);
        assert(boards_view(self.history@) =~= boards_view(old(self).history@).push(
            old(self).board@,
        ));
    }

    /// Takes in the board and the side to move received from the server: the board
    /// becomes current and is recorded in the history, and the status is computed
    /// anew.
    pub fn receive(&mut self, board: Board, turn: String)
        ensures
            final(self).board == board,
            final(self).turn == turn,
            final(self).color == old(self).color,
            final(self)@.history == old(self)@.history.push(board@),
            final(self).status == status_of(final(self)@),
    {
        self.board = board;
        self.turn = turn;
        self.history.push(board);
        assert(boards_view(self.history@) =~= boards_view(old(self).history@).push(board@));
        self.status = game_status(self);
    }
}

} // verus!
