use vstd::prelude::*;
use crate::constants::{B, E, K, W};
use crate::game::Board;
use crate::rules::same_text;

verus! {

/// The content that the server's name of a cell stands for: anything but a piece
/// name is an empty cell.
pub open spec fn content_of_name(name: Seq<char>) -> u32 {
    if name == "WHITE"@ {
        W
    } else if name == "BLACK"@ {
        B
    } else if name == "KING"@ {
        K
    } else {
        E
    }
}

/// The content that the server's name of a cell stands for.
pub fn cell_from_name(name: &str) -> (r: u32)
    ensures
        r == content_of_name(name@),
{
    if same_text(name, "WHITE") {
        W
    } else if same_text(name, "BLACK") {
        B
    } else if same_text(name, "KING") {
        K
    } else {
        E
    }
}

/// The board whose cells the server names, row by row.
pub fn board_from_names(rows: &Vec<Vec<String>>) -> (r: Board)
    requires
        rows.len() == 9,
        forall|y: int| 0 <= y < 9 ==> #[trigger] rows[y].len() == 9,
    ensures
        forall|y: int, x: int|
            0 <= y < 9 && 0 <= x < 9 ==> #[trigger] r@[y][x] == content_of_name(rows[y][x]@),
{
    let mut board = [[E; 9]; 9];
    let mut y: usize = 0;
    while y < 9
        invariant
            y <= 9,
            rows.len() == 9,
            forall|i: int| 0 <= i < 9 ==> #[trigger] rows[i].len() == 9,
            forall|i: int, j: int|
                0 <= i < y && 0 <= j < 9 ==> #[trigger] board[i][j] == content_of_name(
                    rows[i][j]@,
                ),
        decreases 9 - y,
    {
        let mut row = [E; 9];
        let mut x: usize = 0;
        while x < 9
            invariant
                x <= 9,
                y < 9,
                rows.len() == 9,
                forall|i: int| 0 <= i < 9 ==> #[trigger] rows[i].len() == 9,
                forall|j: int| 0 <= j < x ==> #[trigger] row[j] == content_of_name(rows[y as int][j]@),
            decreases 9 - x,
        {
            assert(rows[y as int].len() == 9);
            row[x] = cell_from_name(rows[y][x].as_str());
            x = x + 1;
        }
        board[y] = row;
        y = y + 1;
    }
    Board::new(board)
}

/// The letter of column `x`, from 'a' on.
pub fn column_letter(x: u32) -> (r: char)
    requires
        x < 9,
    ensures
        r as u32 == 97 + x,
{
    ((97 + x) as u8) as char
}

} // verus!
