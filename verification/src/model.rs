use vstd::prelude::*;
use crate::game::{Cell, Color};

verus! {

/// The color that is not `c`.
pub open spec fn other(c: Color) -> Color {
    match c {
        Color::Black => Color::White,
        Color::White => Color::Black,
    }
}

/// Column (0..8) of a square numbered row by row.
pub open spec fn col(cell: int) -> int {
    cell % 8
}

/// Row (0..8) of a square numbered row by row.
pub open spec fn row(cell: int) -> int {
    cell / 8
}

/// Column step of the `d`-th of the eight directions, in the order
/// (-1,-1), (-1,0), (-1,1), (0,-1), (0,1), (1,-1), (1,0), (1,1).
pub open spec fn dir_dx(d: int) -> int {
    if d <= 2 {
        -1
    } else if d <= 4 {
        0
    } else {
        1
    }
}

/// Row step of the `d`-th direction.
pub open spec fn dir_dy(d: int) -> int {
    if d == 0 || d == 3 || d == 5 {
        -1
    } else if d == 1 || d == 6 {
        0
    } else {
        1
    }
}

/// `v` moved `k` steps in the direction of the sign of `s`.
pub open spec fn step(v: int, s: int, k: int) -> int {
    if s < 0 {
        v - k
    } else if s > 0 {
        v + k
    } else {
        v
    }
}

/// Column of the square `k` steps away from `cell` in direction `d`.
pub open spec fn ray_x(cell: int, d: int, k: int) -> int {
    step(col(cell), dir_dx(d), k)
}

/// Row of the square `k` steps away from `cell` in direction `d`.
pub open spec fn ray_y(cell: int, d: int, k: int) -> int {
    step(row(cell), dir_dy(d), k)
}

pub open spec fn on_board(x: int, y: int) -> bool {
    0 <= x < 8 && 0 <= y < 8
}

/// The square `k` steps away from `cell` in direction `d` is on the board.
pub open spec fn on_ray(cell: int, d: int, k: int) -> bool {
    on_board(ray_x(cell, d, k), ray_y(cell, d, k))
}

/// Number of the square `k` steps away from `cell` in direction `d`.
pub open spec fn ray_index(cell: int, d: int, k: int) -> int {
    ray_y(cell, d, k) * 8 + ray_x(cell, d, k)
}

/// First distance, from `k` on, at which the ray from `cell` in direction `d`
/// leaves the board or meets a square that is not a pawn of `opp`.
pub open spec fn run_end(cells: Seq<Cell>, cell: int, d: int, opp: Color, k: int) -> int
    decreases 8 - k,
{
    if k < 8 && on_ray(cell, d, k) && cells[ray_index(cell, d, k)] == Cell::Filled(opp) {
        run_end(cells, cell, d, opp, k + 1)
    } else {
        k
    }
}

/// Playing `player` on `cell` encloses, in direction `d`, a nonempty run of
/// opponent pawns closed by a pawn of `player`.
pub open spec fn flanks(cells: Seq<Cell>, cell: int, player: Color, d: int) -> bool {
    let e = run_end(cells, cell, d, other(player), 1);
    e >= 2 && on_ray(cell, d, e) && cells[ray_index(cell, d, e)] == Cell::Filled(player)
}

/// Number of pawns that playing `player` on `cell` turns over in direction `d`.
pub open spec fn flip_count(cells: Seq<Cell>, cell: int, player: Color, d: int) -> int {
    if flanks(cells, cell, player, d) {
        run_end(cells, cell, d, other(player), 1) - 1
    } else {
        0
    }
}

/// Playing `player` on `cell` turns over at least one pawn.
pub open spec fn flips_something(cells: Seq<Cell>, cell: int, player: Color) -> bool {
    exists|d: int| 0 <= d < 8 && #[trigger] flanks(cells, cell, player, d)
}

/// `cell` is a legal move for `player`: it is empty and turns pawns over.
pub open spec fn is_legal(cells: Seq<Cell>, player: Color, cell: int) -> bool {
    cells[cell] == Cell::Empty && flips_something(cells, cell, player)
}

/// The legal moves of `player` among the squares below `n`, in increasing order.
pub open spec fn legal_moves_below(cells: Seq<Cell>, player: Color, n: int) -> Seq<usize>
    decreases n,
{
    if n <= 0 {
        Seq::empty()
    } else {
        legal_moves_below(cells, player, n - 1) + if is_legal(cells, player, n - 1) {
            seq![(n - 1) as usize]
        } else {
            Seq::empty()
        }
    }
}

/// The move list: the legal squares of `player`; or, where `player` has none,
/// has not just passed and the opponent has one, the single pass move 256.
pub open spec fn moves_spec(cells: Seq<Cell>, player: Color, previous_passed: bool) -> Seq<usize> {
    let own = legal_moves_below(cells, player, 64);
    if !previous_passed && own.len() == 0 && legal_moves_below(cells, other(player), 64).len()
        > 0 {
        seq![256usize]
    } else {
        own
    }
}

} // verus!

verus! {

/// The mathematical model of a board: the player to move and the 64 squares.
#[verifier::ext_equal]
pub struct BoardView {
    pub player: Color,
    pub cells: Seq<Cell>,
}

} // verus!

verus! {

/// Square `j` is one of those that playing `player` on `cell` turns over in
/// direction `d`.
pub open spec fn in_run(cells: Seq<Cell>, cell: int, player: Color, d: int, j: int) -> bool {
    exists|k: int| 1 <= k <= flip_count(cells, cell, player, d) && #[trigger] ray_index(cell, d, k) == j
}

/// Square `j` is turned over, in one of the first `n` directions, by playing
/// `player` on `cell`.
pub open spec fn flipped_by(cells: Seq<Cell>, cell: int, player: Color, n: int, j: int) -> bool {
    exists|d: int| 0 <= d < n && #[trigger] in_run(cells, cell, player, d, j)
}

/// The squares turned over in direction `d`, nearest first.
pub open spec fn run_indices(cells: Seq<Cell>, cell: int, player: Color, d: int) -> Seq<usize> {
    Seq::new(
        flip_count(cells, cell, player, d) as nat,
        |t: int| ray_index(cell, d, t + 1) as usize,
    )
}

/// The squares turned over in the first `n` directions, direction by direction.
pub open spec fn flipped_list(cells: Seq<Cell>, cell: int, player: Color, n: int) -> Seq<usize>
    decreases n,
{
    if n <= 0 {
        Seq::empty()
    } else {
        flipped_list(cells, cell, player, n - 1) + run_indices(cells, cell, player, n - 1)
    }
}

/// The squares after `player` put a pawn on `cell`: that square and every
/// enclosed run hold `player`'s pawns, the others are unchanged.
pub open spec fn placed_cells(cells: Seq<Cell>, cell: int, player: Color) -> Seq<Cell> {
    Seq::new(
        cells.len(),
        |j: int|
            if j == cell || flipped_by(cells, cell, player, 8, j) {
                Cell::Filled(player)
            } else {
                cells[j]
            },
    )
}

/// Playing `cell` on `b`: the board after, and the squares turned over.
/// A number above 63 passes; an occupied square changes nothing.
pub open spec fn play_spec(b: BoardView, cell: int) -> (BoardView, Seq<usize>) {
    if cell > 63 {
        (BoardView { player: other(b.player), cells: b.cells }, Seq::empty())
    } else if b.cells[cell] == Cell::Empty {
        (
            BoardView { player: other(b.player), cells: placed_cells(b.cells, cell, b.player) },
            flipped_list(b.cells, cell, b.player, 8),
        )
    } else {
        (b, Seq::empty())
    }
}

/// Taking back a move: `cell` is emptied when below 63, the `swapped` squares
/// get `player`'s opponent's pawns back, and `player` is to move.
pub open spec fn unplay_spec(b: BoardView, player: Color, cell: int, swapped: Seq<usize>) -> BoardView {
    BoardView {
        player: player,
        cells: Seq::new(
            b.cells.len(),
            |j: int|
                if swapped.contains(j as usize) {
                    Cell::Filled(other(player))
                } else if j == cell && cell < 63 {
                    Cell::Empty
                } else {
                    b.cells[j]
                },
        ),
    }
}

} // verus!

verus! {

/// Number of pawns of color `c` among `cells`.
pub open spec fn count_color(cells: Seq<Cell>, c: Color) -> int
    decreases cells.len(),
{
    if cells.len() == 0 {
        0
    } else {
        count_color(cells.drop_last(), c) + if cells.last() == Cell::Filled(c) {
            1int
        } else {
            0int
        }
    }
}

pub open spec fn is_corner(i: int) -> bool {
    i == 0 || i == 7 || i == 56 || i == 63
}

/// The squares next to a corner.
pub open spec fn is_c_square(i: int) -> bool {
    i == 1 || i == 8 || i == 9 || i == 6 || i == 14 || i == 15 || i == 48 || i == 49 || i == 57
        || i == 54 || i == 55 || i == 62
}

/// Weight of square `i` in the position score: 10 for a corner, -1 next to a
/// corner, 1 elsewhere.
pub open spec fn square_weight(i: int) -> int {
    if is_corner(i) {
        10
    } else if is_c_square(i) {
        -1
    } else {
        1
    }
}

/// Sum of the weights of the squares below `n` that hold a pawn of `c`.
pub open spec fn weighted_count(cells: Seq<Cell>, c: Color, n: int) -> int
    decreases n,
{
    if n <= 0 {
        0
    } else {
        weighted_count(cells, c, n - 1) + if cells[n - 1] == Cell::Filled(c) {
            square_weight(n - 1)
        } else {
            0
        }
    }
}

/// Position score for `player`: the weight of its pawns minus that of the
/// opponent's.
pub open spec fn note_spec(cells: Seq<Cell>, player: Color) -> int {
    weighted_count(cells, player, 64) - weighted_count(cells, other(player), 64)
}

/// The cell that a byte of the text form stands for: `'1'` white, `'2'` black,
/// anything else empty.
pub open spec fn byte_cell(b: u8) -> Cell {
    if b == 49 {
        Cell::Filled(Color::White)
    } else if b == 50 {
        Cell::Filled(Color::Black)
    } else {
        Cell::Empty
    }
}

/// The starting position: white on 27 and 36, black on 28 and 35.
pub open spec fn starter_cells() -> Seq<Cell> {
    Seq::new(
        64,
        |i: int|
            if i == 27 || i == 36 {
                Cell::Filled(Color::White)
            } else if i == 28 || i == 35 {
                Cell::Filled(Color::Black)
            } else {
                Cell::Empty
            },
    )
}

pub open spec fn max_int(a: int, b: int) -> int {
    if a >= b {
        a
    } else {
        b
    }
}

pub open spec fn min_int(a: int, b: int) -> int {
    if a <= b {
        a
    } else {
        b
    }
}

/// Depth-first minimax from `b`, scored for `player`: the value and the board
/// that the search leaves behind. At depth 0, or with no move, the value is
/// the score of `b`; otherwise each move of the move list is played, searched
/// one level deeper with the other role, and taken back, in turn.
pub open spec fn minimax_spec(b: BoardView, player: Color, depth: int, maximizing: bool) -> (
    int,
    BoardView,
)
    decreases
            if depth > 0 {
                depth
            } else {
                0
            },
            1int,
            0int,
{
    if depth <= 0 {
        (note_spec(b.cells, player), b)
    } else {
        let moves = moves_spec(b.cells, b.player, false);
        if moves.len() == 0 {
            (note_spec(b.cells, player), b)
        } else {
            minimax_loop(
                b,
                player,
                depth,
                maximizing,
                moves,
                0,
                b.player,
                if maximizing {
                    -1048576
                } else {
                    1048576
                },
            )
        }
    }
}

/// The search over the moves from index `i` on, with `acc` the best value so far
/// and `playing` the player who moves at this level.
pub open spec fn minimax_loop(
    b: BoardView,
    player: Color,
    depth: int,
    maximizing: bool,
    moves: Seq<usize>,
    i: int,
    playing: Color,
    acc: int,
) -> (int, BoardView)
    decreases
            if depth > 0 {
                depth
            } else {
                0
            },
            0int,
            moves.len() - i,
{
    if i < 0 || i >= moves.len() || depth <= 0 {
        (acc, b)
    } else {
        let played = play_spec(b, moves[i] as int);
        let inner = minimax_spec(played.0, player, depth - 1, !maximizing);
        let back = unplay_spec(inner.1, playing, moves[i] as int, played.1);
        let acc2 = if maximizing {
            max_int(acc, inner.0)
        } else {
            min_int(acc, inner.0)
        };
        minimax_loop(back, player, depth, maximizing, moves, i + 1, playing, acc2)
    }
}

} // verus!

verus! {

/// Text of a color.
pub open spec fn color_text(c: Color) -> Seq<char> {
    match c {
        Color::Black => "Black"@,
        Color::White => "White"@,
    }
}

/// Text of a cell: a space, a white disc or a black disc.
pub open spec fn cell_text(c: Cell) -> Seq<char> {
    match c {
        Cell::Empty => " "@,
        Cell::Filled(Color::White) => "○"@,
        Cell::Filled(Color::Black) => "●"@,
    }
}

/// Text of the first `n` cells of row `r`.
pub open spec fn row_text(cells: Seq<Cell>, r: int, n: int) -> Seq<char>
    decreases n,
{
    if n <= 0 {
        Seq::empty()
    } else {
        row_text(cells, r, n - 1) + cell_text(cells[r * 8 + n - 1])
    }
}

/// Text of the first `n` rows, each on a line of its own in brackets.
pub open spec fn rows_text(cells: Seq<Cell>, n: int) -> Seq<char>
    decreases n,
{
    if n <= 0 {
        Seq::empty()
    } else {
        rows_text(cells, n - 1) + "\n ["@ + row_text(cells, n - 1, 8) + "]"@
    }
}

/// Text of a board: the player to move, then the eight rows, in brackets.
pub open spec fn board_text(b: BoardView) -> Seq<char> {
    "["@ + color_text(b.player) + rows_text(b.cells, 8) + "]"@
}

} // verus!

verus! {

/// The byte that stands for a cell in the text form: `'0'` empty, `'1'` white,
/// `'2'` black.
pub open spec fn cell_byte(c: Cell) -> u8 {
    match c {
        Cell::Empty => 48,
        Cell::Filled(Color::White) => 49,
        Cell::Filled(Color::Black) => 50,
    }
}

} // verus!
