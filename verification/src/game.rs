use vstd::prelude::*;
use crate::geometry::{
    lemma_cell_coords, lemma_flanks_adjacent, lemma_flipped_by_step, lemma_not_flipped_on_ray,
    lemma_ray_not_origin, lemma_run_end_agree, lemma_run_square,
};
use crate::model::{
    board_text, byte_cell, cell_byte, cell_text, col, color_text, count_color, dir_dx, dir_dy,
    flanks, flip_count, flipped_by, flipped_list, flips_something, in_run, is_legal,
    legal_moves_below, minimax_loop, minimax_spec, moves_spec, note_spec, on_ray, other,
    placed_cells, play_spec, ray_index, ray_x, ray_y, row, row_text, rows_text, run_end,
    run_indices, square_weight, starter_cells, unplay_spec, weighted_count, BoardView,
};

verus! {

/// The move number that stands for a pass.
pub const PASS: usize = 256;

/// Bound of the scores that the minimax search starts from.
pub const NOTEMAX: i32 = 1024 * 1024;

/// Weight of a square next to a corner in the position score.
pub const CXSQUARE: i32 = -1;

/// Weight of a corner square in the position score.
pub const CORNER: i32 = 10;

/// A player color, `Black` or `White`.
#[derive(Clone, Copy, PartialEq, Eq, Debug, Structural)]
pub enum Color {
    Black,
    White,
}

/// Cells are `Empty` or `Filled` by a pawn of a given `Color`.
#[derive(Clone, Copy, PartialEq, Eq, Debug, Structural)]
pub enum Cell {
    Empty,
    Filled(Color),
}

/// A board situation has a next player and 8x8 cells, numbered row by row.
#[derive(Clone, Copy)]
pub struct Board {
    pub player: Color,
    pub cells: [Cell; 64],
}

/// A fixed-size list of moves.
pub struct Movelist {
    pub moves: [u8; 64],
    pub n: usize,
}

impl Color {
    /// The color's name, `Black` or `White`.
    pub fn to_string(&self) -> (s: String)
        ensures
            s@ == color_text(*self),
    {
        match self {
            Color::Black => String::from_str("Black"),
            Color::White => String::from_str("White"),
        }
    }
}

impl Cell {
    /// A space for an empty cell, a white or a black disc for a pawn.
    pub fn to_string(&self) -> (s: String)
        ensures
            s@ == cell_text(*self),
    {
        match self {
            Cell::Empty => String::from_str(" "),
            Cell::Filled(Color::White) => String::from_str("○"),
            Cell::Filled(Color::Black) => String::from_str("●"),
        }
    }
}

impl View for Board {
    type V = BoardView;

    open spec fn view(&self) -> BoardView {
        BoardView { player: self.player, cells: self.cells@ }
    }
}

/// The color that is not `c`.
pub fn opposite(c: Color) -> (r: Color)
    ensures
        r == other(c),
{
    match c {
        Color::White => Color::Black,
        Color::Black => Color::White,
    }
}

/// Column and row steps of the `d`-th direction.
fn neighbor(d: usize) -> (r: (i32, i32))
    requires
        d < 8,
    ensures
        r.0 == dir_dx(d as int),
        r.1 == dir_dy(d as int),
{
    match d {
        0 => (-1, -1),
        1 => (-1, 0),
        2 => (-1, 1),
        3 => (0, -1),
        4 => (0, 1),
        5 => (1, -1),
        6 => (1, 0),
        _ => (1, 1),
    }
}

impl Board {
    /// Walks from `cell` in direction `d` over the pawns of `opp`; returns the
    /// distance where the walk stopped and the coordinates reached there.
    fn scan(&self, cell: usize, d: usize, opp: Color) -> (r: (i32, i32, i32))
        requires
            cell < 64,
            d < 8,
        ensures
            r.0 == run_end(self.cells@, cell as int, d as int, opp, 1),
            1 <= r.0 <= 8,
            r.1 == ray_x(cell as int, d as int, r.0 as int),
            r.2 == ray_y(cell as int, d as int, r.0 as int),
    {
        proof {
            lemma_cell_coords(cell as int);
        }
        let (dx, dy) = neighbor(d);
        let x0 = (cell % 8) as i32;
        let y0 = (cell / 8) as i32;
        let mut k: i32 = 1;
        let mut x: i32 = x0 + dx;
        let mut y: i32 = y0 + dy;
        while k < 8 && 0 <= x && x < 8 && 0 <= y && y < 8 && self.cells[(y * 8 + x) as usize]
            == Cell::Filled(opp)
            invariant
                cell < 64,
                d < 8,
                dx == dir_dx(d as int),
                dy == dir_dy(d as int),
                1 <= k <= 8,
                x == ray_x(cell as int, d as int, k as int),
                y == ray_y(cell as int, d as int, k as int),
                run_end(self.cells@, cell as int, d as int, opp, 1) == run_end(
                    self.cells@,
                    cell as int,
                    d as int,
                    opp,
                    k as int,
                ),
            decreases 8 - k,
        {
            x = x + dx;
            y = y + dy;
            k = k + 1;
        }
        (k, x, y)
    }

    /// Whether some neighbor of `cell` holds a pawn of `opp`.
    fn has_neighbor(&self, cell: usize, opp: Color) -> (r: bool)
        requires
            cell < 64,
        ensures
            r == exists|d: int|
                0 <= d < 8 && on_ray(cell as int, d, 1) && self.cells@[#[trigger] ray_index(
                    cell as int,
                    d,
                    1,
                )] == Cell::Filled(opp),
    {
        proof {
            lemma_cell_coords(cell as int);
        }
        let x0 = (cell % 8) as i32;
        let y0 = (cell / 8) as i32;
        let mut d: usize = 0;
        while d < 8
            invariant
                cell < 64,
                d <= 8,
                x0 == col(cell as int),
                y0 == row(cell as int),
                forall|e: int|
                    0 <= e < d ==> !(on_ray(cell as int, e, 1) && self.cells@[#[trigger] ray_index(
                        cell as int,
                        e,
                        1,
                    )] == Cell::Filled(opp)),
            decreases 8 - d,
        {
            let (dx, dy) = neighbor(d);
            let x = x0 + dx;
            let y = y0 + dy;
            if 0 <= x && x < 8 && 0 <= y && y < 8 && self.cells[(y * 8 + x) as usize] == Cell::Filled(
                opp,
            ) {
                assert(ray_index(cell as int, d as int, 1) == y * 8 + x);
                return true;
            }
            d = d + 1;
        }
        false
    }

    /// Whether playing `player` on `cell` would turn over some pawn.
    fn is_changed(&self, cell: usize, player: &Color) -> (r: bool)
        requires
            cell < 64,
        ensures
            r == flips_something(self.cells@, cell as int, *player),
    {
        let opponent = opposite(*player);
        let mut d: usize = 0;
        while d < 8
            invariant
                cell < 64,
                d <= 8,
                opponent == other(*player),
                forall|e: int| 0 <= e < d ==> !#[trigger] flanks(self.cells@, cell as int, *player, e),
            decreases 8 - d,
        {
            let (k, x, y) = self.scan(cell, d, opponent);
            if k >= 2 && 0 <= x && x < 8 && 0 <= y && y < 8 && self.cells[(y * 8 + x) as usize]
                == Cell::Filled(*player) {
                assert(flanks(self.cells@, cell as int, *player, d as int));
                return true;
            }
            d = d + 1;
        }
        false
    }

    /// The moves of `player`, a vector of cell numbers; `PASS` alone where
    /// `player` has none but the opponent has some and `previous_passed` is false.
    fn moves_for(&self, player: &Color, previous_passed: bool) -> (res: Vec<usize>)
        ensures
            res@ == moves_spec(self.cells@, *player, previous_passed),
        decreases
            if previous_passed {
                0int
            } else {
                1int
            },
    {
        let opponent = opposite(*player);
        let mut res: Vec<usize> = Vec::with_capacity(64);
        let mut i: usize = 0;
        while i < 64
            invariant
                i <= 64,
                opponent == other(*player),
                res@ == legal_moves_below(self.cells@, *player, i as int),
            decreases 64 - i,
        {
            let ghost before = res@;
            if self.cells[i] == Cell::Empty {
                if self.has_neighbor(i, opponent) {
                    if self.is_changed(i, player) {
                        res.push(i);
                    }
                } else {
                    assert(!flips_something(self.cells@, i as int, *player)) by {
                        if flips_something(self.cells@, i as int, *player) {
                            let d = choose|d: int|
                                0 <= d < 8 && #[trigger] flanks(self.cells@, i as int, *player, d);
                            lemma_flanks_adjacent(self.cells@, i as int, *player, d);
                        }
                    }
                }
            }
            assert(is_legal(self.cells@, *player, i as int) ==> res@ == before + seq![i]);
            assert(!is_legal(self.cells@, *player, i as int) ==> res@ == before);
            i = i + 1;
        }
        if !previous_passed && res.is_empty() {
            let next_ones = self.moves_for(&opponent, true);
            if !next_ones.is_empty() {
                res.push(PASS);
            }
        }
        res
    }

    ///
    /// Return the moves, a vector of cell numbers. 256 means PASS.
    ///
    pub fn moves(&self) -> (res: Vec<usize>)
        ensures
            res@ == moves_spec(self.cells@, self.player, false),
    {
        self.moves_for(&self.player, false)
    }
    ///
    /// Play a move by cell number: returns the cells whose pawns were turned over.
    ///
    pub fn play_move(&mut self, cell: usize) -> (swapped: Vec<usize>)
        ensures
            final(self)@ == play_spec(old(self)@, cell as int).0,
            swapped@ == play_spec(old(self)@, cell as int).1,
            forall|i: int| 0 <= i < swapped.len() ==> swapped@[i] < 64,
    {
        let ghost orig = self.cells@;
        let player = self.player;
        let opponent = opposite(player);
        let mut swapped: Vec<usize> = Vec::with_capacity(32);
        if cell > 63 {
            self.player = opponent;
            return swapped;
        }
        if self.cells[cell] == Cell::Empty {
            proof {
                lemma_cell_coords(cell as int);
            }
            let x0 = (cell % 8) as i32;
            let y0 = (cell / 8) as i32;
            let mut d: usize = 0;
            while d < 8
                invariant
                    cell < 64,
                    d <= 8,
                    x0 == col(cell as int),
                    y0 == row(cell as int),
                    self.player == player,
                    opponent == other(player),
                    orig[cell as int] == Cell::Empty,
                    forall|j: int|
                        0 <= j < 64 ==> self.cells@[j] == if flipped_by(
                            orig,
                            cell as int,
                            player,
                            d as int,
                            j,
                        ) {
                            Cell::Filled(player)
                        } else {
                            orig[j]
                        },
                    swapped@ == flipped_list(orig, cell as int, player, d as int),
                    forall|i: int| 0 <= i < swapped.len() ==> swapped@[i] < 64,
                decreases 8 - d,
            {
                let ghost cur = self.cells@;
                proof {
                    assert forall|s: int|
                        1 <= s && on_ray(cell as int, d as int, s) implies cur[#[trigger] ray_index(
                        cell as int,
                        d as int,
                        s,
                    )] == orig[ray_index(cell as int, d as int, s)] by {
                        lemma_not_flipped_on_ray(orig, cell as int, player, d as int, d as int, s);
                        lemma_ray_not_origin(cell as int, d as int, s);
                    }
                    lemma_run_end_agree(cur, orig, cell as int, d as int, opponent, 1);
                }
                let (k, x, y) = self.scan(cell, d, opponent);
                let ghost fc = flip_count(orig, cell as int, player, d as int);
                if k >= 2 && 0 <= x && x < 8 && 0 <= y && y < 8 && self.cells[(y * 8 + x) as usize]
                    == Cell::Filled(player) {
                    assert(flanks(orig, cell as int, player, d as int));
                    assert(fc == k - 1);
                    let (dx, dy) = neighbor(d);
                    let mut t: i32 = 1;
                    let mut px: i32 = x0 + dx;
                    let mut py: i32 = y0 + dy;
                    while t < k
                        invariant
                            cell < 64,
                            d < 8,
                            1 <= t <= k,
                            k <= 8,
                            fc == k - 1,
                            fc == flip_count(orig, cell as int, player, d as int),
                            dx == dir_dx(d as int),
                            dy == dir_dy(d as int),
                            px == ray_x(cell as int, d as int, t as int),
                            py == ray_y(cell as int, d as int, t as int),
                            self.player == player,
                            forall|j: int|
                                0 <= j < 64 ==> self.cells@[j] == if flipped_by(
                                    orig,
                                    cell as int,
                                    player,
                                    d as int,
                                    j,
                                ) || exists|s: int|
                                    1 <= s < t && #[trigger] ray_index(cell as int, d as int, s) == j {
                                    Cell::Filled(player)
                                } else {
                                    orig[j]
                                },
                            swapped@ == flipped_list(orig, cell as int, player, d as int) + Seq::new(
                                (t - 1) as nat,
                                |s: int| ray_index(cell as int, d as int, s + 1) as usize,
                            ),
                            forall|i: int| 0 <= i < swapped.len() ==> swapped@[i] < 64,
                        decreases k - t,
                    {
                        proof {
                            lemma_run_square(orig, cell as int, player, d as int, t as int);
                        }
                        let n = (py * 8 + px) as usize;
                        assert(n == ray_index(cell as int, d as int, t as int));
                        let ghost before = self.cells@;
                        let ghost sw_before = swapped@;
                        self.cells[n] = Cell::Filled(player);
                        swapped.push(n);
                        proof {
                            assert forall|j: int| 0 <= j < 64 implies self.cells@[j] == if flipped_by(
                                orig,
                                cell as int,
                                player,
                                d as int,
                                j,
                            ) || exists|s: int|
                                1 <= s < t + 1 && #[trigger] ray_index(cell as int, d as int, s) == j {
                                Cell::Filled(player)
                            } else {
                                orig[j]
                            } by {
                                if j == n as int {
                                    assert(ray_index(cell as int, d as int, t as int) == j);
                                } else {
                                    if exists|s: int|
                                        1 <= s < t + 1 && #[trigger] ray_index(cell as int, d as int, s)
                                            == j {
                                        let s = choose|s: int|
                                            1 <= s < t + 1 && #[trigger] ray_index(
                                                cell as int,
                                                d as int,
                                                s,
                                            ) == j;
                                        assert(s != t);
                                    }
                                }
                            }
                            assert(swapped@ =~= flipped_list(orig, cell as int, player, d as int)
                                + Seq::new(
                                t as nat,
                                |s: int| ray_index(cell as int, d as int, s + 1) as usize,
                            ));
                        }
                        px = px + dx;
                        py = py + dy;
                        t = t + 1;
                    }
                    proof {
                        assert forall|j: int| 0 <= j < 64 implies self.cells@[j] == if flipped_by(
                            orig,
                            cell as int,
                            player,
                            d + 1,
                            j,
                        ) {
                            Cell::Filled(player)
                        } else {
                            orig[j]
                        } by {
                            lemma_flipped_by_step(orig, cell as int, player, d as int, j);
                            if exists|s: int|
                                1 <= s < t && #[trigger] ray_index(cell as int, d as int, s) == j {
                                let s = choose|s: int|
                                    1 <= s < t && #[trigger] ray_index(cell as int, d as int, s) == j;
                                assert(in_run(orig, cell as int, player, d as int, j));
                            }
                        }
                        assert(swapped@ =~= flipped_list(orig, cell as int, player, d + 1));
                    }
                } else {
                    assert(!flanks(orig, cell as int, player, d as int));
                    proof {
                        assert forall|j: int| 0 <= j < 64 implies self.cells@[j] == if flipped_by(
                            orig,
                            cell as int,
                            player,
                            d + 1,
                            j,
                        ) {
                            Cell::Filled(player)
                        } else {
                            orig[j]
                        } by {
                            lemma_flipped_by_step(orig, cell as int, player, d as int, j);
                        }
                        assert(run_indices(orig, cell as int, player, d as int) =~= Seq::empty());
                        assert(swapped@ =~= flipped_list(orig, cell as int, player, d + 1));
                    }
                }
                d = d + 1;
            }
            self.cells[cell] = Cell::Filled(player);
            self.player = opponent;
            assert(self.cells@ =~= placed_cells(orig, cell as int, player));
        }
        swapped
    }
    ///
    /// Allocate a board from cstr bytes: `'1'` is white, `'2'` black, any other
    /// byte empty.
    ///
    pub fn from_bytes(bytes: Vec<u8>, color: Color) -> (b: Board)
        requires
            bytes.len() >= 64,
        ensures
            b.player == color,
            b.cells@ == Seq::new(64, |i: int| byte_cell(bytes@[i])),
    {
        let mut cells = [Cell::Empty; 64];
        let mut i: usize = 0;
        while i < 64
            invariant
                i <= 64,
                bytes.len() >= 64,
                forall|j: int| 0 <= j < i ==> cells@[j] == byte_cell(#[trigger] bytes@[j]),
            decreases 64 - i,
        {
            cells[i] = match bytes[i] {
                49 => Cell::Filled(Color::White),
                50 => Cell::Filled(Color::Black),
                _ => Cell::Empty,
            };
            i = i + 1;
        }
        assert(cells@ =~= Seq::new(64, |i: int| byte_cell(bytes@[i])));
        Board { player: color, cells: cells }
    }

    ///
    /// The starting position board, with `Color` playing first.
    ///
    pub fn starter(color: Color) -> (b: Board)
        ensures
            b.player == color,
            b.cells@ == starter_cells(),
    {
        let mut cells = [Cell::Empty; 64];
        cells[27] = Cell::Filled(Color::White);
        cells[28] = Cell::Filled(Color::Black);
        cells[35] = Cell::Filled(Color::Black);
        cells[36] = Cell::Filled(Color::White);
        assert(cells@ =~= starter_cells());
        Board { player: color, cells: cells }
    }

    ///
    /// Return the counts of pawns, i.e. (player, opponent)
    ///
    pub fn count(&self) -> (r: (i32, i32))
        ensures
            r.0 == count_color(self.cells@, self.player),
            r.1 == count_color(self.cells@, other(self.player)),
    {
        self.count_for(&self.player)
    }

    /// The counts of pawns of `player` and of its opponent.
    pub fn count_for(&self, player: &Color) -> (r: (i32, i32))
        ensures
            r.0 == count_color(self.cells@, *player),
            r.1 == count_color(self.cells@, other(*player)),
    {
        let mut mine: i32 = 0;
        let mut theirs: i32 = 0;
        let mut i: usize = 0;
        while i < 64
            invariant
                i <= 64,
                0 <= mine <= i,
                0 <= theirs <= i,
                mine == count_color(self.cells@.take(i as int), *player),
                theirs == count_color(self.cells@.take(i as int), other(*player)),
            decreases 64 - i,
        {
            assert(self.cells@.take(i + 1).drop_last() =~= self.cells@.take(i as int));
            match self.cells[i] {
                Cell::Empty => {},
                Cell::Filled(who) => {
                    if who == *player {
                        mine = mine + 1;
                    } else {
                        theirs = theirs + 1;
                    }
                },
            }
            i = i + 1;
        }
        assert(self.cells@.take(64) =~= self.cells@);
        (mine, theirs)
    }

    /// Takes back a move of `player` on `cell` that turned over `swapped`:
    /// empties `cell` when below 63 and gives the opponent its pawns back.
    pub fn unplay(&mut self, player: Color, cell: usize, swapped: Vec<usize>)
        requires
            forall|i: int| 0 <= i < swapped.len() ==> swapped@[i] < 64,
        ensures
            final(self)@ == unplay_spec(old(self)@, player, cell as int, swapped@),
    {
        let ghost orig = self.cells@;
        // empty cell at move
        if cell < 63 {
            self.cells[cell] = Cell::Empty;
        }
        // re-flip pawns
        let opponent = opposite(player);
        let mut i: usize = 0;
        while i < swapped.len()
            invariant
                i <= swapped.len(),
                opponent == other(player),
                forall|t: int| 0 <= t < swapped.len() ==> swapped@[t] < 64,
                forall|j: int|
                    0 <= j < 64 ==> self.cells@[j] == if exists|t: int|
                        0 <= t < i && #[trigger] swapped@[t] == j as usize {
                        Cell::Filled(opponent)
                    } else if j == cell && cell < 63 {
                        Cell::Empty
                    } else {
                        orig[j]
                    },
            decreases swapped.len() - i,
        {
            let n = swapped[i];
            self.cells[n] = Cell::Filled(opponent);
            proof {
                assert forall|j: int| 0 <= j < 64 implies self.cells@[j] == if exists|t: int|
                    0 <= t < i + 1 && #[trigger] swapped@[t] == j as usize {
                    Cell::Filled(opponent)
                } else if j == cell && cell < 63 {
                    Cell::Empty
                } else {
                    orig[j]
                } by {
                    if j == n as int {
                        assert(swapped@[i as int] == j as usize);
                    } else if exists|t: int| 0 <= t < i + 1 && #[trigger] swapped@[t] == j as usize {
                        let t = choose|t: int| 0 <= t < i + 1 && #[trigger] swapped@[t] == j as usize;
                        assert(t != i);
                    }
                }
            }
            i = i + 1;
        }
        self.player = player;
        proof {
            let target = unplay_spec(old(self)@, player, cell as int, swapped@);
            assert forall|j: int| 0 <= j < 64 implies self.cells@[j] == target.cells[j] by {
                if swapped@.contains(j as usize) {
                    let t = choose|t: int| 0 <= t < swapped.len() && swapped@[t] == j as usize;
                    assert(swapped@[t] == j as usize);
                }
            }
            assert(self.cells@ =~= target.cells);
        }
    }

    /// Position score of the board for `player`: corners weigh 10, squares next
    /// to a corner -1, the others 1; the opponent's pawns count negatively.
    pub fn note_for(&self, player: Color) -> (r: i32)
        ensures
            r == note_spec(self.cells@, player),
    {
        let mut mine: i32 = 0;
        let mut theirs: i32 = 0;
        let mut i: usize = 0;
        while i < 64
            invariant
                i <= 64,
                -(i as int) <= mine <= 10 * i,
                -(i as int) <= theirs <= 10 * i,
                mine == weighted_count(self.cells@, player, i as int),
                theirs == weighted_count(self.cells@, other(player), i as int),
            decreases 64 - i,
        {
            match self.cells[i] {
                Cell::Filled(c) => {
                    let iscorner = (i == 0) || (i == 7) || (i == 56) || (i == 63);
                    let c_square = (i == 1) || (i == 8) || (i == 9) || (i == 6) || (i == 14) || (i
                        == 15) || (i == 48) || (i == 49) || (i == 57) || (i == 54) || (i == 55) || (i
                        == 62);
                    let diff = if iscorner {
                        CORNER
                    } else if c_square {
                        CXSQUARE
                    } else {
                        1
                    };
                    assert(diff == square_weight(i as int));
                    if player == c {
                        mine = mine + diff;
                    } else {
                        theirs = theirs + diff;
                    }
                },
                _ => {},
            }
            i = i + 1;
        }
        mine - theirs
    }
    /// Minimax value of the position for `player`, searched `depth` moves deep,
    /// the first level maximizing.
    pub fn minimax(&self, player: &Color, depth: i32) -> (r: i32)
        ensures
            r == minimax_spec(self@, *player, depth as int, true).0,
    {
        let mut copy: Board = *self;
        copy.mut_minimax(player, depth, true)
    }

    /// Minimax search on the board itself: each move is played, searched and
    /// taken back in turn; returns the value, and leaves the board as
    /// `minimax_spec` says.
    fn mut_minimax(&mut self, player: &Color, depth: i32, maximizing: bool) -> (r: i32)
        ensures
            r == minimax_spec(old(self)@, *player, depth as int, maximizing).0,
            final(self)@ == minimax_spec(old(self)@, *player, depth as int, maximizing).1,
        decreases depth,
    {
        if depth <= 0 {
            self.note_for(*player)
        } else {
            let moves = self.moves();
            if moves.is_empty() {
                self.note_for(*player)
            } else {
                let mut res: i32 = if maximizing {
                    -NOTEMAX
                } else {
                    NOTEMAX
                };
                let playing = self.player;
                let ghost b0 = self@;
                let mut i: usize = 0;
                while i < moves.len()
                    invariant
                        depth > 0,
                        i <= moves.len(),
                        playing == b0.player,
                        moves@ == moves_spec(b0.cells, b0.player, false),
                        minimax_loop(
                            self@,
                            *player,
                            depth as int,
                            maximizing,
                            moves@,
                            i as int,
                            playing,
                            res as int,
                        ) == minimax_spec(b0, *player, depth as int, maximizing),
                    decreases moves.len() - i,
                {
                    let c2 = moves[i];
                    let swapped = self.play_move(c2);
                    let minimax2 = self.mut_minimax(player, depth - 1, !maximizing);
                    if maximizing {
                        if minimax2 > res {
                            res = minimax2;
                        }
                    } else {
                        if minimax2 < res {
                            res = minimax2;
                        }
                    }
                    self.unplay(playing, c2, swapped);
                    i = i + 1;
                }
                res
            }
        }
    }
    /// The board as text: the player to move, then one bracketed line per row.
    pub fn to_string(&self) -> (s: String)
        ensures
            s@ == board_text(self@),
    {
        let mut s = String::from_str("[");
        let name = self.player.to_string();
        s.append(name.as_str());
        let mut r: usize = 0;
        while r < 8
            invariant
                r <= 8,
                s@ == "["@ + color_text(self.player) + rows_text(self.cells@, r as int),
            decreases 8 - r,
        {
            let ghost before = s@;
            s.append("\n [");
            let mut c: usize = 0;
            while c < 8
                invariant
                    r < 8,
                    c <= 8,
                    s@ == before + "\n ["@ + row_text(self.cells@, r as int, c as int),
                decreases 8 - c,
            {
                let t = self.cells[r * 8 + c].to_string();
                s.append(t.as_str());
                assert(s@ =~= before + "\n ["@ + row_text(self.cells@, r as int, c + 1));
                c = c + 1;
            }
            s.append("]");
            assert(s@ =~= "["@ + color_text(self.player) + rows_text(self.cells@, r + 1));
            r = r + 1;
        }
        s.append("]");
        s
    }
    /// The cells in the text form that `from_bytes` reads: `'0'` empty, `'1'`
    /// white, `'2'` black.
    pub fn to_bytes(&self) -> (bytes: Vec<u8>)
        ensures
            bytes@ == Seq::new(64, |i: int| cell_byte(self.cells@[i])),
    {
        let mut bytes: Vec<u8> = Vec::with_capacity(64);
        let mut i: usize = 0;
        while i < 64
            invariant
                i <= 64,
                bytes@ == Seq::new(i as nat, |j: int| cell_byte(self.cells@[j])),
            decreases 64 - i,
        {
            let b: u8 = match self.cells[i] {
                Cell::Empty => 48,
                Cell::Filled(Color::White) => 49,
                Cell::Filled(Color::Black) => 50,
            };
            bytes.push(b);
            assert(bytes@ =~= Seq::new((i + 1) as nat, |j: int| cell_byte(self.cells@[j])));
            i = i + 1;
        }
        bytes
    }
}

} // verus!
