use vstd::prelude::*;
use crate::game::{Cell, Color, PASS};
use crate::laws::{law_moves_are_the_legal_squares, lemma_count_update};
use crate::geometry::{
    lemma_cell_coords, lemma_flipped_list_contains, lemma_run_end_ge, lemma_run_prefix,
    lemma_run_square,
};
use crate::model::{
    board_text, byte_cell, cell_byte, cell_text, count_color, color_text, dir_dx, dir_dy, flanks, flip_count, flipped_by,
    flipped_list, in_run, is_legal, legal_moves_below, moves_spec, note_spec, on_ray, other,
    play_spec, unplay_spec, ray_index, ray_x, ray_y, row_text, rows_text, run_end, run_indices,
    weighted_count, BoardView,
};

verus! {

// The rules of the game, stated directly in board coordinates, and proved of
// the operations.

/// The other color.
pub open spec fn rival(c: Color) -> Color {
    match c {
        Color::Black => Color::White,
        Color::White => Color::Black,
    }
}

/// `(dx, dy)` is one of the eight steps to a neighboring square.
pub open spec fn unit_step(dx: int, dy: int) -> bool {
    -1 <= dx <= 1 && -1 <= dy <= 1 && !(dx == 0 && dy == 0)
}

/// The square `s` steps away from `cell` along `(dx, dy)` is on the board.
pub open spec fn along_on_board(cell: int, dx: int, dy: int, s: int) -> bool {
    0 <= cell % 8 + s * dx < 8 && 0 <= cell / 8 + s * dy < 8
}

/// Number of the square `s` steps away from `cell` along `(dx, dy)`.
pub open spec fn along(cell: int, dx: int, dy: int, s: int) -> int {
    (cell / 8 + s * dy) * 8 + cell % 8 + s * dx
}

/// Along `(dx, dy)` from `cell`, the squares at distances `1 .. k - 1` (at
/// least one) hold pawns of `p`'s rival, and the square at distance `k` holds
/// a pawn of `p`: a pawn of `p` on `cell` would enclose them.
pub open spec fn encloses(cells: Seq<Cell>, cell: int, p: Color, dx: int, dy: int, k: int) -> bool {
    &&& unit_step(dx, dy)
    &&& 2 <= k
    &&& along_on_board(cell, dx, dy, k)
    &&& cells[along(cell, dx, dy, k)] == Cell::Filled(p)
    &&& forall|s: int|
        1 <= s < k ==> along_on_board(cell, dx, dy, s) && cells[#[trigger] along(cell, dx, dy, s)]
            == Cell::Filled(rival(p))
}

/// Square `j` lies inside a run that a pawn of `p` on `cell` would enclose.
pub open spec fn enclosed(cells: Seq<Cell>, cell: int, p: Color, j: int) -> bool {
    exists|dx: int, dy: int, k: int, s: int|
        #![trigger encloses(cells, cell, p, dx, dy, k), along(cell, dx, dy, s)]
        encloses(cells, cell, p, dx, dy, k) && 1 <= s < k && along(cell, dx, dy, s) == j
}

/// `p` may play `cell`: it is empty and encloses a run in some direction.
pub open spec fn can_play(cells: Seq<Cell>, p: Color, cell: int) -> bool {
    &&& cells[cell] == Cell::Empty
    &&& exists|dx: int, dy: int, k: int| #[trigger] encloses(cells, cell, p, dx, dy, k)
}

/// The direction number of a unit step.
spec fn dir_of(dx: int, dy: int) -> int {
    if dx == -1 {
        dy + 1
    } else if dx == 0 {
        if dy == -1 {
            3
        } else {
            4
        }
    } else {
        dy + 6
    }
}

proof fn lemma_dir_of(dx: int, dy: int)
    requires
        unit_step(dx, dy),
    ensures
        0 <= dir_of(dx, dy) < 8,
        dir_dx(dir_of(dx, dy)) == dx,
        dir_dy(dir_of(dx, dy)) == dy,
{
}

/// The ray of direction `d` is the line along its unit step.
proof fn lemma_ray_is_along(cell: int, d: int, s: int)
    requires
        0 <= d < 8,
    ensures
        unit_step(dir_dx(d), dir_dy(d)),
        ray_x(cell, d, s) == cell % 8 + s * dir_dx(d),
        ray_y(cell, d, s) == cell / 8 + s * dir_dy(d),
        on_ray(cell, d, s) == along_on_board(cell, dir_dx(d), dir_dy(d), s),
        ray_index(cell, d, s) == along(cell, dir_dx(d), dir_dy(d), s),
{
    assert(s * -1 == -s) by (nonlinear_arith);
    assert(s * 0 == 0) by (nonlinear_arith);
    assert(s * 1 == s) by (nonlinear_arith);
}

proof fn lemma_on_ray_bound(cell: int, d: int, k: int)
    requires
        0 <= cell < 64,
        0 <= d < 8,
        0 <= k,
        on_ray(cell, d, k),
    ensures
        k < 8,
{
    lemma_cell_coords(cell);
}

/// A run of pawns of `opp` from distance `m` to just before `k` carries the
/// run's end from `m` to `k`.
proof fn lemma_run_end_skip(cells: Seq<Cell>, cell: int, d: int, opp: Color, m: int, k: int)
    requires
        0 <= cell < 64,
        0 <= d < 8,
        0 <= m <= k,
        forall|s: int|
            m <= s < k ==> on_ray(cell, d, s) && cells[#[trigger] ray_index(cell, d, s)]
                == Cell::Filled(opp),
    ensures
        run_end(cells, cell, d, opp, m) == run_end(cells, cell, d, opp, k),
    decreases k - m,
{
    if m < k {
        assert(on_ray(cell, d, m) && cells[ray_index(cell, d, m)] == Cell::Filled(opp));
        lemma_on_ray_bound(cell, d, m);
        lemma_run_end_skip(cells, cell, d, opp, m + 1, k);
    }
}

/// A flanking direction is an enclosure along its unit step, whose far end
/// is the run's end; and conversely.
proof fn lemma_flanks_is_enclosure(cells: Seq<Cell>, cell: int, p: Color, d: int, k: int)
    requires
        0 <= cell < 64,
        0 <= d < 8,
    ensures
        flanks(cells, cell, p, d) ==> encloses(
            cells,
            cell,
            p,
            dir_dx(d),
            dir_dy(d),
            run_end(cells, cell, d, other(p), 1),
        ),
        encloses(cells, cell, p, dir_dx(d), dir_dy(d), k) ==> flanks(cells, cell, p, d) && run_end(
            cells,
            cell,
            d,
            other(p),
            1,
        ) == k,
{
    let dx = dir_dx(d);
    let dy = dir_dy(d);
    let opp = other(p);
    assert(rival(p) == opp);
    lemma_ray_is_along(cell, d, 0);
    if flanks(cells, cell, p, d) {
        let e = run_end(cells, cell, d, opp, 1);
        lemma_ray_is_along(cell, d, e);
        assert forall|s: int| 1 <= s < e implies along_on_board(cell, dx, dy, s) && cells[#[trigger] along(
            cell,
            dx,
            dy,
            s,
        )] == Cell::Filled(rival(p)) by {
            lemma_run_prefix(cells, cell, d, opp, 1, s);
            lemma_ray_is_along(cell, d, s);
        }
    }
    if encloses(cells, cell, p, dx, dy, k) {
        assert forall|s: int| 1 <= s < k implies on_ray(cell, d, s) && cells[#[trigger] ray_index(
            cell,
            d,
            s,
        )] == Cell::Filled(opp) by {
            lemma_ray_is_along(cell, d, s);
            assert(cells[along(cell, dx, dy, s)] == Cell::Filled(rival(p)));
        }
        lemma_run_end_skip(cells, cell, d, opp, 1, k);
        lemma_ray_is_along(cell, d, k);
        assert(cells[ray_index(cell, d, k)] == Cell::Filled(p));
        assert(run_end(cells, cell, d, opp, k) == k);
    }
}

/// Turned over by the model's runs is enclosed along some direction.
proof fn lemma_flipped_is_enclosed(cells: Seq<Cell>, cell: int, p: Color, j: int)
    requires
        0 <= cell < 64,
    ensures
        flipped_by(cells, cell, p, 8, j) == enclosed(cells, cell, p, j),
{
    if flipped_by(cells, cell, p, 8, j) {
        let d = choose|d: int| 0 <= d < 8 && #[trigger] in_run(cells, cell, p, d, j);
        let s = choose|s: int| 1 <= s <= flip_count(cells, cell, p, d) && #[trigger] ray_index(cell, d, s) == j;
        let e = run_end(cells, cell, d, other(p), 1);
        lemma_flanks_is_enclosure(cells, cell, p, d, e);
        lemma_ray_is_along(cell, d, s);
        assert(encloses(cells, cell, p, dir_dx(d), dir_dy(d), e));
        assert(along(cell, dir_dx(d), dir_dy(d), s) == j);
    }
    if enclosed(cells, cell, p, j) {
        let (dx, dy, k, s) = choose|dx: int, dy: int, k: int, s: int|
            #![trigger encloses(cells, cell, p, dx, dy, k), along(cell, dx, dy, s)]
            encloses(cells, cell, p, dx, dy, k) && 1 <= s < k && along(cell, dx, dy, s) == j;
        lemma_dir_of(dx, dy);
        let d = dir_of(dx, dy);
        lemma_flanks_is_enclosure(cells, cell, p, d, k);
        lemma_ray_is_along(cell, d, s);
        assert(ray_index(cell, d, s) == j);
        assert(in_run(cells, cell, p, d, j));
    }
}

/// A square is legal in the model exactly when it can be played by the rules.
proof fn lemma_legal_is_can_play(cells: Seq<Cell>, p: Color, cell: int)
    requires
        0 <= cell < 64,
    ensures
        is_legal(cells, p, cell) == can_play(cells, p, cell),
{
    if is_legal(cells, p, cell) {
        let d = choose|d: int| 0 <= d < 8 && #[trigger] flanks(cells, cell, p, d);
        let e = run_end(cells, cell, d, other(p), 1);
        lemma_flanks_is_enclosure(cells, cell, p, d, e);
        assert(encloses(cells, cell, p, dir_dx(d), dir_dy(d), e));
    }
    if can_play(cells, p, cell) {
        let (dx, dy, k) = choose|dx: int, dy: int, k: int| #[trigger] encloses(cells, cell, p, dx, dy, k);
        lemma_dir_of(dx, dy);
        let d = dir_of(dx, dy);
        lemma_flanks_is_enclosure(cells, cell, p, d, k);
        assert(flanks(cells, cell, p, d));
    }
}

/// Playing an empty square: the square gets the mover's pawn, every square
/// enclosed along any of the eight directions gets the mover's pawn and is
/// listed as turned over, every other square is unchanged and not listed,
/// and the rival is to move.
pub proof fn law_play_turns_every_enclosed_square(b: BoardView, cell: int)
    requires
        b.cells.len() == 64,
        0 <= cell < 64,
        b.cells[cell] == Cell::Empty,
    ensures
        ({
            let after = play_spec(b, cell).0;
            let turned = play_spec(b, cell).1;
            &&& after.player == rival(b.player)
            &&& after.cells.len() == 64
            &&& after.cells[cell] == Cell::Filled(b.player)
            &&& forall|j: int|
                0 <= j < 64 && j != cell ==> after.cells[j] == if enclosed(b.cells, cell, b.player, j) {
                    Cell::Filled(b.player)
                } else {
                    b.cells[j]
                }
            &&& forall|j: int|
                0 <= j < 64 ==> (turned.contains(j as usize) <==> enclosed(b.cells, cell, b.player, j))
        }),
{
    let p = b.player;
    assert forall|j: int| 0 <= j < 64 implies (play_spec(b, cell).1.contains(j as usize) <==> enclosed(
        b.cells,
        cell,
        p,
        j,
    )) && (j != cell ==> play_spec(b, cell).0.cells[j] == if enclosed(b.cells, cell, p, j) {
        Cell::Filled(p)
    } else {
        b.cells[j]
    }) by {
        lemma_flipped_list_contains(b.cells, cell, p, 8, j);
        lemma_flipped_is_enclosed(b.cells, cell, p, j);
    }
}

/// The move list holds exactly the squares that the player can play by the
/// rules, in increasing order; where there is none, it is the single pass
/// move when the player has not just passed and the rival can play a square,
/// and empty otherwise.
pub proof fn law_moves_follow_the_rules(cells: Seq<Cell>, p: Color, previous_passed: bool)
    requires
        cells.len() == 64,
    ensures
        ({
            let m = moves_spec(cells, p, previous_passed);
            &&& (exists|j: int| 0 <= j < 64 && can_play(cells, p, j)) ==> {
                &&& forall|j: int| 0 <= j < 64 ==> (m.contains(j as usize) <==> can_play(cells, p, j))
                &&& forall|i: int, k: int| 0 <= i < k < m.len() ==> m[i] < m[k]
                &&& forall|i: int| 0 <= i < m.len() ==> m[i] < 64
            }
            &&& (!exists|j: int| 0 <= j < 64 && can_play(cells, p, j)) ==> m == if !previous_passed
                && exists|j: int| 0 <= j < 64 && can_play(cells, rival(p), j) {
                seq![PASS]
            } else {
                Seq::<usize>::empty()
            }
        }),
{
    law_moves_are_the_legal_squares(cells, p, previous_passed);
    assert(rival(p) == other(p));
    assert forall|j: int| 0 <= j < 64 implies #[trigger] is_legal(cells, p, j) == can_play(
        cells,
        p,
        j,
    ) by {
        lemma_legal_is_can_play(cells, p, j);
    }
    assert forall|j: int| 0 <= j < 64 implies #[trigger] is_legal(cells, other(p), j) == can_play(
        cells,
        other(p),
        j,
    ) by {
        lemma_legal_is_can_play(cells, other(p), j);
    }
    if exists|j: int| 0 <= j < 64 && can_play(cells, p, j) {
        let j = choose|j: int| 0 <= j < 64 && can_play(cells, p, j);
        assert(is_legal(cells, p, j));
        let m = moves_spec(cells, p, previous_passed);
        assert(m == legal_moves_below(cells, p, 64));
        assert forall|i: int| 0 <= i < 64 implies (m.contains(i as usize) <==> can_play(cells, p, i)) by {
            lemma_legal_is_can_play(cells, p, i);
        }
    } else {
        assert(!exists|j: int| 0 <= j < 64 && is_legal(cells, p, j));
        if exists|j: int| 0 <= j < 64 && can_play(cells, other(p), j) {
            let j = choose|j: int| 0 <= j < 64 && can_play(cells, other(p), j);
            assert(is_legal(cells, other(p), j));
        } else {
            assert(!exists|j: int| 0 <= j < 64 && is_legal(cells, other(p), j));
        }
    }
}

/// Weight of square `i` in the position score: 10 on the four corners 0, 7,
/// 56 and 63; -1 on the twelve squares next to a corner; 1 elsewhere.
pub open spec fn corner_weight(i: int) -> int {
    if i == 0 || i == 7 || i == 56 || i == 63 {
        10
    } else if i == 1 || i == 6 || i == 8 || i == 9 || i == 14 || i == 15 || i == 48 || i == 49
        || i == 54 || i == 55 || i == 57 || i == 62 {
        -1
    } else {
        1
    }
}

proof fn lemma_weighted_count_update(cells: Seq<Cell>, i: int, p: Color, c: Color, n: int)
    requires
        cells.len() == 64,
        0 <= i < 64,
        cells[i] == Cell::Empty,
        0 <= n <= 64,
    ensures
        weighted_count(cells.update(i, Cell::Filled(p)), c, n) == weighted_count(cells, c, n) + if i
            < n && c == p {
            corner_weight(i)
        } else {
            0
        },
    decreases n,
{
    if n > 0 {
        lemma_weighted_count_update(cells, i, p, c, n - 1);
    }
}

/// Putting a pawn of `p` on an empty square raises `p`'s score by the
/// square's weight and lowers the rival's score by as much.
pub proof fn law_note_square_weights(cells: Seq<Cell>, p: Color, i: int)
    requires
        cells.len() == 64,
        0 <= i < 64,
        cells[i] == Cell::Empty,
    ensures
        note_spec(cells.update(i, Cell::Filled(p)), p) == note_spec(cells, p) + corner_weight(i),
        note_spec(cells.update(i, Cell::Filled(p)), rival(p)) == note_spec(cells, rival(p))
            - corner_weight(i),
{
    assert(rival(p) == other(p));
    assert(other(rival(p)) == p);
    lemma_weighted_count_update(cells, i, p, p, 64);
    lemma_weighted_count_update(cells, i, p, rival(p), 64);
}

proof fn lemma_weighted_count_empty(c: Color, n: int)
    requires
        0 <= n <= 64,
    ensures
        weighted_count(Seq::new(64, |i: int| Cell::Empty), c, n) == 0,
    decreases n,
{
    if n > 0 {
        lemma_weighted_count_empty(c, n - 1);
    }
}

/// The empty board scores 0.
pub proof fn law_note_empty_board(p: Color)
    ensures
        note_spec(Seq::new(64, |i: int| Cell::Empty), p) == 0,
{
    lemma_weighted_count_empty(p, 64);
    lemma_weighted_count_empty(other(p), 64);
}

/// The character shown for a cell: a space, a white disc or a black disc.
pub open spec fn cell_char(c: Cell) -> char {
    match c {
        Cell::Empty => ' ',
        Cell::Filled(Color::White) => '○',
        Cell::Filled(Color::Black) => '●',
    }
}

/// The square at row `r`, column `c`.
pub open spec fn square(r: int, c: int) -> int {
    r * 8 + c
}

/// Position in the board text of the character of row `r`, column `c`: after
/// `[`, the five letters of the color, and `r` lines of twelve characters
/// (`\n [`, eight cells, `]`), then `\n [` and `c` cells.
pub open spec fn text_pos(r: int, c: int) -> int {
    9 + 12 * r + c
}

proof fn lemma_cell_text(c: Cell)
    ensures
        cell_text(c).len() == 1,
        cell_text(c)[0] == cell_char(c),
{
    reveal_strlit(" ");
    reveal_strlit("○");
    reveal_strlit("●");
}

proof fn lemma_row_text(cells: Seq<Cell>, r: int, n: int)
    requires
        0 <= n <= 8,
    ensures
        row_text(cells, r, n).len() == n,
        forall|c: int| 0 <= c < n ==> #[trigger] row_text(cells, r, n)[c] == cell_char(cells[square(r, c)]),
    decreases n,
{
    if n > 0 {
        lemma_row_text(cells, r, n - 1);
        lemma_cell_text(cells[r * 8 + n - 1]);
        let prev = row_text(cells, r, n - 1);
        let cur = row_text(cells, r, n);
        assert forall|c: int| 0 <= c < n implies #[trigger] cur[c] == cell_char(cells[square(r, c)]) by {
            if c < n - 1 {
                assert(cur[c] == prev[c]);
            }
        }
    }
}

proof fn lemma_rows_text(cells: Seq<Cell>, n: int)
    requires
        0 <= n <= 8,
    ensures
        rows_text(cells, n).len() == 12 * n,
        forall|r: int, c: int|
            0 <= r < n && 0 <= c < 8 ==> #[trigger] rows_text(cells, n)[text_pos(r, c) - 6]
                == cell_char(cells[square(r, c)]),
        forall|r: int|
            0 <= r < n ==> {
                &&& #[trigger] rows_text(cells, n)[12 * r] == '\n'
                &&& rows_text(cells, n)[12 * r + 1] == ' '
                &&& rows_text(cells, n)[12 * r + 2] == '['
                &&& rows_text(cells, n)[12 * r + 11] == ']'
            },
    decreases n,
{
    reveal_strlit("\n [");
    reveal_strlit("]");
    if n > 0 {
        lemma_rows_text(cells, n - 1);
        lemma_row_text(cells, n - 1, 8);
        let prev = rows_text(cells, n - 1);
        let row = row_text(cells, n - 1, 8);
        let cur = rows_text(cells, n);
        assert(cur == prev + "\n ["@ + row + "]"@);
        assert forall|r: int, c: int| 0 <= r < n && 0 <= c < 8 implies #[trigger] cur[text_pos(r, c) - 6]
            == cell_char(cells[square(r, c)]) by {
            if r < n - 1 {
                assert(cur[text_pos(r, c) - 6] == prev[text_pos(r, c) - 6]);
            } else {
                assert(cur[text_pos(r, c) - 6] == row[c]);
            }
        }
        assert forall|r: int| 0 <= r < n implies {
            &&& #[trigger] cur[12 * r] == '\n'
            &&& cur[12 * r + 1] == ' '
            &&& cur[12 * r + 2] == '['
            &&& cur[12 * r + 11] == ']'
        } by {
            if r < n - 1 {
                assert(cur[12 * r] == prev[12 * r]);
                assert(cur[12 * r + 1] == prev[12 * r + 1]);
                assert(cur[12 * r + 2] == prev[12 * r + 2]);
                assert(cur[12 * r + 11] == prev[12 * r + 11]);
            }
        }
    }
}

/// The board text is 103 characters: `[`, the name of the color to move,
/// then for each row `r` a line `\n [` followed by the characters of the
/// cells of row `r` from column 0 to 7 and `]`, and a final `]`.
pub proof fn law_board_text_layout(b: BoardView)
    ensures
        ({
            let t = board_text(b);
            &&& t.len() == 103
            &&& t[0] == '['
            &&& t.subrange(1, 6) == if b.player == Color::Black {
                seq!['B', 'l', 'a', 'c', 'k']
            } else {
                seq!['W', 'h', 'i', 't', 'e']
            }
            &&& forall|r: int, c: int|
                0 <= r < 8 && 0 <= c < 8 ==> #[trigger] t[text_pos(r, c)] == cell_char(
                    b.cells[square(r, c)],
                )
            &&& forall|r: int|
                0 <= r < 8 ==> {
                    &&& #[trigger] t[6 + 12 * r] == '\n'
                    &&& t[7 + 12 * r] == ' '
                    &&& t[8 + 12 * r] == '['
                    &&& t[17 + 12 * r] == ']'
                }
            &&& t[102] == ']'
        }),
{
    reveal_strlit("[");
    reveal_strlit("]");
    reveal_strlit("Black");
    reveal_strlit("White");
    lemma_rows_text(b.cells, 8);
    let name = color_text(b.player);
    let rows = rows_text(b.cells, 8);
    let t = board_text(b);
    assert(name.len() == 5);
    assert(t == "["@ + name + rows + "]"@);
    assert(t.subrange(1, 6) =~= name);
    assert forall|r: int, c: int| 0 <= r < 8 && 0 <= c < 8 implies #[trigger] t[text_pos(r, c)]
        == cell_char(b.cells[square(r, c)]) by {
        assert(t[text_pos(r, c)] == rows[text_pos(r, c) - 6]);
    }
    assert forall|r: int| 0 <= r < 8 implies {
        &&& #[trigger] t[6 + 12 * r] == '\n'
        &&& t[7 + 12 * r] == ' '
        &&& t[8 + 12 * r] == '['
        &&& t[17 + 12 * r] == ']'
    } by {
        assert(t[6 + 12 * r] == rows[12 * r]);
        assert(t[7 + 12 * r] == rows[12 * r + 1]);
        assert(t[8 + 12 * r] == rows[12 * r + 2]);
        assert(t[17 + 12 * r] == rows[12 * r + 11]);
    }
}

/// Sign of `v`.
pub open spec fn sign(v: int) -> int {
    if v < 0 {
        -1
    } else if v > 0 {
        1
    } else {
        0
    }
}

pub open spec fn abs(v: int) -> int {
    if v < 0 {
        -v
    } else {
        v
    }
}

/// Where square `j` comes in the order in which a move on `cell` turns pawns
/// over: by direction from `cell`, in the order (-1,-1), (-1,0), (-1,1),
/// (0,-1), (0,1), (1,-1), (1,0), (1,1) of column and row steps, then by
/// distance from `cell`.
pub open spec fn turn_order(cell: int, j: int) -> int {
    let dx = j % 8 - cell % 8;
    let dy = j / 8 - cell / 8;
    ((sign(dx) + 1) * 3 + sign(dy) + 1) * 8 + if abs(dx) >= abs(dy) {
        abs(dx)
    } else {
        abs(dy)
    }
}

/// Rank of direction `d` in the turning order (with 9 past the last).
spec fn rank_of(d: int) -> int {
    if d <= 3 {
        d
    } else {
        d + 1
    }
}

proof fn lemma_square_coords(x: int, y: int)
    requires
        0 <= x < 8,
        0 <= y < 8,
    ensures
        (y * 8 + x) % 8 == x,
        (y * 8 + x) / 8 == y,
{
    vstd::arithmetic::div_mod::lemma_fundamental_div_mod_converse(y * 8 + x, 8, y, x);
}

proof fn lemma_turn_order_on_ray(cell: int, d: int, s: int)
    requires
        0 <= cell < 64,
        0 <= d < 8,
        1 <= s,
        on_ray(cell, d, s),
    ensures
        turn_order(cell, ray_index(cell, d, s)) == rank_of(d) * 8 + s,
        s < 8,
{
    lemma_cell_coords(cell);
    lemma_on_ray_bound(cell, d, s);
    lemma_square_coords(ray_x(cell, d, s), ray_y(cell, d, s));
}

proof fn lemma_flipped_list_sorted(cells: Seq<Cell>, cell: int, p: Color, n: int)
    requires
        0 <= cell < 64,
        0 <= n <= 8,
    ensures
        forall|i: int, k: int|
            0 <= i < k < flipped_list(cells, cell, p, n).len() ==> turn_order(
                cell,
                flipped_list(cells, cell, p, n)[i] as int,
            ) < turn_order(cell, flipped_list(cells, cell, p, n)[k] as int),
        forall|i: int|
            0 <= i < flipped_list(cells, cell, p, n).len() ==> turn_order(
                cell,
                #[trigger] flipped_list(cells, cell, p, n)[i] as int,
            ) < rank_of(n) * 8,
    decreases n,
{
    if n > 0 {
        let d = n - 1;
        lemma_flipped_list_sorted(cells, cell, p, d);
        let first = flipped_list(cells, cell, p, d);
        let run = run_indices(cells, cell, p, d);
        let all = flipped_list(cells, cell, p, n);
        assert(all == first + run);
        assert forall|t: int| 0 <= t < run.len() implies turn_order(cell, #[trigger] run[t] as int)
            == rank_of(d) * 8 + t + 1 && t + 1 < 8 by {
            lemma_run_square(cells, cell, p, d, t + 1);
            lemma_turn_order_on_ray(cell, d, t + 1);
        }
        assert forall|i: int, k: int| 0 <= i < k < all.len() implies turn_order(cell, all[i] as int)
            < turn_order(cell, all[k] as int) by {
            if k < first.len() {
                assert(all[i] == first[i] && all[k] == first[k]);
            } else if i < first.len() {
                assert(all[i] == first[i]);
                assert(all[k] == run[k - first.len()]);
            } else {
                assert(all[i] == run[i - first.len()]);
                assert(all[k] == run[k - first.len()]);
            }
        }
        assert forall|i: int| 0 <= i < all.len() implies turn_order(cell, #[trigger] all[i] as int)
            < rank_of(n) * 8 by {
            if i < first.len() {
                assert(all[i] == first[i]);
            } else {
                assert(all[i] == run[i - first.len()]);
            }
        }
    }
}

/// The squares that a move turns over are listed in the turning order:
/// direction by direction, nearest first; so none is listed twice.
pub proof fn law_turned_squares_in_order(b: BoardView, cell: int)
    requires
        0 <= cell < 64,
    ensures
        ({
            let turned = play_spec(b, cell).1;
            forall|i: int, k: int|
                0 <= i < k < turned.len() ==> turn_order(cell, turned[i] as int) < turn_order(
                    cell,
                    turned[k] as int,
                )
        }),
{
    lemma_flipped_list_sorted(b.cells, cell, b.player, 8);
}

proof fn lemma_count_empty(c: Color, n: nat)
    ensures
        count_color(Seq::new(n, |i: int| Cell::Empty), c) == 0,
    decreases n,
{
    if n > 0 {
        lemma_count_empty(c, (n - 1) as nat);
        assert(Seq::new(n, |i: int| Cell::Empty).drop_last() =~= Seq::new(
            (n - 1) as nat,
            |i: int| Cell::Empty,
        ));
    }
}

/// Counting pawns: the empty board has none of either color, and putting a
/// pawn of `p` on an empty square adds one to `p`'s count and leaves the
/// rival's count as it was.
pub proof fn law_count_pawns(cells: Seq<Cell>, p: Color, i: int)
    requires
        cells.len() == 64,
        0 <= i < 64,
        cells[i] == Cell::Empty,
    ensures
        count_color(Seq::new(64, |j: int| Cell::Empty), p) == 0,
        count_color(cells.update(i, Cell::Filled(p)), p) == count_color(cells, p) + 1,
        count_color(cells.update(i, Cell::Filled(p)), rival(p)) == count_color(cells, rival(p)),
{
    lemma_count_empty(p, 64);
    lemma_count_update(cells, i, Cell::Filled(p), p);
    lemma_count_update(cells, i, Cell::Filled(p), rival(p));
}

/// The text form of a cell: the byte `'1'` stands for a white pawn, `'2'`
/// for a black pawn, and any other byte for an empty cell; an empty cell is
/// written `'0'`, a white pawn `'1'` and a black pawn `'2'`.
pub proof fn law_cell_bytes(b: u8, c: Cell)
    ensures
        (byte_cell(b) == Cell::Filled(Color::White)) == (b == 49),
        (byte_cell(b) == Cell::Filled(Color::Black)) == (b == 50),
        (byte_cell(b) == Cell::Empty) == (b != 49 && b != 50),
        cell_byte(c) == match c {
            Cell::Empty => 48u8,
            Cell::Filled(Color::White) => 49u8,
            Cell::Filled(Color::Black) => 50u8,
        },
{
}

/// Playing a number above 63 passes: the board stays, the rival is to move
/// and nothing is turned over. Playing an occupied square changes nothing.
pub proof fn law_play_pass_or_occupied(b: BoardView, cell: int)
    requires
        cell > 63 || (0 <= cell < 64 && b.cells[cell] != Cell::Empty),
    ensures
        play_spec(b, cell).1.len() == 0,
        play_spec(b, cell).0.cells == b.cells,
        play_spec(b, cell).0.player == if cell > 63 {
            rival(b.player)
        } else {
            b.player
        },
{
}

/// Taking back a move: every listed square holds a pawn of the rival of
/// `player`; square `cell`, when not listed, is emptied if it is below 63 and
/// left as it was otherwise; every other square is left as it was; and
/// `player` is to move.
pub proof fn law_unplay_squares(b: BoardView, player: Color, cell: int, swapped: Seq<usize>)
    requires
        forall|i: int| 0 <= i < swapped.len() ==> swapped[i] < 64,
    ensures
        ({
            let back = unplay_spec(b, player, cell, swapped);
            &&& back.player == player
            &&& back.cells.len() == b.cells.len()
            &&& forall|i: int|
                0 <= i < swapped.len() && swapped[i] < b.cells.len() ==> back.cells[#[trigger] swapped[i] as int]
                    == Cell::Filled(rival(player))
            &&& forall|j: int|
                0 <= j < b.cells.len() && !swapped.contains(j as usize) ==> back.cells[j] == if j
                    == cell && cell < 63 {
                    Cell::Empty
                } else {
                    b.cells[j]
                }
        }),
{
    let back = unplay_spec(b, player, cell, swapped);
    assert(rival(player) == other(player));
    assert forall|i: int| 0 <= i < swapped.len() && swapped[i] < b.cells.len() implies back.cells[
        #[trigger] swapped[i] as int] == Cell::Filled(rival(player)) by {
        assert(swapped.contains((swapped[i] as int) as usize));
    }
}

} // verus!
