use vstd::prelude::*;
use crate::game::{Cell, Color, PASS};
use crate::geometry::{
    lemma_flipped_list_contains, lemma_flipped_list_len, lemma_flipped_list_members,
    lemma_flipped_by_step, lemma_not_flipped_on_ray, lemma_ray_distinct, lemma_run_square,
};
use crate::model::{
    byte_cell, cell_byte, count_color, flanks, flip_count, flipped_by, flipped_list, in_run,
    is_legal, legal_moves_below, moves_spec, note_spec, other, play_spec, ray_index, unplay_spec,
    BoardView,
};

verus! {

/// Taking a move back with `unplay` restores the board that `play_move` was
/// given, for a pass (a number above 63) and for an empty square below 63.
/// (Square 63 stays filled: `unplay` only empties squares below 63.)
pub proof fn law_unplay_undoes_play(b: BoardView, cell: int)
    requires
        b.cells.len() == 64,
        0 <= cell,
        cell > 63 || (cell < 63 && b.cells[cell] == Cell::Empty),
    ensures
        unplay_spec(play_spec(b, cell).0, b.player, cell, play_spec(b, cell).1) == b,
{
    let played = play_spec(b, cell);
    let back = unplay_spec(played.0, b.player, cell, played.1);
    if cell > 63 {
        assert(back.cells =~= b.cells);
    } else {
        let p = b.player;
        assert forall|j: int| 0 <= j < 64 implies back.cells[j] == b.cells[j] by {
            lemma_flipped_list_contains(b.cells, cell, p, 8, j);
            if flipped_by(b.cells, cell, p, 8, j) {
                let d = choose|d: int| 0 <= d < 8 && #[trigger] in_run(b.cells, cell, p, d, j);
                let k = choose|k: int|
                    1 <= k <= flip_count(b.cells, cell, p, d) && #[trigger] ray_index(
                        cell,
                        d,
                        k,
                    ) == j;
                lemma_run_square(b.cells, cell, p, d, k);
            }
        }
        assert(back.cells =~= b.cells);
    }
}

/// The score of a position for one color is minus its score for the other.
pub proof fn law_note_antisymmetric(cells: Seq<Cell>, player: Color)
    ensures
        note_spec(cells, other(player)) == -note_spec(cells, player),
{
}

} // verus!

verus! {

proof fn lemma_legal_moves_below(cells: Seq<Cell>, player: Color, n: int)
    requires
        0 <= n <= 64,
    ensures
        forall|j: int|
            0 <= j < 64 ==> (legal_moves_below(cells, player, n).contains(j as usize) <==> (j < n
                && is_legal(cells, player, j))),
        forall|i: int, k: int|
            0 <= i < k < legal_moves_below(cells, player, n).len() ==> legal_moves_below(
                cells,
                player,
                n,
            )[i] < legal_moves_below(cells, player, n)[k],
        forall|i: int|
            0 <= i < legal_moves_below(cells, player, n).len() ==> legal_moves_below(
                cells,
                player,
                n,
            )[i] < n,
    decreases n,
{
    if n > 0 {
        lemma_legal_moves_below(cells, player, n - 1);
        let prev = legal_moves_below(cells, player, n - 1);
        let cur = legal_moves_below(cells, player, n);
        assert forall|j: int| 0 <= j < 64 implies (cur.contains(j as usize) <==> (j < n && is_legal(
            cells,
            player,
            j,
        ))) by {
            if cur.contains(j as usize) {
                let i = choose|i: int| 0 <= i < cur.len() && cur[i] == j as usize;
                if i < prev.len() {
                    assert(prev.contains(j as usize));
                }
            }
            if j < n && is_legal(cells, player, j) {
                if j < n - 1 {
                    let i = choose|i: int| 0 <= i < prev.len() && prev[i] == j as usize;
                    assert(cur[i] == j as usize);
                } else {
                    assert(cur[prev.len() as int] == j as usize);
                }
            }
        }
    }
}

/// The move list of a player who has a legal square is exactly its legal
/// squares, in increasing order; otherwise it is the single pass move 256 if
/// the player has not just passed and the opponent has a legal square, and
/// empty if not.
pub proof fn law_moves_are_the_legal_squares(cells: Seq<Cell>, player: Color, previous_passed: bool)
    ensures
        ({
            let own = legal_moves_below(cells, player, 64);
            &&& forall|j: int|
                0 <= j < 64 ==> (own.contains(j as usize) <==> is_legal(cells, player, j))
            &&& forall|i: int, k: int| 0 <= i < k < own.len() ==> own[i] < own[k]
            &&& forall|i: int| 0 <= i < own.len() ==> own[i] < 64
            &&& (exists|j: int| 0 <= j < 64 && is_legal(cells, player, j)) ==> moves_spec(
                cells,
                player,
                previous_passed,
            ) == own
            &&& (!exists|j: int| 0 <= j < 64 && is_legal(cells, player, j)) ==> moves_spec(
                cells,
                player,
                previous_passed,
            ) == if !previous_passed && exists|j: int|
                0 <= j < 64 && is_legal(cells, other(player), j) {
                seq![PASS]
            } else {
                Seq::<usize>::empty()
            }
        }),
{
    lemma_legal_moves_below(cells, player, 64);
    lemma_legal_moves_below(cells, other(player), 64);
    let own = legal_moves_below(cells, player, 64);
    let theirs = legal_moves_below(cells, other(player), 64);
    if exists|j: int| 0 <= j < 64 && is_legal(cells, player, j) {
        let j = choose|j: int| 0 <= j < 64 && is_legal(cells, player, j);
        assert(own.contains(j as usize));
    } else {
        if own.len() > 0 {
            assert(own.contains(own[0]));
            assert(is_legal(cells, player, own[0] as int));
        }
        if exists|j: int| 0 <= j < 64 && is_legal(cells, other(player), j) {
            let j = choose|j: int| 0 <= j < 64 && is_legal(cells, other(player), j);
            assert(theirs.contains(j as usize));
        } else if theirs.len() > 0 {
            assert(theirs.contains(theirs[0]));
            assert(is_legal(cells, other(player), theirs[0] as int));
        }
        assert(own =~= Seq::<usize>::empty());
    }
}

} // verus!

verus! {

pub(crate) proof fn lemma_count_update(s: Seq<Cell>, j: int, v: Cell, c: Color)
    requires
        0 <= j < s.len(),
    ensures
        count_color(s.update(j, v), c) == count_color(s, c) - (if s[j] == Cell::Filled(c) {
            1int
        } else {
            0int
        }) + (if v == Cell::Filled(c) {
            1int
        } else {
            0int
        }),
    decreases s.len(),
{
    if j == s.len() - 1 {
        assert(s.update(j, v).drop_last() =~= s.drop_last());
    } else {
        lemma_count_update(s.drop_last(), j, v, c);
        assert(s.update(j, v).drop_last() =~= s.drop_last().update(j, v));
    }
}

/// The board with the runs of the first `n` directions turned over.
spec fn after_dirs(cells: Seq<Cell>, cell: int, player: Color, n: int) -> Seq<Cell> {
    Seq::new(
        cells.len(),
        |j: int|
            if flipped_by(cells, cell, player, n, j) {
                Cell::Filled(player)
            } else {
                cells[j]
            },
    )
}

/// The board with the runs of the first `n` directions turned over, and the
/// first `t` squares of the run of direction `n`.
spec fn after_steps(cells: Seq<Cell>, cell: int, player: Color, n: int, t: int) -> Seq<Cell> {
    Seq::new(
        cells.len(),
        |j: int|
            if flipped_by(cells, cell, player, n, j) || exists|s: int|
                1 <= s <= t && #[trigger] ray_index(cell, n, s) == j {
                Cell::Filled(player)
            } else {
                cells[j]
            },
    )
}

proof fn lemma_after_steps_counts(cells: Seq<Cell>, cell: int, player: Color, n: int, t: int)
    requires
        cells.len() == 64,
        0 <= cell < 64,
        0 <= n < 8,
        0 <= t <= flip_count(cells, cell, player, n),
    ensures
        count_color(after_steps(cells, cell, player, n, t), player) == count_color(
            after_dirs(cells, cell, player, n),
            player,
        ) + t,
        count_color(after_steps(cells, cell, player, n, t), other(player)) == count_color(
            after_dirs(cells, cell, player, n),
            other(player),
        ) - t,
    decreases t,
{
    if t == 0 {
        assert(after_steps(cells, cell, player, n, 0) =~= after_dirs(cells, cell, player, n));
    } else {
        lemma_after_steps_counts(cells, cell, player, n, t - 1);
        let prev = after_steps(cells, cell, player, n, t - 1);
        let j = ray_index(cell, n, t);
        lemma_run_square(cells, cell, player, n, t);
        lemma_not_flipped_on_ray(cells, cell, player, n, n, t);
        if exists|s: int| 1 <= s <= t - 1 && #[trigger] ray_index(cell, n, s) == j {
            let s = choose|s: int| 1 <= s <= t - 1 && #[trigger] ray_index(cell, n, s) == j;
            lemma_run_square(cells, cell, player, n, s);
            lemma_ray_distinct(cell, n, s, n, t);
        }
        assert(prev[j] == Cell::Filled(other(player)));
        assert forall|i: int| 0 <= i < 64 implies after_steps(cells, cell, player, n, t)[i] == prev.update(
            j,
            Cell::Filled(player),
        )[i] by {
            if i != j {
                if exists|s: int| 1 <= s <= t && #[trigger] ray_index(cell, n, s) == i {
                    let s = choose|s: int| 1 <= s <= t && #[trigger] ray_index(cell, n, s) == i;
                    assert(s != t);
                }
            }
        }
        assert(after_steps(cells, cell, player, n, t) =~= prev.update(j, Cell::Filled(player)));
        lemma_count_update(prev, j, Cell::Filled(player), player);
        lemma_count_update(prev, j, Cell::Filled(player), other(player));
    }
}

proof fn lemma_after_dirs_counts(cells: Seq<Cell>, cell: int, player: Color, n: int)
    requires
        cells.len() == 64,
        0 <= cell < 64,
        0 <= n <= 8,
    ensures
        count_color(after_dirs(cells, cell, player, n), player) == count_color(cells, player)
            + flipped_list(cells, cell, player, n).len(),
        count_color(after_dirs(cells, cell, player, n), other(player)) == count_color(
            cells,
            other(player),
        ) - flipped_list(cells, cell, player, n).len(),
    decreases n,
{
    if n == 0 {
        assert(after_dirs(cells, cell, player, 0) =~= cells);
    } else {
        let d = n - 1;
        lemma_after_dirs_counts(cells, cell, player, d);
        let fc = flip_count(cells, cell, player, d);
        if fc < 0 {
            assert(false);
        }
        lemma_after_steps_counts(cells, cell, player, d, fc);
        assert forall|j: int| 0 <= j < 64 implies after_steps(cells, cell, player, d, fc)[j]
            == after_dirs(cells, cell, player, n)[j] by {
            lemma_flipped_by_step(cells, cell, player, d, j);
            if exists|s: int| 1 <= s <= fc && #[trigger] ray_index(cell, d, s) == j {
                let s = choose|s: int| 1 <= s <= fc && #[trigger] ray_index(cell, d, s) == j;
                assert(in_run(cells, cell, player, d, j));
            }
        }
        assert(after_steps(cells, cell, player, d, fc) =~= after_dirs(cells, cell, player, n));
    }
}

/// Playing an empty square puts one pawn of the mover on it and turns over
/// the listed pawns, each of which was the opponent's and becomes the
/// mover's: the mover gains one pawn more than the number turned over, the
/// opponent loses that number; a legal square turns at least one over.
pub proof fn law_play_turns_opponent_pawns(b: BoardView, cell: int)
    requires
        b.cells.len() == 64,
        0 <= cell < 64,
        b.cells[cell] == Cell::Empty,
    ensures
        ({
            let p = b.player;
            let after = play_spec(b, cell).0;
            let swapped = play_spec(b, cell).1;
            &&& after.player == other(p)
            &&& after.cells[cell] == Cell::Filled(p)
            &&& forall|i: int|
                0 <= i < swapped.len() ==> swapped[i] < 64 && b.cells[swapped[i] as int]
                    == Cell::Filled(other(p)) && after.cells[swapped[i] as int] == Cell::Filled(p)
            &&& count_color(after.cells, p) == count_color(b.cells, p) + 1 + swapped.len()
            &&& count_color(after.cells, other(p)) == count_color(b.cells, other(p)) - swapped.len()
            &&& is_legal(b.cells, p, cell) ==> swapped.len() > 0
        }),
{
    let p = b.player;
    let after = play_spec(b, cell).0;
    let swapped = play_spec(b, cell).1;
    assert forall|i: int| 0 <= i < swapped.len() implies swapped[i] < 64 && b.cells[swapped[i] as int]
        == Cell::Filled(other(p)) && after.cells[swapped[i] as int] == Cell::Filled(p) by {
        assert(swapped.contains(swapped[i]));
        lemma_flipped_list_members(b.cells, cell, p, 8, swapped[i]);
        let j = swapped[i] as int;
        lemma_flipped_list_contains(b.cells, cell, p, 8, j);
        let d = choose|d: int| 0 <= d < 8 && #[trigger] in_run(b.cells, cell, p, d, j);
        let k = choose|k: int|
            1 <= k <= flip_count(b.cells, cell, p, d) && #[trigger] ray_index(cell, d, k) == j;
        lemma_run_square(b.cells, cell, p, d, k);
    }
    // counts
    lemma_after_dirs_counts(b.cells, cell, p, 8);
    let flipped = after_dirs(b.cells, cell, p, 8);
    if flipped_by(b.cells, cell, p, 8, cell) {
        let d = choose|d: int| 0 <= d < 8 && #[trigger] in_run(b.cells, cell, p, d, cell);
        let k = choose|k: int|
            1 <= k <= flip_count(b.cells, cell, p, d) && #[trigger] ray_index(cell, d, k) == cell;
        lemma_run_square(b.cells, cell, p, d, k);
    }
    assert(after.cells =~= flipped.update(cell, Cell::Filled(p)));
    lemma_count_update(flipped, cell, Cell::Filled(p), p);
    lemma_count_update(flipped, cell, Cell::Filled(p), other(p));
    if is_legal(b.cells, p, cell) {
        let d = choose|d: int| 0 <= d < 8 && #[trigger] flanks(b.cells, cell, p, d);
        lemma_flipped_list_len(b.cells, cell, p, 8, d);
    }
}

} // verus!

verus! {

/// Reading back the text form of a board's cells gives the same cells.
pub proof fn law_bytes_round_trip(cells: Seq<Cell>)
    requires
        cells.len() == 64,
    ensures
        Seq::new(64, |i: int| byte_cell(Seq::new(64, |k: int| cell_byte(cells[k]))[i])) == cells,
{
    assert(Seq::new(64, |i: int| byte_cell(Seq::new(64, |k: int| cell_byte(cells[k]))[i])) =~= cells);
}

/// The counts of the two colors never exceed the number of squares.
pub proof fn law_counts_fit_board(cells: Seq<Cell>, player: Color)
    ensures
        count_color(cells, player) >= 0,
        count_color(cells, other(player)) >= 0,
        count_color(cells, player) + count_color(cells, other(player)) <= cells.len(),
    decreases cells.len(),
{
    if cells.len() > 0 {
        law_counts_fit_board(cells.drop_last(), player);
    }
}

} // verus!
