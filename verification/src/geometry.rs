use vstd::prelude::*;
use crate::game::{Cell, Color};
use crate::model::{
    col, flanks, flip_count, flipped_by, flipped_list, in_run, on_board, on_ray, other, ray_index,
    ray_x, ray_y, row, run_end, run_indices,
};

verus! {

/// A square's number is its row times eight plus its column.
pub proof fn lemma_cell_coords(cell: int)
    requires
        0 <= cell < 64,
    ensures
        0 <= col(cell) < 8,
        0 <= row(cell) < 8,
        cell == row(cell) * 8 + col(cell),
{
}

/// Two on-board squares with equal numbers have equal coordinates.
pub proof fn lemma_index_coords(x1: int, y1: int, x2: int, y2: int)
    requires
        on_board(x1, y1),
        on_board(x2, y2),
        y1 * 8 + x1 == y2 * 8 + x2,
    ensures
        x1 == x2,
        y1 == y2,
{
}

/// A square on a ray, at a positive distance, is not the ray's origin, and
/// lies on no other ray from the same origin, nor at another distance.
pub proof fn lemma_ray_distinct(cell: int, d1: int, k1: int, d2: int, k2: int)
    requires
        0 <= cell < 64,
        0 <= d1 < 8,
        0 <= d2 < 8,
        1 <= k1,
        1 <= k2,
        on_ray(cell, d1, k1),
        on_ray(cell, d2, k2),
        ray_index(cell, d1, k1) == ray_index(cell, d2, k2),
    ensures
        d1 == d2,
        k1 == k2,
{
    lemma_index_coords(ray_x(cell, d1, k1), ray_y(cell, d1, k1), ray_x(cell, d2, k2), ray_y(cell, d2, k2));
}

/// A square on a ray, at a positive distance, is not the ray's origin.
pub proof fn lemma_ray_not_origin(cell: int, d: int, k: int)
    requires
        0 <= cell < 64,
        0 <= d < 8,
        1 <= k,
        on_ray(cell, d, k),
    ensures
        ray_index(cell, d, k) != cell,
        0 <= ray_index(cell, d, k) < 64,
{
    lemma_cell_coords(cell);
    if ray_index(cell, d, k) == cell {
        lemma_index_coords(ray_x(cell, d, k), ray_y(cell, d, k), col(cell), row(cell));
    }
}

pub proof fn lemma_run_end_ge(cells: Seq<Cell>, cell: int, d: int, opp: Color, k: int)
    ensures
        run_end(cells, cell, d, opp, k) >= k,
        k <= 8 ==> run_end(cells, cell, d, opp, k) <= 8,
    decreases 8 - k,
{
    if k < 8 && on_ray(cell, d, k) && cells[ray_index(cell, d, k)] == Cell::Filled(opp) {
        lemma_run_end_ge(cells, cell, d, opp, k + 1);
    }
}

/// Every square strictly before the end of a run is on the board and holds a
/// pawn of `opp`.
pub proof fn lemma_run_prefix(cells: Seq<Cell>, cell: int, d: int, opp: Color, k: int, s: int)
    requires
        k <= s < run_end(cells, cell, d, opp, k),
    ensures
        on_ray(cell, d, s),
        cells[ray_index(cell, d, s)] == Cell::Filled(opp),
    decreases s - k,
{
    if s > k {
        lemma_run_prefix(cells, cell, d, opp, k + 1, s);
    }
}

/// Two boards that agree on the squares of a ray have the same run on it.
pub proof fn lemma_run_end_agree(c1: Seq<Cell>, c2: Seq<Cell>, cell: int, d: int, opp: Color, k: int)
    requires
        forall|s: int|
            k <= s && on_ray(cell, d, s) ==> c1[#[trigger] ray_index(cell, d, s)] == c2[ray_index(
                cell,
                d,
                s,
            )],
    ensures
        run_end(c1, cell, d, opp, k) == run_end(c2, cell, d, opp, k),
    decreases 8 - k,
{
    if k < 8 && on_ray(cell, d, k) {
        assert(c1[ray_index(cell, d, k)] == c2[ray_index(cell, d, k)]);
        lemma_run_end_agree(c1, c2, cell, d, opp, k + 1);
    }
}

} // verus!

verus! {

/// A flanking direction starts with an adjacent pawn of the opponent.
pub proof fn lemma_flanks_adjacent(cells: Seq<Cell>, cell: int, player: Color, d: int)
    requires
        flanks(cells, cell, player, d),
    ensures
        on_ray(cell, d, 1),
        cells[ray_index(cell, d, 1)] == Cell::Filled(other(player)),
{
    lemma_run_prefix(cells, cell, d, other(player), 1, 1);
}

} // verus!

verus! {

/// The squares of a run that a move turns over are on the board, are not the
/// square played, and hold the opponent's pawns.
pub proof fn lemma_run_square(cells: Seq<Cell>, cell: int, player: Color, d: int, s: int)
    requires
        0 <= cell < 64,
        0 <= d < 8,
        1 <= s <= flip_count(cells, cell, player, d),
    ensures
        on_ray(cell, d, s),
        cells[ray_index(cell, d, s)] == Cell::Filled(other(player)),
        0 <= ray_index(cell, d, s) < 64,
        ray_index(cell, d, s) != cell,
{
    lemma_run_prefix(cells, cell, d, other(player), 1, s);
    lemma_ray_not_origin(cell, d, s);
}

/// A square on the ray of direction `d` is turned over by no earlier direction.
pub proof fn lemma_not_flipped_on_ray(cells: Seq<Cell>, cell: int, player: Color, n: int, d: int, k: int)
    requires
        0 <= cell < 64,
        0 <= n <= d < 8,
        1 <= k,
        on_ray(cell, d, k),
    ensures
        !flipped_by(cells, cell, player, n, ray_index(cell, d, k)),
{
    let j = ray_index(cell, d, k);
    if flipped_by(cells, cell, player, n, j) {
        let d2 = choose|d2: int| 0 <= d2 < n && #[trigger] in_run(cells, cell, player, d2, j);
        let k2 = choose|k2: int|
            1 <= k2 <= flip_count(cells, cell, player, d2) && #[trigger] ray_index(cell, d2, k2) == j;
        lemma_run_square(cells, cell, player, d2, k2);
        lemma_ray_distinct(cell, d, k, d2, k2);
    }
}

/// Being turned over in the first `n + 1` directions is being turned over in
/// the first `n` or in direction `n`.
pub proof fn lemma_flipped_by_step(cells: Seq<Cell>, cell: int, player: Color, n: int, j: int)
    requires
        0 <= n,
    ensures
        flipped_by(cells, cell, player, n + 1, j) == (flipped_by(cells, cell, player, n, j) || in_run(
            cells,
            cell,
            player,
            n,
            j,
        )),
{
    if flipped_by(cells, cell, player, n + 1, j) {
        let d = choose|d: int| 0 <= d < n + 1 && #[trigger] in_run(cells, cell, player, d, j);
        if d < n {
            assert(flipped_by(cells, cell, player, n, j));
        }
    }
    if in_run(cells, cell, player, n, j) {
        assert(flipped_by(cells, cell, player, n + 1, j));
    }
    if flipped_by(cells, cell, player, n, j) {
        let d = choose|d: int| 0 <= d < n && #[trigger] in_run(cells, cell, player, d, j);
        assert(flipped_by(cells, cell, player, n + 1, j));
    }
}

} // verus!

verus! {

/// The list of turned-over squares holds exactly the squares turned over.
pub proof fn lemma_flipped_list_contains(cells: Seq<Cell>, cell: int, player: Color, n: int, j: int)
    requires
        0 <= cell < 64,
        0 <= n <= 8,
        0 <= j < 64,
    ensures
        flipped_list(cells, cell, player, n).contains(j as usize) == flipped_by(cells, cell, player, n, j),
    decreases n,
{
    if n > 0 {
        lemma_flipped_list_contains(cells, cell, player, n - 1, j);
        lemma_flipped_by_step(cells, cell, player, n - 1, j);
        let first = flipped_list(cells, cell, player, n - 1);
        let run = run_indices(cells, cell, player, n - 1);
        let all = flipped_list(cells, cell, player, n);
        assert(all == first + run);
        if all.contains(j as usize) {
            let i = choose|i: int| 0 <= i < all.len() && all[i] == j as usize;
            if i >= first.len() {
                let t = i - first.len();
                lemma_run_square(cells, cell, player, n - 1, t + 1);
                assert(ray_index(cell, n - 1, t + 1) == j);
                assert(in_run(cells, cell, player, n - 1, j));
            } else {
                assert(first.contains(j as usize));
            }
        }
        if flipped_by(cells, cell, player, n, j) {
            if flipped_by(cells, cell, player, n - 1, j) {
                let i = choose|i: int| 0 <= i < first.len() && first[i] == j as usize;
                assert(all[i] == j as usize);
            } else {
                let k = choose|k: int|
                    1 <= k <= flip_count(cells, cell, player, n - 1) && #[trigger] ray_index(
                        cell,
                        n - 1,
                        k,
                    ) == j;
                assert(run[k - 1] == j as usize);
                assert(all[first.len() + k - 1] == j as usize);
            }
        }
    }
}

} // verus!

verus! {

/// Every entry of the list of turned-over squares is a square number.
pub proof fn lemma_flipped_list_members(cells: Seq<Cell>, cell: int, player: Color, n: int, v: usize)
    requires
        0 <= cell < 64,
        0 <= n <= 8,
        flipped_list(cells, cell, player, n).contains(v),
    ensures
        v < 64,
    decreases n,
{
    if n > 0 {
        let first = flipped_list(cells, cell, player, n - 1);
        let run = run_indices(cells, cell, player, n - 1);
        let all = flipped_list(cells, cell, player, n);
        assert(all == first + run);
        let i = choose|i: int| 0 <= i < all.len() && all[i] == v;
        if i < first.len() {
            assert(first[i] == v);
            lemma_flipped_list_members(cells, cell, player, n - 1, v);
        } else {
            lemma_run_square(cells, cell, player, n - 1, i - first.len() + 1);
        }
    }
}

/// The list of turned-over squares is at least as long as the run of any of
/// its directions.
pub proof fn lemma_flipped_list_len(cells: Seq<Cell>, cell: int, player: Color, n: int, d: int)
    requires
        0 <= d < n,
        flanks(cells, cell, player, d),
    ensures
        flipped_list(cells, cell, player, n).len() >= flip_count(cells, cell, player, d) >= 1,
    decreases n,
{
    if d < n - 1 {
        lemma_flipped_list_len(cells, cell, player, n - 1, d);
    } else {
        lemma_run_end_ge(cells, cell, d, other(player), 1);
    }
}

} // verus!
