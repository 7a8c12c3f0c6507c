use vstd::prelude::*;
use crate::game::{Cell, Color};
use crate::laws::{law_moves_are_the_legal_squares, law_unplay_undoes_play};
use crate::model::{
    is_legal, legal_moves_below, minimax_loop, minimax_spec, moves_spec, note_spec, other,
    play_spec, square_weight, unplay_spec, weighted_count, BoardView,
};

verus! {

// The minimax search: its value alternates between maximum and minimum from
// one level to the next.

proof fn lemma_weighted_count_bounds(cells: Seq<Cell>, c: Color, n: int)
    requires
        0 <= n,
    ensures
        -n <= weighted_count(cells, c, n) <= 10 * n,
    decreases n,
{
    if n > 0 {
        lemma_weighted_count_bounds(cells, c, n - 1);
        assert(-1 <= square_weight(n - 1) <= 10);
    }
}

proof fn lemma_note_bounds(cells: Seq<Cell>, p: Color)
    ensures
        -1048576 <= note_spec(cells, p) <= 1048576,
{
    lemma_weighted_count_bounds(cells, p, 64);
    lemma_weighted_count_bounds(cells, other(p), 64);
}

proof fn lemma_minimax_bounds(b: BoardView, p: Color, depth: int, maximizing: bool)
    ensures
        -1048576 <= minimax_spec(b, p, depth, maximizing).0 <= 1048576,
    decreases
            if depth > 0 {
                depth
            } else {
                0
            },
            1int,
            0int,
{
    lemma_note_bounds(b.cells, p);
    if depth > 0 {
        let moves = moves_spec(b.cells, b.player, false);
        if moves.len() > 0 {
            lemma_loop_bounds(
                b,
                p,
                depth,
                maximizing,
                moves,
                0,
                b.player,
                if maximizing {
                    -1048576
                } else {
                    1048576
                },
            );
        }
    }
}

proof fn lemma_loop_bounds(
    b: BoardView,
    p: Color,
    depth: int,
    maximizing: bool,
    moves: Seq<usize>,
    i: int,
    playing: Color,
    acc: int,
)
    requires
        -1048576 <= acc <= 1048576,
    ensures
        -1048576 <= minimax_loop(b, p, depth, maximizing, moves, i, playing, acc).0 <= 1048576,
    decreases
            if depth > 0 {
                depth
            } else {
                0
            },
            0int,
            moves.len() - i,
{
    if !(i < 0 || i >= moves.len() || depth <= 0) {
        let played = play_spec(b, moves[i] as int);
        lemma_minimax_bounds(played.0, p, depth - 1, !maximizing);
        let inner = minimax_spec(played.0, p, depth - 1, !maximizing);
        let back = unplay_spec(inner.1, playing, moves[i] as int, played.1);
        let acc2 = if maximizing {
            if acc >= inner.0 {
                acc
            } else {
                inner.0
            }
        } else {
            if acc <= inner.0 {
                acc
            } else {
                inner.0
            }
        };
        lemma_loop_bounds(back, p, depth, maximizing, moves, i + 1, playing, acc2);
    }
}

/// The value that the search below a move finds: the move is played and the
/// result searched one level shallower in the other role.
pub open spec fn child_value(b: BoardView, p: Color, depth: int, maximizing: bool, m: int) -> int {
    minimax_spec(play_spec(b, m).0, p, depth - 1, !maximizing).0
}

/// The search below the move leaves the board it was given as it found it.
pub open spec fn child_restores(b: BoardView, p: Color, depth: int, maximizing: bool, m: int) -> bool {
    minimax_spec(play_spec(b, m).0, p, depth - 1, !maximizing).1 == play_spec(b, m).0
}

/// A move that is a pass or an empty square below 63.
spec fn undoable(b: BoardView, m: int) -> bool {
    m > 63 || (0 <= m < 63 && b.cells[m] == Cell::Empty)
}

proof fn lemma_loop_fold(
    b: BoardView,
    p: Color,
    depth: int,
    maximizing: bool,
    moves: Seq<usize>,
    i: int,
    acc: int,
)
    requires
        depth > 0,
        0 <= i <= moves.len(),
        b.cells.len() == 64,
        forall|j: int| i <= j < moves.len() ==> undoable(b, #[trigger] moves[j] as int),
        forall|j: int|
            i <= j < moves.len() ==> child_restores(b, p, depth, maximizing, #[trigger] moves[j] as int),
    ensures
        ({
            let r = minimax_loop(b, p, depth, maximizing, moves, i, b.player, acc);
            &&& r.1 == b
            &&& maximizing ==> r.0 >= acc
            &&& !maximizing ==> r.0 <= acc
            &&& forall|j: int|
                i <= j < moves.len() ==> (maximizing ==> r.0 >= child_value(
                    b,
                    p,
                    depth,
                    maximizing,
                    #[trigger] moves[j] as int,
                )) && (!maximizing ==> r.0 <= child_value(b, p, depth, maximizing, moves[j] as int))
            &&& r.0 == acc || exists|j: int|
                i <= j < moves.len() && r.0 == child_value(b, p, depth, maximizing, #[trigger] moves[j] as int)
        }),
    decreases moves.len() - i,
{
    if i < moves.len() {
        let m = moves[i] as int;
        let played = play_spec(b, m);
        let inner = minimax_spec(played.0, p, depth - 1, !maximizing);
        assert(undoable(b, moves[i] as int));
        assert(child_restores(b, p, depth, maximizing, moves[i] as int));
        law_unplay_undoes_play(b, m);
        let back = unplay_spec(inner.1, b.player, m, played.1);
        assert(back == b);
        let acc2 = if maximizing {
            if acc >= inner.0 {
                acc
            } else {
                inner.0
            }
        } else {
            if acc <= inner.0 {
                acc
            } else {
                inner.0
            }
        };
        lemma_loop_fold(b, p, depth, maximizing, moves, i + 1, acc2);
        let r = minimax_loop(b, p, depth, maximizing, moves, i, b.player, acc);
        assert(r == minimax_loop(b, p, depth, maximizing, moves, i + 1, b.player, acc2));
        assert(inner.0 == child_value(b, p, depth, maximizing, moves[i] as int));
    }
}

/// Every entry of a move list is a pass or an empty square.
proof fn lemma_moves_undoable(b: BoardView)
    requires
        b.cells.len() == 64,
    ensures
        forall|j: int|
            0 <= j < moves_spec(b.cells, b.player, false).len() ==> #[trigger] moves_spec(
                b.cells,
                b.player,
                false,
            )[j] == 63 || undoable(b, moves_spec(b.cells, b.player, false)[j] as int),
{
    law_moves_are_the_legal_squares(b.cells, b.player, false);
    let m = moves_spec(b.cells, b.player, false);
    assert forall|j: int| 0 <= j < m.len() implies #[trigger] m[j] == 63 || undoable(b, m[j] as int) by {
        if m != legal_moves_below(b.cells, b.player, 64) {
            assert(m[j] == 256);
        } else {
            assert(m.contains(m[j]));
            assert(is_legal(b.cells, b.player, m[j] as int));
        }
    }
}

/// One level of the search: when every search below a move of the move list
/// leaves its board as it found it and no move is square 63, the value is
/// the largest of the values below the moves, searched as minimizing levels,
/// at a maximizing level, and the smallest of them, searched as maximizing
/// levels, at a minimizing level; and the board is left as it was found.
pub proof fn law_minimax_alternates(b: BoardView, p: Color, depth: int, maximizing: bool)
    requires
        b.cells.len() == 64,
        depth > 0,
        moves_spec(b.cells, b.player, false).len() > 0,
        forall|j: int|
            0 <= j < moves_spec(b.cells, b.player, false).len() ==> #[trigger] moves_spec(
                b.cells,
                b.player,
                false,
            )[j] != 63 && child_restores(
                b,
                p,
                depth,
                maximizing,
                moves_spec(b.cells, b.player, false)[j] as int,
            ),
    ensures
        ({
            let moves = moves_spec(b.cells, b.player, false);
            let v = minimax_spec(b, p, depth, maximizing).0;
            &&& minimax_spec(b, p, depth, maximizing).1 == b
            &&& forall|j: int|
                0 <= j < moves.len() ==> (maximizing ==> v >= child_value(
                    b,
                    p,
                    depth,
                    maximizing,
                    #[trigger] moves[j] as int,
                )) && (!maximizing ==> v <= child_value(b, p, depth, maximizing, moves[j] as int))
            &&& exists|j: int|
                0 <= j < moves.len() && v == child_value(b, p, depth, maximizing, #[trigger] moves[j] as int)
        }),
{
    let moves = moves_spec(b.cells, b.player, false);
    lemma_moves_undoable(b);
    assert forall|j: int| 0 <= j < moves.len() implies undoable(b, #[trigger] moves[j] as int) by {
        assert(moves[j] != 63);
    }
    let acc = if maximizing {
        -1048576int
    } else {
        1048576int
    };
    lemma_loop_fold(b, p, depth, maximizing, moves, 0, acc);
    let v = minimax_spec(b, p, depth, maximizing).0;
    if v == acc {
        // the first move's value lies in the score range, so it equals the bound
        lemma_minimax_bounds(play_spec(b, moves[0] as int).0, p, depth - 1, !maximizing);
        assert(v == child_value(b, p, depth, maximizing, moves[0] as int));
    }
}

/// A search of depth one scores each move by the position it leads to: when
/// no move of the move list is square 63, its value is the largest such score
/// at a maximizing level and the smallest at a minimizing level, and it
/// leaves the board as it found it.
pub proof fn law_minimax_depth_one(b: BoardView, p: Color, maximizing: bool)
    requires
        b.cells.len() == 64,
        moves_spec(b.cells, b.player, false).len() > 0,
        forall|j: int|
            0 <= j < moves_spec(b.cells, b.player, false).len() ==> #[trigger] moves_spec(
                b.cells,
                b.player,
                false,
            )[j] != 63,
    ensures
        ({
            let moves = moves_spec(b.cells, b.player, false);
            let v = minimax_spec(b, p, 1, maximizing).0;
            &&& minimax_spec(b, p, 1, maximizing).1 == b
            &&& forall|j: int|
                0 <= j < moves.len() ==> (maximizing ==> v >= note_spec(
                    play_spec(b, #[trigger] moves[j] as int).0.cells,
                    p,
                )) && (!maximizing ==> v <= note_spec(play_spec(b, moves[j] as int).0.cells, p))
            &&& exists|j: int|
                0 <= j < moves.len() && v == note_spec(
                    play_spec(b, #[trigger] moves[j] as int).0.cells,
                    p,
                )
        }),
{
    let moves = moves_spec(b.cells, b.player, false);
    assert forall|j: int| 0 <= j < moves.len() implies #[trigger] moves[j] != 63 && child_restores(
        b,
        p,
        1,
        maximizing,
        moves[j] as int,
    ) by {}
    law_minimax_alternates(b, p, 1, maximizing);
    let v = minimax_spec(b, p, 1, maximizing).0;
    let j = choose|j: int|
        0 <= j < moves.len() && v == child_value(b, p, 1, maximizing, #[trigger] moves[j] as int);
    assert(v == note_spec(play_spec(b, moves[j] as int).0.cells, p));
}

/// The position after the `j`-th move of the move list of `b`.
pub open spec fn after_move(b: BoardView, j: int) -> BoardView {
    play_spec(b, moves_spec(b.cells, b.player, false)[j] as int).0
}

/// The score for `p` after the `j`-th move of `b` and the `r`-th reply to it.
pub open spec fn reply_note(b: BoardView, p: Color, j: int, r: int) -> int {
    let c = after_move(b, j);
    note_spec(play_spec(c, moves_spec(c.cells, c.player, false)[r] as int).0.cells, p)
}

/// Number of replies to the `j`-th move of `b`.
pub open spec fn reply_count(b: BoardView, j: int) -> int {
    moves_spec(after_move(b, j).cells, after_move(b, j).player, false).len() as int
}

/// The `j`-th move of `b` has replies, none of which is square 63.
#[verifier::opaque]
pub open spec fn replies_avoid_63(b: BoardView, j: int) -> bool {
    reply_count(b, j) > 0 && forall|r: int|
        0 <= r < reply_count(b, j) ==> #[trigger] moves_spec(
            after_move(b, j).cells,
            after_move(b, j).player,
            false,
        )[r] != 63
}

/// Below a move, a minimizing search of depth one finds the worst reply score.
proof fn lemma_child_is_worst_reply(b: BoardView, p: Color, j: int)
    requires
        b.cells.len() == 64,
        0 <= j < moves_spec(b.cells, b.player, false).len(),
        replies_avoid_63(b, j),
    ensures
        ({
            let m = moves_spec(b.cells, b.player, false)[j] as int;
            &&& child_restores(b, p, 2, true, m)
            &&& forall|r: int|
                0 <= r < reply_count(b, j) ==> #[trigger] reply_note(b, p, j, r) >= child_value(
                    b,
                    p,
                    2,
                    true,
                    m,
                )
            &&& exists|r: int|
                0 <= r < reply_count(b, j) && #[trigger] reply_note(b, p, j, r) == child_value(
                    b,
                    p,
                    2,
                    true,
                    m,
                )
        }),
{
    reveal(replies_avoid_63);
    let m = moves_spec(b.cells, b.player, false)[j] as int;
    let c = after_move(b, j);
    let replies = moves_spec(c.cells, c.player, false);
    assert forall|r: int| 0 <= r < replies.len() implies #[trigger] replies[r] != 63 by {
        assert(moves_spec(after_move(b, j).cells, after_move(b, j).player, false)[r] != 63);
    }
    law_minimax_depth_one(c, p, false);
    let r0 = choose|r: int|
        0 <= r < replies.len() && minimax_spec(c, p, 1, false).0 == note_spec(
            play_spec(c, #[trigger] replies[r] as int).0.cells,
            p,
        );
    assert(reply_note(b, p, j, r0) == child_value(b, p, 2, true, m));
    assert forall|r: int| 0 <= r < reply_count(b, j) implies #[trigger] reply_note(b, p, j, r)
        >= child_value(b, p, 2, true, m) by {
        assert(minimax_spec(c, p, 1, false).0 <= note_spec(
            play_spec(c, replies[r] as int).0.cells,
            p,
        ));
    }
}

/// The worst score over the replies to the `j`-th move of `b` is `v`.
pub open spec fn worst_reply_is(b: BoardView, p: Color, j: int, v: int) -> bool {
    &&& forall|r: int| 0 <= r < reply_count(b, j) ==> v <= #[trigger] reply_note(b, p, j, r)
    &&& exists|r: int| 0 <= r < reply_count(b, j) && v == #[trigger] reply_note(b, p, j, r)
}

/// Some reply to the `j`-th move of `b` scores at most `v`.
pub open spec fn has_reply_at_most(b: BoardView, p: Color, j: int, v: int) -> bool {
    exists|r: int| 0 <= r < reply_count(b, j) && #[trigger] reply_note(b, p, j, r) <= v
}

proof fn lemma_some_reply_at_most(b: BoardView, p: Color, j: int, v: int)
    requires
        exists|r: int|
            0 <= r < reply_count(b, j) && #[trigger] reply_note(b, p, j, r) == child_value(
                b,
                p,
                2,
                true,
                moves_spec(b.cells, b.player, false)[j] as int,
            ),
        v >= child_value(b, p, 2, true, moves_spec(b.cells, b.player, false)[j] as int),
    ensures
        has_reply_at_most(b, p, j, v),
{
    let m = moves_spec(b.cells, b.player, false)[j] as int;
    let r = choose|r: int|
        0 <= r < reply_count(b, j) && #[trigger] reply_note(b, p, j, r) == child_value(b, p, 2, true, m);
    assert(reply_note(b, p, j, r) <= v);
}

/// A search of depth two from a maximizing level is the best, over the moves,
/// of the worst score over the replies: when every move has a non-empty move
/// list below it and no move or reply is square 63, the value `v` is the worst
/// reply score of some move, and every move has a reply whose score is at
/// most `v`.
pub proof fn law_minimax_depth_two(b: BoardView, p: Color)
    requires
        b.cells.len() == 64,
        moves_spec(b.cells, b.player, false).len() > 0,
        forall|j: int|
            0 <= j < moves_spec(b.cells, b.player, false).len() ==> #[trigger] moves_spec(
                b.cells,
                b.player,
                false,
            )[j] != 63 && replies_avoid_63(b, j),
    ensures
        ({
            let v = minimax_spec(b, p, 2, true).0;
            let n = moves_spec(b.cells, b.player, false).len() as int;
            &&& exists|j: int| 0 <= j < n && #[trigger] worst_reply_is(b, p, j, v)
            &&& forall|j: int| 0 <= j < n ==> #[trigger] has_reply_at_most(b, p, j, v)
        }),
{
    let moves = moves_spec(b.cells, b.player, false);
    let n = moves.len() as int;
    assert forall|j: int| 0 <= j < n implies #[trigger] moves[j] != 63 && child_restores(
        b,
        p,
        2,
        true,
        moves[j] as int,
    ) by {
        assert(moves_spec(b.cells, b.player, false)[j] != 63);
        lemma_child_is_worst_reply(b, p, j);
    }
    law_minimax_alternates(b, p, 2, true);
    let v = minimax_spec(b, p, 2, true).0;
    let j0 = choose|j: int| 0 <= j < n && v == child_value(b, p, 2, true, #[trigger] moves[j] as int);
    lemma_child_is_worst_reply(b, p, j0);
    reveal(replies_avoid_63);
    let m0 = moves[j0] as int;
    assert forall|r: int| 0 <= r < reply_count(b, j0) implies v <= #[trigger] reply_note(b, p, j0, r) by {
        assert(reply_note(b, p, j0, r) >= child_value(b, p, 2, true, m0));
    }
    let r0 = choose|r: int|
        0 <= r < reply_count(b, j0) && #[trigger] reply_note(b, p, j0, r) == child_value(b, p, 2, true, m0);
    assert(0 <= r0 < reply_count(b, j0) && v == reply_note(b, p, j0, r0));
    assert(worst_reply_is(b, p, j0, v));
    assert forall|j: int| 0 <= j < n implies #[trigger] has_reply_at_most(b, p, j, v) by {
        assert(moves[j] != 63);
        lemma_child_is_worst_reply(b, p, j);
        lemma_some_reply_at_most(b, p, j, v);
    }
}

/// Where the search stops, at depth 0 or below, or where the player to move
/// has no move at all, its value is the score of the position for `p`, and
/// the board is left as it was.
pub proof fn law_minimax_leaf(b: BoardView, p: Color, depth: int, maximizing: bool)
    requires
        depth <= 0 || moves_spec(b.cells, b.player, false).len() == 0,
    ensures
        minimax_spec(b, p, depth, maximizing).0 == note_spec(b.cells, p),
        minimax_spec(b, p, depth, maximizing).1 == b,
{
}

} // verus!
