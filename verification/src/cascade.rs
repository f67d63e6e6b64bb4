//! What a cascade leaves behind: every square it reaches is wiped, every
//! square and edge it does not reach is as it was, and an edge goes only with
//! both its squares.

use crate::forest::{nine_by_nine, symmetric};
use crate::rules::{handed_on, lemma_live_without_vert, live, resolve, settle, spread, BoardView};
use vstd::prelude::*;

verus! {

/// Square `x` has no pending move and no edge.
pub open spec fn wiped(b: BoardView, x: int) -> bool {
    &&& b.quantum[x] == 0
    &&& forall|y: int| 0 <= y < 9 ==> #[trigger] b.graph[x][y] == 0 && b.graph[y][x] == 0
}

/// Nine squares in each of the three boards.
pub open spec fn nine_squares(b: BoardView) -> bool {
    &&& b.classic.len() == 9
    &&& b.quantum.len() == 9
    &&& nine_by_nine(b.graph)
}

/// State `t` is state `b` with some squares wiped: a mask, a mark or an edge
/// count differs only at a wiped square, where the mask and the count are 0;
/// the move counter and the pending cycle are the same.
pub open spec fn faded(b: BoardView, t: BoardView) -> bool {
    &&& nine_squares(t)
    &&& t.next_mov == b.next_mov
    &&& t.cycle == b.cycle
    &&& forall|x: int| 0 <= x < 9 ==> #[trigger] t.quantum[x] == b.quantum[x] || wiped(t, x)
    &&& forall|x: int| 0 <= x < 9 ==> #[trigger] t.classic[x] == b.classic[x] || wiped(t, x)
    &&& forall|x: int, y: int|
        0 <= x < 9 && 0 <= y < 9 ==> #[trigger] t.graph[x][y] == b.graph[x][y] || (t.graph[x][y]
            == 0 && (wiped(t, x) || wiped(t, y)))
}

/// Every edge of `b` that `t` lacks has both its squares wiped in `t`.
pub open spec fn closed_off(b: BoardView, t: BoardView) -> bool {
    forall|x: int, y: int|
        0 <= x < 9 && 0 <= y < 9 && b.graph[x][y] > 0 && #[trigger] t.graph[x][y] == 0 ==> wiped(
            t,
            x,
        ) && wiped(t, y)
}

/// A square wiped before the squares of `b` faded is wiped after.
pub proof fn lemma_wiped_stays(b: BoardView, t: BoardView, x: int)
    requires
        faded(b, t),
        0 <= x < 9,
        wiped(b, x),
    ensures
        wiped(t, x),
{
    assert(t.quantum[x] == 0);
    assert forall|y: int| 0 <= y < 9 implies #[trigger] t.graph[x][y] == 0 && t.graph[y][x]
        == 0 by {
        assert(b.graph[x][y] == 0 && b.graph[y][x] == 0);
    }
}

/// Fading twice is fading.
pub proof fn lemma_faded_twice(b: BoardView, s: BoardView, t: BoardView)
    requires
        faded(b, s),
        faded(s, t),
    ensures
        faded(b, t),
{
    assert forall|x: int| 0 <= x < 9 && wiped(s, x) implies wiped(t, x) by {
        lemma_wiped_stays(s, t, x);
    }
    assert forall|x: int, y: int| 0 <= x < 9 && 0 <= y < 9 implies #[trigger] t.graph[x][y]
        == b.graph[x][y] || (t.graph[x][y] == 0 && (wiped(t, x) || wiped(t, y))) by {
        if s.graph[x][y] != b.graph[x][y] {
            assert(s.graph[x][y] == 0);
        }
    }
    assert forall|x: int| 0 <= x < 9 implies #[trigger] t.quantum[x] == b.quantum[x] || wiped(
        t,
        x,
    ) by {
        if s.quantum[x] != b.quantum[x] {
            assert(wiped(s, x));
        }
    }
    assert forall|x: int| 0 <= x < 9 implies #[trigger] t.classic[x] == b.classic[x] || wiped(
        t,
        x,
    ) by {
        if s.classic[x] != b.classic[x] {
            assert(wiped(s, x));
        }
    }
}

/// Closing off twice is closing off.
pub proof fn lemma_closed_off_twice(b: BoardView, s: BoardView, t: BoardView)
    requires
        faded(b, s),
        faded(s, t),
        closed_off(b, s),
        closed_off(s, t),
    ensures
        closed_off(b, t),
{
    assert forall|x: int, y: int|
        0 <= x < 9 && 0 <= y < 9 && b.graph[x][y] > 0 && #[trigger] t.graph[x][y] == 0
        implies wiped(
        t,
        x,
    ) && wiped(t, y) by {
        if s.graph[x][y] == 0 {
            lemma_wiped_stays(s, t, x);
            lemma_wiped_stays(s, t, y);
        } else {
            assert(s.graph[x][y] == b.graph[x][y]);
        }
    }
}

/// Settling a square wipes it and fades nothing else.
pub proof fn lemma_settle(b: BoardView, v: int, rem: u16)
    requires
        nine_squares(b),
        symmetric(b.graph),
        0 <= v < 9,
    ensures
        faded(b, settle(b, v, rem)),
        wiped(settle(b, v, rem), v),
        symmetric(settle(b, v, rem).graph),
{
    let s = settle(b, v, rem);
    assert(wiped(s, v));
    assert forall|x: int, y: int| 0 <= x < 9 && 0 <= y < 9 implies #[trigger] s.graph[x][y]
        == s.graph[y][x] by {
        assert(b.graph[x][y] == b.graph[y][x]);
    }
}

/// What the cascade from `v` leaves: `v` is wiped, the rest has faded, each
/// lost edge has both its squares wiped, and the graph is still symmetric
/// and has no more squares with an edge.
pub proof fn lemma_resolve(b: BoardView, v: int, rem: u16)
    requires
        nine_squares(b),
        symmetric(b.graph),
        0 <= v < 9,
    ensures
        faded(b, resolve(b, v, rem)),
        closed_off(b, resolve(b, v, rem)),
        wiped(resolve(b, v, rem), v),
        symmetric(resolve(b, v, rem).graph),
        live(resolve(b, v, rem).graph) <= live(b.graph),
    decreases live(b.graph), 1int, 0int,
{
    let s = settle(b, v, rem);
    let row = b.graph[v];
    let t = resolve(b, v, rem);
    lemma_settle(b, v, rem);
    lemma_live_without_vert(b.graph, v);
    lemma_spread(s, row, handed_on(b, v, rem), 0);
    lemma_faded_twice(b, s, t);
    lemma_wiped_stays(s, t, v);
    assert forall|x: int, y: int|
        0 <= x < 9 && 0 <= y < 9 && b.graph[x][y] > 0 && #[trigger] t.graph[x][y] == 0
        implies wiped(
        t,
        x,
    ) && wiped(t, y) by {
        if s.graph[x][y] == 0 {
            // an edge of `v`: its other square was in the row of `v`
            assert(x == v || y == v);
            assert(b.graph[x][y] == b.graph[y][x]);
            if x == v {
                assert(row[y] > 0);
            } else {
                assert(row[x] > 0);
            }
        }
    }
}

/// What the cascade into the squares of `row` from index `i` on leaves: each
/// of these squares is wiped, the rest has faded.
pub proof fn lemma_spread(b: BoardView, row: Seq<u8>, rem: u16, i: int)
    requires
        nine_squares(b),
        symmetric(b.graph),
        0 <= i <= 9,
    ensures
        faded(b, spread(b, row, rem, i)),
        closed_off(b, spread(b, row, rem, i)),
        forall|j: int| i <= j < 9 && row[j] > 0 ==> wiped(spread(b, row, rem, i), j),
        symmetric(spread(b, row, rem, i).graph),
        live(spread(b, row, rem, i).graph) <= live(b.graph),
    decreases live(b.graph) + crate::rules::rest_live(row, i), 0int, 10 - i,
{
    if i >= 9 {
    } else if row[i] > 0 {
        let t1 = resolve(b, i, rem);
        lemma_resolve(b, i, rem);
        let t = spread(t1, row, rem, i + 1);
        lemma_spread(t1, row, rem, i + 1);
        lemma_faded_twice(b, t1, t);
        lemma_closed_off_twice(b, t1, t);
        lemma_wiped_stays(t1, t, i);
    } else {
        lemma_spread(b, row, rem, i + 1);
    }
}

} // verus!
