//! The cascade on a tree: every square it settles has exactly one of the
//! moves handed on pending, so that it takes a mark; the cascade reaches every
//! square below the one it starts from, each of them once, and no other.

use crate::cascade::{faded, lemma_resolve, lemma_settle, nine_squares, wiped};
use crate::descent::{
    below, is_up, lemma_apart, lemma_below_child, lemma_below_parent, lemma_below_self,
    lemma_beside_below, lemma_child_below, tree_ok, Tree,
};
use crate::forest::{adj, symmetric};
use crate::quantum::{holds, lemma_nine_moves, lemma_shared_but, lemma_single_move, mov_bit};
use crate::rules::{
    decides, handed_on, lemma_live_without_vert, live, mark_for, mark_of_move, resolve, rest_live,
    settle, spread, spread_decides, took_own, BoardView,
};
use vstd::prelude::*;

verus! {

/// Squares `u` and `v` both record move `m`.
pub open spec fn shared(q: Seq<u16>, u: int, v: int, m: int) -> bool {
    holds(q[u], m) && holds(q[v], m)
}

/// The move that squares `u` and `v` share.
pub open spec fn bond(q: Seq<u16>, u: int, v: int) -> int {
    choose|m: int| 0 <= m < 16 && shared(q, u, v, m)
}

/// The masks `q` fit the tree: two squares joined by an edge share one of
/// the nine moves and no other, and no move is in three squares.
#[verifier::opaque]
pub open spec fn bonds_ok(c: Tree, q: Seq<u16>) -> bool {
    &&& q.len() == 9
    &&& forall|u: int, v: int|
        0 <= u < 9 && 0 <= v < 9 && #[trigger] adj(c.g, u, v) ==> 0 <= bond(q, u, v) < 9 && shared(
            q,
            u,
            v,
            bond(q, u, v),
        )
    &&& forall|u: int, v: int, m: int|
        0 <= u < 9 && 0 <= v < 9 && 0 <= m < 16 && adj(c.g, u, v) && #[trigger] shared(q, u, v, m)
            ==> m == bond(q, u, v)
    &&& forall|x: int, y: int, z: int, m: int|
        0 <= x < 9 && 0 <= y < 9 && 0 <= z < 9 && x != y && y != z && x != z && 0 <= m < 16
            && #[trigger] holds(q[x], m) && #[trigger] holds(q[y], m) ==> !#[trigger] holds(
            q[z],
            m,
        )
}

/// Every edge of `s` is an edge of the tree's graph, counted the same.
#[verifier::opaque]
pub open spec fn dimmed(c: Tree, s: BoardView) -> bool {
    forall|x: int, y: int|
        0 <= x < 9 && 0 <= y < 9 ==> #[trigger] s.graph[x][y] == c.g[x][y] || s.graph[x][y] == 0
}

/// What is below `v` is in `s` as it was when the cascade began: the masks
/// are those of `q`, the edges those of the tree.
#[verifier::opaque]
pub open spec fn intact(c: Tree, q: Seq<u16>, s: BoardView, v: int) -> bool {
    &&& forall|x: int| #[trigger] below(c, x, v) ==> s.quantum[x] == q[x]
    &&& forall|x: int, y: int|
        below(c, x, v) && below(c, y, v) ==> #[trigger] s.graph[x][y] == c.g[x][y]
}

/// In `s` no edge joins what is below `v` to the rest.
#[verifier::opaque]
pub open spec fn severed(c: Tree, s: BoardView, v: int) -> bool {
    forall|x: int, y: int|
        0 <= x < 9 && 0 <= y < 9 && below(c, x, v) && !below(c, y, v) ==> #[trigger] s.graph[x][y]
            == 0
}

/// Move `k` is pending at `v` and at none of the squares joined to `v` on the
/// next level.
#[verifier::opaque]
pub open spec fn own_move(c: Tree, q: Seq<u16>, v: int, k: int) -> bool {
    &&& 0 <= k < 9
    &&& holds(q[v], k)
    &&& forall|y: int|
        0 <= y < 9 && #[trigger] adj(c.g, v, y) && c.d[y] == c.d[v] + 1 ==> !holds(q[y], k)
}

/// The cascade may start at `v` in state `s`: what is below `v` is intact
/// and cut off from the rest, and of the moves `rem` exactly move `k` is
/// pending at `v`.
pub open spec fn ready(c: Tree, q: Seq<u16>, s: BoardView, v: int, rem: u16, k: int) -> bool {
    &&& nine_squares(s)
    &&& symmetric(s.graph)
    &&& 0 <= v < 9
    &&& c.seen[v]
    &&& dimmed(c, s)
    &&& intact(c, q, s, v)
    &&& severed(c, s, v)
    &&& own_move(c, q, v, k)
    &&& q[v] & rem == mov_bit(k as u16)
}

/// State `t` is state `s` but for what is below `v`: in `t` each of these
/// squares is wiped and holds the mark of a move that was pending there.
#[verifier::opaque]
pub open spec fn done(c: Tree, q: Seq<u16>, s: BoardView, t: BoardView, v: int) -> bool {
    &&& forall|x: int|
        0 <= x < 9 && !#[trigger] below(c, x, v) ==> t.quantum[x] == s.quantum[x] && t.classic[x]
            == s.classic[x]
    &&& forall|x: int, y: int|
        0 <= x < 9 && 0 <= y < 9 && !(below(c, x, v) && below(c, y, v)) ==> #[trigger] t.graph[x][y]
            == s.graph[x][y]
    &&& forall|x: int| #[trigger] below(c, x, v) ==> took_own(q, t.classic, x) && wiped(t, x)
}

/// Square `x` is below one of the squares at which `row` has an edge, from
/// index `i` on.
pub open spec fn under(c: Tree, row: Seq<u8>, i: int, x: int) -> bool {
    exists|j: int| i <= j < 9 && row[j] > 0 && #[trigger] below(c, x, j)
}

/// State `t` is state `s` but for what is under `row` from index `i` on: in
/// `t` each of these squares is wiped and holds the mark of a move that was
/// pending there.
#[verifier::opaque]
pub open spec fn spread_done(
    c: Tree,
    q: Seq<u16>,
    s: BoardView,
    t: BoardView,
    row: Seq<u8>,
    i: int,
) -> bool {
    &&& forall|x: int|
        0 <= x < 9 && !#[trigger] under(c, row, i, x) ==> t.quantum[x] == s.quantum[x]
            && t.classic[x] == s.classic[x]
    &&& forall|x: int, y: int|
        0 <= x < 9 && 0 <= y < 9 && !(under(c, row, i, x) && under(c, row, i, y))
            ==> #[trigger] t.graph[x][y] == s.graph[x][y]
    &&& forall|x: int| #[trigger] under(c, row, i, x) ==> took_own(q, t.classic, x) && wiped(t, x)
}

/// The cascade stands at `v`, which is settled, before index `i` of its row:
/// the row holds the squares joined to `v` on the next level, those from `i`
/// on are intact and cut off, and the moves handed on are those of `v` but
/// for its own.
pub open spec fn spreading(
    c: Tree,
    q: Seq<u16>,
    s: BoardView,
    v: int,
    row: Seq<u8>,
    rem: u16,
    k: int,
    i: int,
) -> bool {
    &&& nine_squares(s)
    &&& symmetric(s.graph)
    &&& 0 <= v < 9
    &&& 0 <= i <= 9
    &&& c.seen[v]
    &&& dimmed(c, s)
    &&& wiped(s, v)
    &&& own_move(c, q, v, k)
    &&& rem == q[v] & !mov_bit(k as u16)
    &&& children(c, v, row)
    &&& waiting(c, q, s, row, i)
}

/// `row` has an edge just at the squares joined to `v` on the next level.
#[verifier::opaque]
pub open spec fn children(c: Tree, v: int, row: Seq<u8>) -> bool {
    forall|j: int|
        0 <= j < 9 ==> (#[trigger] row[j] > 0 <==> adj(c.g, v, j) && c.d[j] == c.d[v] + 1)
}

/// The squares of `row` from index `i` on are intact and cut off.
#[verifier::opaque]
pub open spec fn waiting(c: Tree, q: Seq<u16>, s: BoardView, row: Seq<u8>, i: int) -> bool {
    forall|j: int|
        i <= j < 9 && #[trigger] row[j] > 0 ==> intact(c, q, s, j) && severed(c, s, j)
}

/// A decision on one of the nine moves gives the mark of the player who made
/// the move.
pub proof fn lemma_mark_given(k: int)
    requires
        0 <= k < 9,
    ensures
        mark_for(mov_bit(k as u16)) == Some(mark_of_move(k)),
{
    lemma_nine_moves(k as u16);
}

/// Settling `v` leaves the cascade standing at `v`, before the first index
/// of its row, and gives `v` a mark.
proof fn lemma_settled(c: Tree, q: Seq<u16>, s: BoardView, v: int, rem: u16, k: int)
    requires
        tree_ok(c),
        bonds_ok(c, q),
        ready(c, q, s, v, rem, k),
    ensures
        mark_for(s.quantum[v] & rem) is Some,
        settle(s, v, rem).classic[v] == mark_of_move(k),
        spreading(c, q, settle(s, v, rem), v, s.graph[v], handed_on(s, v, rem), k, 0),
{
    let s1 = settle(s, v, rem);
    let row = s.graph[v];
    lemma_below_self(c, v);
    lemma_settle(s, v, rem);
    assert(s.quantum[v] == q[v]) by {
        reveal(intact);
    }
    assert(0 <= k < 9 && holds(q[v], k)) by {
        reveal(own_move);
    }
    lemma_mark_given(k);
    lemma_shared_but(rem, q[v], k as u16, k as u16);
    assert(handed_on(s, v, rem) == q[v] & !mov_bit(k as u16));
    assert(dimmed(c, s1)) by {
        reveal(dimmed);
    }
    assert(children(c, v, row)) by {
        reveal(children);
        reveal(intact);
        reveal(severed);
        assert forall|j: int| 0 <= j < 9 implies (#[trigger] row[j] > 0 <==> adj(c.g, v, j)
            && c.d[j] == c.d[v] + 1) by {
            if adj(c.g, v, j) && c.d[j] == c.d[v] + 1 {
                lemma_child_below(c, v, j);
            }
            if below(c, j, v) {
                assert(s.graph[v][j] == c.g[v][j]);
                if adj(c.g, v, j) {
                    assert(c.seen[j]);
                }
            } else {
                assert(s.graph[v][j] == 0);
            }
        }
    }
    assert(waiting(c, q, s1, row, 0)) by {
        reveal(waiting);
        assert forall|j: int| 0 <= j < 9 && #[trigger] row[j] > 0 implies intact(c, q, s1, j)
            && severed(c, s1, j) by {
            reveal(children);
            lemma_child_below(c, v, j);
            assert(is_up(c, j, v)) by {
                assert(c.g[j][v] == c.g[v][j]);
            }
            lemma_child_waits(c, q, s, v, rem, j);
        }
    }
}

/// After `v` is settled, what is below a square joined to `v` on the next
/// level is still intact, and cut off from the rest.
proof fn lemma_child_waits(c: Tree, q: Seq<u16>, s: BoardView, v: int, rem: u16, j: int)
    requires
        tree_ok(c),
        nine_squares(s),
        symmetric(s.graph),
        0 <= v < 9,
        0 <= j < 9,
        c.seen[v],
        c.seen[j],
        is_up(c, j, v),
        intact(c, q, s, v),
        severed(c, s, v),
    ensures
        intact(c, q, settle(s, v, rem), j),
        severed(c, settle(s, v, rem), j),
{
    let s1 = settle(s, v, rem);
    reveal(intact);
    reveal(severed);
    assert forall|x: int| #[trigger] below(c, x, j) implies x != v && below(c, x, v) by {
        lemma_below_parent(c, x, j, v);
    }
    assert forall|x: int| #[trigger] below(c, x, j) implies s1.quantum[x] == q[x] by {}
    assert forall|x: int, y: int| below(c, x, j) && below(c, y, j) implies #[trigger] s1.graph[x][y]
        == c.g[x][y] by {
        assert(s.graph[x][y] == c.g[x][y]);
    }
    assert forall|x: int, y: int|
        0 <= x < 9 && 0 <= y < 9 && below(c, x, j) && !below(c, y, j)
        implies #[trigger] s1.graph[x][y]
        == 0 by {
        if y != v {
            assert(s1.graph[x][y] == s.graph[x][y]);
            if below(c, y, v) {
                assert(s.graph[x][y] == c.g[x][y]);
                if adj(c.g, x, y) {
                    lemma_beside_below(c, x, j, y);
                    crate::descent::lemma_up_is(c, j, v);
                    crate::descent::lemma_up_is(c, j, y);
                }
            }
        }
    }
}

/// No move is pending in three squares.
proof fn lemma_not_third(c: Tree, q: Seq<u16>, x: int, y: int, z: int, m: int)
    requires
        bonds_ok(c, q),
        0 <= x < 9,
        0 <= y < 9,
        0 <= z < 9,
        x != y,
        y != z,
        x != z,
        0 <= m < 16,
        holds(q[x], m),
        holds(q[y], m),
    ensures
        !holds(q[z], m),
{
    reveal(bonds_ok);
}

/// The cascade may go on into square `i` of the row of `v`: of the moves
/// handed on, exactly the one that `i` shares with `v` is pending at `i`.
proof fn lemma_child_ready(
    c: Tree,
    q: Seq<u16>,
    s: BoardView,
    v: int,
    row: Seq<u8>,
    rem: u16,
    k: int,
    i: int,
)
    requires
        tree_ok(c),
        bonds_ok(c, q),
        spreading(c, q, s, v, row, rem, k, i),
        i < 9,
        row[i] > 0,
    ensures
        ready(c, q, s, i, rem, bond(q, v, i)),
{
    let ki = bond(q, v, i);
    assert(adj(c.g, v, i) && c.d[i] == c.d[v] + 1) by {
        reveal(children);
    }
    lemma_child_below(c, v, i);
    assert(intact(c, q, s, i) && severed(c, s, i)) by {
        reveal(waiting);
    }
    assert(0 <= ki < 9 && shared(q, v, i, ki)) by {
        reveal(bonds_ok);
    }
    assert(0 <= k < 9 && holds(q[v], k) && !holds(q[i], k)) by {
        reveal(own_move);
    }
    assert(own_move(c, q, i, ki)) by {
        reveal(own_move);
        assert forall|y: int|
            0 <= y < 9 && #[trigger] adj(c.g, i, y) && c.d[y] == c.d[i] + 1 implies !holds(
            q[y],
            ki,
        ) by {
            lemma_not_third(c, q, v, i, y, ki);
        }
    }
    let x = q[i] & rem;
    assert forall|m: int| 0 <= m < 16 implies (#[trigger] holds(x, m) <==> m == ki) by {
        lemma_shared_but(q[i], q[v], k as u16, m as u16);
        if holds(q[i], m) && holds(q[v], m) {
            assert(shared(q, v, i, m));
            assert(m == ki) by {
                reveal(bonds_ok);
            }
        }
    }
    lemma_single_move(x, ki);
}

/// After the cascade from square `i` of the row of `v`, the cascade stands
/// before the next index.
proof fn lemma_child_done(
    c: Tree,
    q: Seq<u16>,
    s: BoardView,
    t: BoardView,
    v: int,
    row: Seq<u8>,
    rem: u16,
    k: int,
    i: int,
)
    requires
        tree_ok(c),
        spreading(c, q, s, v, row, rem, k, i),
        i < 9,
        row[i] > 0,
        nine_squares(t),
        symmetric(t.graph),
        dimmed(c, t),
        done(c, q, s, t, i),
    ensures
        spreading(c, q, t, v, row, rem, k, i + 1),
{
    assert(adj(c.g, v, i) && c.d[i] == c.d[v] + 1) by {
        reveal(children);
    }
    lemma_child_below(c, v, i);
    assert(!below(c, v, i));
    assert(wiped(t, v)) by {
        reveal(done);
        assert forall|y: int| 0 <= y < 9 implies #[trigger] t.graph[v][y] == 0 && t.graph[y][v]
            == 0 by {
            assert(s.graph[v][y] == 0 && s.graph[y][v] == 0);
            assert(!(below(c, v, i) && below(c, y, i)));
            assert(!(below(c, y, i) && below(c, v, i)));
            assert(t.graph[v][y] == s.graph[v][y]);
            assert(t.graph[y][v] == s.graph[y][v]);
        }
    }
    assert(waiting(c, q, t, row, i + 1)) by {
        reveal(waiting);
        assert forall|j: int| i + 1 <= j < 9 && #[trigger] row[j] > 0 implies intact(c, q, t, j)
            && severed(c, t, j) by {
            assert(intact(c, q, s, j) && severed(c, s, j));
            assert(adj(c.g, v, j) && c.d[j] == c.d[v] + 1) by {
                reveal(children);
            }
            assert forall|x: int| #[trigger] below(c, x, j) implies !below(c, x, i) by {
                if below(c, x, i) {
                    lemma_apart(c, x, i, j);
                }
            }
            reveal(done);
            reveal(intact);
            reveal(severed);
            assert forall|x: int| #[trigger] below(c, x, j) implies t.quantum[x] == q[x] by {}
            assert forall|x: int, y: int|
                below(c, x, j) && below(c, y, j) implies #[trigger] t.graph[x][y]
                == c.g[x][y] by {
                assert(s.graph[x][y] == c.g[x][y]);
            }
            assert forall|x: int, y: int|
                0 <= x < 9 && 0 <= y < 9 && below(c, x, j) && !below(c, y, j)
                implies #[trigger] t.graph[x][y]
                == 0 by {
                assert(s.graph[x][y] == 0);
            }
        }
    }
}

/// What is under the row of `v` is below `v`, and is not `v`.
proof fn lemma_under_below(c: Tree, v: int, row: Seq<u8>, i: int, x: int)
    requires
        tree_ok(c),
        0 <= v < 9,
        0 <= i,
        c.seen[v],
        children(c, v, row),
        under(c, row, i, x),
    ensures
        below(c, x, v),
        x != v,
{
    let j = choose|j: int| i <= j < 9 && row[j] > 0 && #[trigger] below(c, x, j);
    assert(adj(c.g, v, j) && c.d[j] == c.d[v] + 1) by {
        reveal(children);
    }
    lemma_child_below(c, v, j);
    assert(is_up(c, j, v)) by {
        assert(c.g[j][v] == c.g[v][j]);
    }
    lemma_below_parent(c, x, j, v);
}

/// The cascade from `v`, put together: `v` is settled, and what is under its
/// row is done.
proof fn lemma_join_settled(
    c: Tree,
    q: Seq<u16>,
    s: BoardView,
    t: BoardView,
    v: int,
    rem: u16,
    k: int,
)
    requires
        tree_ok(c),
        ready(c, q, s, v, rem, k),
        children(c, v, s.graph[v]),
        settle(s, v, rem).classic[v] == mark_of_move(k),
        spread_done(c, q, settle(s, v, rem), t, s.graph[v], 0),
    ensures
        done(c, q, s, t, v),
        t.classic[v] == settle(s, v, rem).classic[v],
{
    let s1 = settle(s, v, rem);
    let row = s.graph[v];
    lemma_below_self(c, v);
    assert forall|x: int| under(c, row, 0, x) implies below(c, x, v) && x != v by {
        lemma_under_below(c, v, row, 0, x);
    }
    assert forall|x: int| below(c, x, v) && x != v implies under(c, row, 0, x) by {
        let j = lemma_below_child(c, x, v);
        assert(row[j] > 0) by {
            reveal(children);
        }
        assert(below(c, x, j));
    }
    reveal(done);
    reveal(spread_done);
    assert forall|x: int| 0 <= x < 9 && !#[trigger] below(c, x, v) implies t.quantum[x]
        == s.quantum[x] && t.classic[x] == s.classic[x] by {
        assert(!under(c, row, 0, x));
    }
    assert forall|x: int, y: int|
        0 <= x < 9 && 0 <= y < 9 && !(below(c, x, v) && below(c, y, v))
        implies #[trigger] t.graph[x][y]
        == s.graph[x][y] by {
        assert(!(under(c, row, 0, x) && under(c, row, 0, y)));
        assert(t.graph[x][y] == s1.graph[x][y]);
        if x == v || y == v {
            reveal(severed);
            assert(s.graph[x][y] == s.graph[y][x]);
            if x == v {
                assert(s.graph[v][y] == 0);
            } else {
                assert(s.graph[v][x] == 0);
            }
        }
    }
    assert forall|x: int| #[trigger] below(c, x, v) implies took_own(q, t.classic, x) && wiped(
        t,
        x,
    ) by {
        if x == v {
            assert(!under(c, row, 0, v));
            assert(t.quantum[v] == s1.quantum[v]);
            assert(0 <= k < 9 && holds(q[v], k)) by {
                reveal(own_move);
            }
            assert forall|y: int| 0 <= y < 9 implies #[trigger] t.graph[v][y] == 0 && t.graph[y][v]
                == 0 by {
                assert(t.graph[v][y] == s1.graph[v][y]);
                assert(t.graph[y][v] == s1.graph[y][v]);
            }
        }
    }
}

/// The cascade into the row from index `i` on, put together: what is below
/// square `i` is done, then what is under the row from the next index on.
proof fn lemma_join_child(
    c: Tree,
    q: Seq<u16>,
    s: BoardView,
    t1: BoardView,
    t: BoardView,
    v: int,
    row: Seq<u8>,
    i: int,
)
    requires
        tree_ok(c),
        0 <= v < 9,
        0 <= i < 9,
        c.seen[v],
        children(c, v, row),
        row[i] > 0,
        done(c, q, s, t1, i),
        spread_done(c, q, t1, t, row, i + 1),
    ensures
        spread_done(c, q, s, t, row, i),
{
    assert forall|x: int| #[trigger] under(c, row, i, x) <==> below(c, x, i) || under(
        c,
        row,
        i + 1,
        x,
    ) by {
        if under(c, row, i, x) {
            let j = choose|j: int| i <= j < 9 && row[j] > 0 && #[trigger] below(c, x, j);
            if j != i {
                assert(below(c, x, j));
            }
        }
        if under(c, row, i + 1, x) {
            let j = choose|j: int| i + 1 <= j < 9 && row[j] > 0 && #[trigger] below(c, x, j);
            assert(below(c, x, j));
        }
        if below(c, x, i) {
        }
    }
    assert forall|x: int| below(c, x, i) implies !under(c, row, i + 1, x) by {
        if under(c, row, i + 1, x) {
            let j = choose|j: int| i + 1 <= j < 9 && row[j] > 0 && #[trigger] below(c, x, j);
            reveal(children);
            lemma_apart(c, x, i, j);
        }
    }
    reveal(done);
    reveal(spread_done);
    assert forall|x: int| 0 <= x < 9 && !#[trigger] under(c, row, i, x) implies t.quantum[x]
        == s.quantum[x] && t.classic[x] == s.classic[x] by {
        assert(!below(c, x, i));
        assert(!under(c, row, i + 1, x));
    }
    assert forall|x: int, y: int|
        0 <= x < 9 && 0 <= y < 9 && !(under(c, row, i, x) && under(c, row, i, y))
        implies #[trigger] t.graph[x][y]
        == s.graph[x][y] by {
        assert(t1.graph[x][y] == s.graph[x][y]);
        assert(t.graph[x][y] == t1.graph[x][y]);
    }
    assert forall|x: int| #[trigger] under(c, row, i, x) implies took_own(q, t.classic, x)
        && wiped(t, x) by {
        if below(c, x, i) {
            assert(!under(c, row, i + 1, x));
            assert(t.quantum[x] == t1.quantum[x]);
            assert(t.classic[x] == t1.classic[x]);
            assert(took_own(q, t1.classic, x));
            let m = choose|m: int|
                0 <= m < 9 && #[trigger] holds(q[x], m) && t1.classic[x] == mark_of_move(m);
            assert(holds(q[x], m) && t.classic[x] == mark_of_move(m));
            assert(wiped(t1, x));
            assert forall|y: int| 0 <= y < 9 implies #[trigger] t.graph[x][y] == 0 && t.graph[y][x]
                == 0 by {
                assert(t.graph[x][y] == t1.graph[x][y]);
                assert(t.graph[y][x] == t1.graph[y][x]);
            }
        }
    }
}

/// The row has no edge at index `i`: what is done from the next index on is
/// done from `i` on.
proof fn lemma_join_skip(
    c: Tree,
    q: Seq<u16>,
    s: BoardView,
    t: BoardView,
    row: Seq<u8>,
    i: int,
)
    requires
        0 <= i < 9,
        row[i] == 0,
        spread_done(c, q, s, t, row, i + 1),
    ensures
        spread_done(c, q, s, t, row, i),
{
    assert forall|x: int| #[trigger] under(c, row, i, x) <==> under(c, row, i + 1, x) by {
        if under(c, row, i, x) {
            let j = choose|j: int| i <= j < 9 && row[j] > 0 && #[trigger] below(c, x, j);
            assert(below(c, x, j));
        }
        if under(c, row, i + 1, x) {
            let j = choose|j: int| i + 1 <= j < 9 && row[j] > 0 && #[trigger] below(c, x, j);
            assert(below(c, x, j));
        }
    }
    reveal(spread_done);
}

/// A state that fades stays dimmed.
proof fn lemma_dimmed_fades(c: Tree, s: BoardView, t: BoardView)
    requires
        dimmed(c, s),
        faded(s, t),
    ensures
        dimmed(c, t),
{
    reveal(dimmed);
    assert forall|x: int, y: int| 0 <= x < 9 && 0 <= y < 9 implies #[trigger] t.graph[x][y]
        == c.g[x][y] || t.graph[x][y] == 0 by {
        assert(s.graph[x][y] == c.g[x][y] || s.graph[x][y] == 0);
    }
}

/// The cascade from a square that is ready decides a mark at every square it
/// settles, and leaves what is below the square done.
pub proof fn lemma_decide(c: Tree, q: Seq<u16>, s: BoardView, v: int, rem: u16, k: int)
    requires
        tree_ok(c),
        bonds_ok(c, q),
        ready(c, q, s, v, rem, k),
    ensures
        nine_squares(resolve(s, v, rem)),
        symmetric(resolve(s, v, rem).graph),
        dimmed(c, resolve(s, v, rem)),
        done(c, q, s, resolve(s, v, rem), v),
        decides(s, v, rem),
        resolve(s, v, rem).classic[v] == mark_of_move(k),
        live(resolve(s, v, rem).graph) <= live(s.graph),
    decreases live(s.graph), 1int, 0int,
{
    let s1 = settle(s, v, rem);
    let row = s.graph[v];
    let rem1 = handed_on(s, v, rem);
    let t = resolve(s, v, rem);
    lemma_resolve(s, v, rem);
    lemma_dimmed_fades(c, s, t);
    lemma_settled(c, q, s, v, rem, k);
    lemma_live_without_vert(s.graph, v);
    lemma_spread_decide(c, q, s1, v, row, rem1, k, 0);
    lemma_join_settled(c, q, s, t, v, rem, k);
}

/// The cascade into the row of a settled square decides a mark at every
/// square it settles, and leaves what is under the row done.
pub proof fn lemma_spread_decide(
    c: Tree,
    q: Seq<u16>,
    s: BoardView,
    v: int,
    row: Seq<u8>,
    rem: u16,
    k: int,
    i: int,
)
    requires
        tree_ok(c),
        bonds_ok(c, q),
        spreading(c, q, s, v, row, rem, k, i),
    ensures
        spread_done(c, q, s, spread(s, row, rem, i), row, i),
        spread_decides(s, row, rem, i),
    decreases live(s.graph) + rest_live(row, i), 0int, 10 - i,
{
    let t = spread(s, row, rem, i);
    if i >= 9 {
        assert(spread_done(c, q, s, s, row, i)) by {
            reveal(spread_done);
        }
    } else if row[i] > 0 {
        let ki = bond(q, v, i);
        lemma_child_ready(c, q, s, v, row, rem, k, i);
        lemma_decide(c, q, s, i, rem, ki);
        let t1 = resolve(s, i, rem);
        lemma_child_done(c, q, s, t1, v, row, rem, k, i);
        lemma_spread_decide(c, q, t1, v, row, rem, k, i + 1);
        lemma_join_child(c, q, s, t1, t, v, row, i);
    } else {
        assert(spreading(c, q, s, v, row, rem, k, i + 1)) by {
            reveal(waiting);
        }
        lemma_spread_decide(c, q, s, v, row, rem, k, i + 1);
        lemma_join_skip(c, q, s, t, row, i);
    }
}

} // verus!
