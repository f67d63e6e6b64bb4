//! The collapse of a pending cycle, seen from the invariant of a game: where
//! the cycle is broken, what the cascade wipes, and what is left.

use crate::cascade::{closed_off, faded, lemma_resolve, nine_squares, wiped};
use crate::classical::Mark;
use crate::forest::{
    adj, is_forest, is_ring, layered, lemma_flipped, lemma_forest_has_no_ring, nine_by_nine, simple,
    symmetric,
};
use crate::graph::{no_loops, none_seen, visit, with_edge, without_edge};
use crate::laws::{
    at_most_two, coherent, counted, doubled, lifted, linked, settled_apart, unused_free,
};
use crate::onering::{lemma_beside_in_toward, lemma_one_ring, lemma_uses_new_edge, pair_at, toward};
use crate::quantum::{
    count_upto, holds, lemma_count_none, lemma_count_two, lemma_masks, lemma_moves_none,
    lemma_no_holder, lemma_two_holders, mov_bit, moves_upto, sound,
};
use crate::rules::{
    broken, collapsed, next_in, position, prev_in, resolve, shaped, struck, valid, wrapped,
    BoardView, Move,
};
use crate::traversal::{
    explored, lemma_forest_no_loops, lemma_no_ring_keeps_forest, lemma_report_is_ring, lemma_search,
    lemma_with_edge, rooted,
};
use vstd::arithmetic::div_mod::{
    lemma_fundamental_div_mod_converse, lemma_mod_self_0, lemma_small_mod,
};
use vstd::prelude::*;

verus! {

/// The index after `i` in a cycle of `n` squares.
pub open spec fn succ_idx(i: int, n: int) -> int {
    if i + 1 < n {
        i + 1
    } else {
        0
    }
}

/// The index before `i` in a cycle of `n` squares.
pub open spec fn pred_idx(i: int, n: int) -> int {
    if i > 0 {
        i - 1
    } else {
        n - 1
    }
}

/// Wrapping an index that is one off the cycle brings it to the other end.
pub proof fn lemma_wrapped_beside(i: int, n: int)
    requires
        0 <= i < n,
    ensures
        wrapped(i + 1, n) == succ_idx(i, n),
        wrapped(i - 1, n) == pred_idx(i, n),
{
    if i + 1 < n {
        lemma_small_mod((i + 1) as nat, n as nat);
    } else {
        lemma_mod_self_0(n);
    }
    if i > 0 {
        lemma_small_mod((i - 1) as nat, n as nat);
    } else {
        lemma_fundamental_div_mod_converse(-1, n, -1, n - 1);
    }
}

/// `position` hands back the first index from `from` on that holds `sq`, or
/// the length.
pub proof fn lemma_position(cycle: Seq<u8>, sq: int, from: int)
    requires
        0 <= from <= cycle.len(),
    ensures
        from <= position(cycle, sq, from) <= cycle.len(),
        position(cycle, sq, from) < cycle.len() ==> cycle[position(cycle, sq, from)] == sq,
    decreases cycle.len() - from,
{
    if from < cycle.len() && cycle[from] != sq {
        lemma_position(cycle, sq, from + 1);
    }
}

/// The pending cycle of a coherent state is a pair of squares joined twice,
/// or a ring of a simple graph.
pub open spec fn pair_or_ring(b: BoardView, f: Seq<Seq<u8>>, a: int, c: int) -> bool {
    &&& lifted(b, f, a, c)
    &&& b.cycle[0] == a
    &&& {
        ||| (b.cycle.len() == 2 && b.cycle[1] == c && b.graph[a][c] == 2 && f[a][c] == 1)
        ||| (is_ring(b.graph, b.cycle) && simple(b.graph))
    }
}

/// What a valid collapse at `sq` finds: the forest and the edge that the
/// pending cycle came from, the index `p` of `sq` in the cycle, and beside it
/// the square struck, which is another square of the cycle, joined to `sq`.
pub open spec fn at_collapse(
    b: BoardView,
    sq: int,
    mov: int,
    f: Seq<Seq<u8>>,
    a: int,
    c: int,
    p: int,
) -> bool {
    let n = b.cycle.len() as int;
    let o = struck(b, sq, mov);
    &&& pair_or_ring(b, f, a, c)
    &&& n >= 2
    &&& 0 <= p < n
    &&& b.cycle[p] == sq
    &&& 0 <= sq < 9
    &&& 0 <= mov < 9
    &&& 0 <= o < 9
    &&& o != sq
    &&& (o == b.cycle[succ_idx(p, n)] || o == b.cycle[pred_idx(p, n)])
    &&& adj(b.graph, sq, o)
}

/// A valid collapse in a coherent state stands as `at_collapse` says.
pub proof fn lemma_at_collapse(b: BoardView, sq: u8, mov: u8) -> (r: (Seq<Seq<u8>>, int, int, int))
    requires
        coherent(b),
        valid(b, Move::Collapse { sq, mov }),
    ensures
        at_collapse(b, sq as int, mov as int, r.0, r.1, r.2, r.3),
{
    let (f, a, c) = choose|f: Seq<Seq<u8>>, a: int, c: int| #[trigger] lifted(b, f, a, c);
    lemma_report_is_ring(f, a, c);
    lemma_with_edge(f, a, c);
    let n = b.cycle.len() as int;
    let s = sq as int;
    lemma_position(b.cycle, s, 0);
    let p = position(b.cycle, s, 0);
    lemma_wrapped_beside(p, n);
    let o = struck(b, s, mov as int);
    let nx = succ_idx(p, n);
    let pv = pred_idx(p, n);
    assert(next_in(b.cycle, s) == b.cycle[nx]);
    assert(prev_in(b.cycle, s) == b.cycle[pv]);
    let g = b.graph;
    if b.cycle.len() == 2 && b.cycle[1] == c && g[a][c] == 2 && f[a][c] == 1 {
        assert(nx == 1 - p && pv == 1 - p);
        assert(g[c][a] == g[a][c]);
    } else {
        assert(is_ring(g, b.cycle));
        assert(nx != p && pv != p);
        assert(b.cycle[nx] != b.cycle[p]) by {
            if nx < p {
                assert(b.cycle[nx] != b.cycle[p]);
            } else {
                assert(b.cycle[p] != b.cycle[nx]);
            }
        }
        assert(b.cycle[pv] != b.cycle[p]) by {
            if pv < p {
                assert(b.cycle[pv] != b.cycle[p]);
            } else {
                assert(b.cycle[p] != b.cycle[pv]);
            }
        }
        assert(adj(g, s, b.cycle[nx] as int)) by {
            if p + 1 < n {
                assert(adj(g, b.cycle[p] as int, b.cycle[p + 1] as int));
            }
        }
        assert(adj(g, b.cycle[pv] as int, s)) by {
            if p > 0 {
                assert(adj(g, b.cycle[p - 1] as int, b.cycle[p - 1 + 1] as int));
            }
        }
        assert(g[s][b.cycle[pv] as int] == g[b.cycle[pv] as int][s]);
    }
    (f, a, c, p)
}

/// What the cascade of a valid collapse leaves of the broken state: `sq` is
/// wiped, the rest has faded, and each lost edge has both its squares wiped.
pub proof fn lemma_cascade_of_collapse(b: BoardView, sq: u8, mov: u8)
    requires
        coherent(b),
        valid(b, Move::Collapse { sq, mov }),
    ensures
        ({
            let bs = broken(b, sq as int, mov as int);
            let t = resolve(bs, sq as int, mov_bit(mov as u16));
            let o = struck(b, sq as int, mov as int);
            &&& nine_squares(bs)
            &&& symmetric(bs.graph)
            &&& faded(bs, t)
            &&& closed_off(bs, t)
            &&& wiped(t, sq as int)
            &&& symmetric(t.graph)
            &&& forall|x: int, y: int|
                0 <= x < 9 && 0 <= y < 9 ==> #[trigger] bs.graph[x][y] == (if (x == sq && y == o)
                    || (x == o && y == sq) {
                    0u8
                } else {
                    b.graph[x][y]
                })
        }),
{
    let r = lemma_at_collapse(b, sq, mov);
    let s = sq as int;
    let bs = broken(b, s, mov as int);
    let o = struck(b, s, mov as int);
    let g = b.graph;
    assert(bs.graph == without_edge(g, s, o));
    assert forall|x: int, y: int|
        0 <= x < 9 && 0 <= y < 9 implies #[trigger] bs.graph[x][y] == (if (
    x == s && y == o) || (x == o && y == s) {
        0u8
    } else {
        g[x][y]
    }) by {}
    assert(symmetric(bs.graph)) by {
        assert forall|x: int, y: int| 0 <= x < 9 && 0 <= y < 9 implies #[trigger] bs.graph[x][y]
            == bs.graph[y][x] by {
            assert(g[x][y] == g[y][x]);
        }
    }
    assert(nine_squares(bs));
    lemma_resolve(bs, s, mov_bit(mov as u16));
}

/// A square wiped by the cascade has wiped neighbours: what was joined to it
/// when the cascade began.
pub proof fn lemma_wipe_spreads(bs: BoardView, t: BoardView, x: int, y: int)
    requires
        symmetric(bs.graph),
        closed_off(bs, t),
        0 <= x < 9,
        0 <= y < 9,
        wiped(t, x),
        adj(bs.graph, x, y) || adj(bs.graph, y, x),
    ensures
        wiped(t, y),
{
    assert(bs.graph[x][y] == bs.graph[y][x]);
    assert(t.graph[x][y] == 0);
}

/// Wiping runs down a stretch of the ring whose links all hold.
proof fn lemma_walk_down(bs: BoardView, t: BoardView, ring: Seq<u8>, lo: int, hi: int)
    requires
        symmetric(bs.graph),
        closed_off(bs, t),
        0 <= lo <= hi < ring.len(),
        forall|i: int| 0 <= i < ring.len() ==> #[trigger] ring[i] < 9,
        wiped(t, ring[hi] as int),
        forall|i: int|
            lo <= i < hi ==> adj(bs.graph, #[trigger] ring[i] as int, ring[i + 1] as int),
    ensures
        forall|k: int| lo <= k <= hi ==> wiped(t, #[trigger] ring[k] as int),
    decreases hi - lo,
{
    if lo < hi {
        assert(adj(bs.graph, ring[hi - 1] as int, ring[hi - 1 + 1] as int));
        lemma_wipe_spreads(bs, t, ring[hi] as int, ring[hi - 1] as int);
        lemma_walk_down(bs, t, ring, lo, hi - 1);
    }
}

/// Wiping runs up a stretch of the ring whose links all hold.
proof fn lemma_walk_up(bs: BoardView, t: BoardView, ring: Seq<u8>, lo: int, hi: int)
    requires
        symmetric(bs.graph),
        closed_off(bs, t),
        0 <= lo <= hi < ring.len(),
        forall|i: int| 0 <= i < ring.len() ==> #[trigger] ring[i] < 9,
        wiped(t, ring[lo] as int),
        forall|i: int|
            lo <= i < hi ==> adj(bs.graph, #[trigger] ring[i] as int, ring[i + 1] as int),
    ensures
        forall|k: int| lo <= k <= hi ==> wiped(t, #[trigger] ring[k] as int),
    decreases hi - lo,
{
    if lo < hi {
        assert(adj(bs.graph, ring[lo] as int, ring[lo + 1] as int));
        lemma_wipe_spreads(bs, t, ring[lo] as int, ring[lo + 1] as int);
        lemma_walk_up(bs, t, ring, lo + 1, hi);
    }
}

/// Link `i` of the ring: its square `i` is joined to the square after it.
pub open spec fn link(g: Seq<Seq<u8>>, ring: Seq<u8>, i: int) -> bool {
    adj(g, ring[i] as int, ring[succ_idx(i, ring.len() as int)] as int)
}

/// A ring of which one link at `p` may be broken, the one before or the one
/// after, still joins all its squares to the square at `p`: what wipes that
/// square wipes them all.
proof fn lemma_ring_walk(bs: BoardView, t: BoardView, ring: Seq<u8>, p: int, e: int)
    requires
        symmetric(bs.graph),
        closed_off(bs, t),
        ring.len() >= 3,
        forall|i: int| 0 <= i < ring.len() ==> #[trigger] ring[i] < 9,
        0 <= p < ring.len(),
        e == p || e == pred_idx(p, ring.len() as int),
        forall|i: int| 0 <= i < ring.len() && i != e ==> #[trigger] link(bs.graph, ring, i),
        wiped(t, ring[p] as int),
    ensures
        forall|k: int| 0 <= k < ring.len() ==> wiped(t, #[trigger] ring[k] as int),
{
    let n = ring.len() as int;
    if e == p {
        // broken after `p`: down to the start, over to the end, and down to
        // the square after `p`
        assert forall|i: int| 0 <= i < p implies adj(
            bs.graph,
            #[trigger] ring[i] as int,
            ring[i + 1] as int,
        ) by {
            assert(link(bs.graph, ring, i));
        }
        lemma_walk_down(bs, t, ring, 0, p);
        if p < n - 1 {
            assert(link(bs.graph, ring, n - 1));
            lemma_wipe_spreads(bs, t, ring[0] as int, ring[n - 1] as int);
            assert forall|i: int| p + 1 <= i < n - 1 implies adj(
                bs.graph,
                #[trigger] ring[i] as int,
                ring[i + 1] as int,
            ) by {
                assert(link(bs.graph, ring, i));
            }
            lemma_walk_down(bs, t, ring, p + 1, n - 1);
        }
    } else {
        // broken before `p`: up to the end, over to the start, and up to the
        // square before `p`
        assert forall|i: int| p <= i < n - 1 implies adj(
            bs.graph,
            #[trigger] ring[i] as int,
            ring[i + 1] as int,
        ) by {
            assert(link(bs.graph, ring, i));
        }
        lemma_walk_up(bs, t, ring, p, n - 1);
        if p > 0 {
            assert(link(bs.graph, ring, n - 1));
            lemma_wipe_spreads(bs, t, ring[n - 1] as int, ring[0] as int);
            assert forall|i: int| 0 <= i < p - 1 implies adj(
                bs.graph,
                #[trigger] ring[i] as int,
                ring[i + 1] as int,
            ) by {
                assert(link(bs.graph, ring, i));
            }
            lemma_walk_up(bs, t, ring, 0, p - 1);
        }
    }
}

/// The link of the ring that a collapse breaks: the one after `p` if the
/// square struck is the one after `p`, else the one before `p`.
pub open spec fn struck_link(ring: Seq<u8>, p: int, o: int) -> int {
    if o == ring[succ_idx(p, ring.len() as int)] {
        p
    } else {
        pred_idx(p, ring.len() as int)
    }
}

/// Breaking a ring between the square at `p` and a square beside it leaves
/// every other link of the ring in place.
proof fn lemma_links_hold(g: Seq<Seq<u8>>, h: Seq<Seq<u8>>, ring: Seq<u8>, p: int, o: int, i: int)
    requires
        is_ring(g, ring),
        0 <= p < ring.len(),
        0 <= i < ring.len(),
        o == ring[succ_idx(p, ring.len() as int)] || o == ring[pred_idx(p, ring.len() as int)],
        forall|x: int, y: int|
            0 <= x < 9 && 0 <= y < 9 ==> #[trigger] h[x][y] == (if (x == ring[p] && y == o) || (x
                == o && y == ring[p]) {
                0u8
            } else {
                g[x][y]
            }),
        i != struck_link(ring, p, o),
    ensures
        link(h, ring, i),
{
    let n = ring.len() as int;
    let j = succ_idx(i, n);
    let nx = succ_idx(p, n);
    let pv = pred_idx(p, n);
    assert(adj(g, ring[i] as int, ring[j] as int)) by {
        if i + 1 < n {
            assert(adj(g, ring[i] as int, ring[i + 1] as int));
        }
    }
    assert forall|a: int, b: int| 0 <= a < n && 0 <= b < n && a != b implies ring[a]
        != ring[b] by {
        if a < b {
            assert(ring[a] != ring[b]);
        } else {
            assert(ring[b] != ring[a]);
        }
    }
    assert(ring[i] < 9 && ring[j] < 9);
    assert(nx != pv);
    if ring[i] == ring[p] && ring[j] == o {
        assert(i == p);
        assert(j == nx);
        assert(false);
    }
    if ring[i] == o && ring[j] == ring[p] {
        assert(j == p);
        assert(i == pv);
        assert(o != ring[nx]);
        assert(false);
    }
    assert(h[ring[i] as int][ring[j] as int] == g[ring[i] as int][ring[j] as int]);
}

/// The collapse of a ring wipes every square of the ring: broken in one
/// place only, the ring still joins them all to `sq`.
pub proof fn lemma_ring_wiped(b: BoardView, sq: u8, mov: u8)
    requires
        coherent(b),
        valid(b, Move::Collapse { sq, mov }),
        b.cycle.len() >= 3,
    ensures
        forall|k: int|
            0 <= k < b.cycle.len() ==> wiped(
                resolve(broken(b, sq as int, mov as int), sq as int, mov_bit(mov as u16)),
                #[trigger] b.cycle[k] as int,
            ),
{
    let r = lemma_at_collapse(b, sq, mov);
    lemma_cascade_of_collapse(b, sq, mov);
    let p = r.3;
    let s = sq as int;
    let ring = b.cycle;
    let n = ring.len() as int;
    let bs = broken(b, s, mov as int);
    let t = resolve(bs, s, mov_bit(mov as u16));
    let o = struck(b, s, mov as int);
    let e = struck_link(ring, p, o);
    assert(is_ring(b.graph, ring));
    assert forall|i: int| 0 <= i < n && i != e implies #[trigger] link(bs.graph, ring, i) by {
        lemma_links_hold(b.graph, bs.graph, ring, p, o, i);
    }
    lemma_ring_walk(bs, t, ring, p, e);
}

/// A graph that keeps some of the edges of a forest, and has no other, is a
/// forest.
pub proof fn lemma_part_of_forest(f: Seq<Seq<u8>>, h: Seq<Seq<u8>>)
    requires
        is_forest(f),
        nine_by_nine(h),
        symmetric(h),
        forall|x: int, y: int|
            0 <= x < 9 && 0 <= y < 9 ==> #[trigger] h[x][y] == 0 || h[x][y] == f[x][y],
    ensures
        is_forest(h),
{
    let d = choose|d: Seq<int>| layered(f, d);
    assert forall|x: int, y: int| 0 <= x < 9 && 0 <= y < 9 && adj(h, x, y) implies adj(f, x, y) by {
        assert(h[x][y] == 0 || h[x][y] == f[x][y]);
    }
    assert(layered(h, d)) by {
        assert forall|u: int, v: int|
            0 <= u < 9 && 0 <= v < 9 && #[trigger] adj(h, u, v) implies d[u]
            == d[v] + 1 || d[v] == d[u] + 1 by {
            assert(adj(f, u, v));
        }
        assert forall|u: int, v: int, w: int|
            0 <= u < 9 && 0 <= v < 9 && 0 <= w < 9 && #[trigger] adj(h, u, v) && #[trigger] adj(
                h,
                u,
                w,
            ) && d[v] == d[u] - 1 && d[w] == d[u] - 1 implies v == w by {
            assert(adj(f, u, v));
            assert(adj(f, u, w));
        }
    }
    assert(simple(h)) by {
        assert forall|u: int, v: int| 0 <= u < 9 && 0 <= v < 9 implies #[trigger] h[u][v] <= 1 by {
            assert(f[u][v] <= 1);
        }
    }
}

/// After a valid collapse the graph is a forest: what is left of the forest
/// that the pending cycle came from.
pub proof fn lemma_collapsed_forest(b: BoardView, sq: u8, mov: u8)
    requires
        coherent(b),
        valid(b, Move::Collapse { sq, mov }),
    ensures
        is_forest(collapsed(b, sq as int, mov as int).graph),
{
    let r = lemma_at_collapse(b, sq, mov);
    lemma_cascade_of_collapse(b, sq, mov);
    let f = r.0;
    let a = r.1;
    let c = r.2;
    let p = r.3;
    let s = sq as int;
    let bs = broken(b, s, mov as int);
    let t = resolve(bs, s, mov_bit(mov as u16));
    let o = struck(b, s, mov as int);
    let g = b.graph;
    lemma_with_edge(f, a, c);
    // the edge that closed the cycle is gone
    assert(t.graph[a][c] == 0 && t.graph[c][a] == 0) by {
        if b.cycle.len() == 2 && b.cycle[1] == c && g[a][c] == 2 && f[a][c] == 1 {
            assert((s == a && o == c) || (s == c && o == a));
            assert(bs.graph[a][c] == 0 && bs.graph[c][a] == 0);
        } else {
            lemma_ring_wiped(b, sq, mov);
            assert(wiped(t, b.cycle[0] as int));
        }
    }
    assert forall|x: int, y: int| 0 <= x < 9 && 0 <= y < 9 implies #[trigger] t.graph[x][y] == 0
        || t.graph[x][y] == f[x][y] by {
        if t.graph[x][y] != 0 {
            assert(t.graph[x][y] == bs.graph[x][y]);
            assert(bs.graph[x][y] == g[x][y]);
            assert(!(x == a && y == c) && !(x == c && y == a));
        }
    }
    lemma_part_of_forest(f, t.graph);
}

/// A valid collapse keeps the bounds on how moves are shared: none is in
/// three squares, and two squares that share two are joined twice.
proof fn lemma_collapsed_shares(b: BoardView, sq: u8, mov: u8)
    requires
        coherent(b),
        valid(b, Move::Collapse { sq, mov }),
    ensures
        at_most_two(collapsed(b, sq as int, mov as int).quantum),
        doubled(collapsed(b, sq as int, mov as int)),
        counted(collapsed(b, sq as int, mov as int)),
{
    lemma_cascade_of_collapse(b, sq, mov);
    let s = sq as int;
    let bs = broken(b, s, mov as int);
    let t = resolve(bs, s, mov_bit(mov as u16));
    let u = collapsed(b, s, mov as int);
    let q = b.quantum;
    let q2 = u.quantum;
    assert(u.graph == t.graph && q2 == t.quantum);
    assert forall|x: int, k: int| 0 <= x < 9 && 0 <= k < 9 && #[trigger] holds(
        q2[x],
        k,
    ) implies holds(q[x], k) && !wiped(t, x) by {
        assert(t.quantum[x] == bs.quantum[x] || wiped(t, x));
        lemma_masks(mov_bit(k as u16), 0, k as u16);
    }
    assert(at_most_two(q2)) by {
        assert forall|k: int, x: int, y: int, z: int| 0 <= k < 9 && 0 <= x < y < z < 9 implies !(
        #[trigger] holds(q2[x], k) && #[trigger] holds(q2[y], k) && #[trigger] holds(q2[z], k)) by {
            assert(!(holds(q[x], k) && holds(q[y], k) && holds(q[z], k)));
        }
    }
    assert(counted(u)) by {
        assert forall|x: int, y: int|
            0 <= x < 9 && 0 <= y < 9 && x != y implies #[trigger] u.graph[x][y]
            == moves_upto(q2[x] & q2[y], 9) by {
            assert(t.quantum[x] == bs.quantum[x] || wiped(t, x));
            assert(t.quantum[y] == bs.quantum[y] || wiped(t, y));
            assert(t.graph[x][y] == bs.graph[x][y] || (t.graph[x][y] == 0 && (wiped(t, x) || wiped(
                t,
                y,
            ))));
            if wiped(t, x) || wiped(t, y) {
                lemma_masks(q2[x], q2[y], 0);
                lemma_masks(q2[y], q2[x], 0);
                assert(q2[x] & q2[y] == 0);
                assert forall|m: int| 0 <= m < 9 implies !#[trigger] holds(0u16, m) by {
                    lemma_masks(0, 0, m as u16);
                }
                lemma_moves_none(0u16, 9);
                if wiped(t, x) {
                    assert(t.graph[x][y] == 0);
                } else {
                    assert(t.graph[y][x] == 0 && t.graph[x][y] == 0);
                }
            } else {
                assert(b.graph[x][y] == moves_upto(q[x] & q[y], 9));
            }
        }
    }
    assert(doubled(u)) by {
        assert forall|x: int, y: int, j: int, k: int|
            0 <= x < 9 && 0 <= y < 9 && x != y && 0 <= j < 9 && 0 <= k < 9 && j != k
                && #[trigger] holds(q2[x], j) && #[trigger] holds(q2[y], j) && #[trigger] holds(
                q2[x],
                k,
            ) && #[trigger] holds(q2[y], k) implies u.graph[x][y] >= 2 by {
            assert(holds(q[x], j) && holds(q[y], j) && holds(q[x], k) && holds(q[y], k));
            assert(b.graph[x][y] >= 2);
            assert(t.graph[x][y] == bs.graph[x][y] || (t.graph[x][y] == 0 && (wiped(t, x) || wiped(
                t,
                y,
            ))));
            assert(bs.graph[x][y] == b.graph[x][y]);
        }
    }
}

/// A valid collapse keeps the state coherent.
pub proof fn lemma_collapsed_coherent(b: BoardView, sq: u8, mov: u8)
    requires
        coherent(b),
        valid(b, Move::Collapse { sq, mov }),
    ensures
        coherent(collapsed(b, sq as int, mov as int)),
{
    let r = lemma_at_collapse(b, sq, mov);
    lemma_cascade_of_collapse(b, sq, mov);
    lemma_collapsed_forest(b, sq, mov);
    lemma_collapsed_shares(b, sq, mov);
    let s = sq as int;
    let bs = broken(b, s, mov as int);
    let t = resolve(bs, s, mov_bit(mov as u16));
    let u = collapsed(b, s, mov as int);
    let o = struck(b, s, mov as int);
    let g = b.graph;
    assert(u.graph == t.graph && u.quantum == t.quantum && u.classic == t.classic);
    assert forall|x: int, y: int| 0 <= x < 9 && 0 <= y < 9 implies #[trigger] u.graph[x][y] == 0
        || u.graph[x][y] == g[x][y] by {
        if t.graph[x][y] != 0 {
            assert(t.graph[x][y] == bs.graph[x][y]);
        }
    }
    assert(shaped(u)) by {
        assert forall|x: int, y: int| 0 <= x < 9 && 0 <= y < 9 implies #[trigger] u.graph[x][y]
            <= u.next_mov by {
            assert(g[x][y] <= b.next_mov);
        }
        assert(no_loops(u.graph)) by {
            assert forall|x: int| 0 <= x < 9 implies #[trigger] u.graph[x][x] == 0 by {
                assert(g[x][x] == 0);
            }
        }
    }
    assert(linked(u)) by {
        assert forall|x: int, y: int| 0 <= x < 9 && 0 <= y < 9 && x != y implies (#[trigger] adj(
            u.graph,
            x,
            y,
        ) <==> u.quantum[x] & u.quantum[y] != 0) by {
            lemma_masks(u.quantum[x], u.quantum[y], 0);
            lemma_masks(u.quantum[y], u.quantum[x], 0);
            assert(adj(g, x, y) <==> b.quantum[x] & b.quantum[y] != 0);
            assert(t.quantum[x] == bs.quantum[x] || wiped(t, x));
            assert(t.quantum[y] == bs.quantum[y] || wiped(t, y));
            assert(t.graph[x][y] == bs.graph[x][y] || (t.graph[x][y] == 0 && (wiped(t, x) || wiped(
                t,
                y,
            ))));
            if wiped(t, x) {
                assert(t.graph[x][y] == 0);
            }
            if wiped(t, y) {
                assert(t.graph[y][x] == 0 && t.graph[x][y] == 0);
            }
        }
    }
    assert(settled_apart(u)) by {
        assert forall|x: int|
            0 <= x < 9 && #[trigger] u.classic[x] != Mark::Empty implies u.quantum[x]
            == 0 by {
            assert(t.classic[x] == bs.classic[x] || wiped(t, x));
            assert(t.quantum[x] == bs.quantum[x] || wiped(t, x));
        }
    }
    assert(unused_free(u)) by {
        assert forall|x: int, k: int| 0 <= x < 9 && u.next_mov <= k < 16 implies !#[trigger] holds(
            u.quantum[x],
            k,
        ) by {
            assert(t.quantum[x] == bs.quantum[x] || wiped(t, x));
            assert(!holds(b.quantum[x], k));
            lemma_masks(mov_bit(k as u16), 0, 0);
        }
    }
}

/// The collapse of a ring wipes two squares that were joined together or
/// not at all.
pub proof fn lemma_wiped_together(b: BoardView, sq: u8, mov: u8, x: int, y: int)
    requires
        coherent(b),
        valid(b, Move::Collapse { sq, mov }),
        b.cycle.len() >= 3,
        0 <= x < 9,
        0 <= y < 9,
        adj(b.graph, x, y),
        wiped(resolve(broken(b, sq as int, mov as int), sq as int, mov_bit(mov as u16)), x),
    ensures
        wiped(resolve(broken(b, sq as int, mov as int), sq as int, mov_bit(mov as u16)), y),
{
    let r = lemma_at_collapse(b, sq, mov);
    lemma_cascade_of_collapse(b, sq, mov);
    let s = sq as int;
    let bs = broken(b, s, mov as int);
    let t = resolve(bs, s, mov_bit(mov as u16));
    let o = struck(b, s, mov as int);
    let n = b.cycle.len() as int;
    if (x == s && y == o) || (x == o && y == s) {
        lemma_ring_wiped(b, sq, mov);
        assert(wiped(t, b.cycle[r.3] as int));
        assert(wiped(t, b.cycle[succ_idx(r.3, n)] as int));
        assert(wiped(t, b.cycle[pred_idx(r.3, n)] as int));
    } else {
        assert(bs.graph[x][y] == b.graph[x][y]);
        lemma_wipe_spreads(bs, t, x, y);
    }
}

/// The collapse of a ring keeps the quantum board sound.
pub proof fn lemma_collapsed_sound(b: BoardView, sq: u8, mov: u8)
    requires
        coherent(b),
        valid(b, Move::Collapse { sq, mov }),
        b.cycle.len() >= 3,
        sound(b.quantum),
    ensures
        sound(collapsed(b, sq as int, mov as int).quantum),
{
    lemma_cascade_of_collapse(b, sq, mov);
    let s = sq as int;
    let bs = broken(b, s, mov as int);
    let t = resolve(bs, s, mov_bit(mov as u16));
    let u = collapsed(b, s, mov as int);
    let q = b.quantum;
    let q2 = u.quantum;
    assert(q2 == t.quantum);
    assert forall|x: int| 0 <= x < 9 implies #[trigger] q2[x] == q[x] || (q2[x] == 0 && wiped(
        t,
        x,
    )) by {
        assert(t.quantum[x] == bs.quantum[x] || wiped(t, x));
    }
    assert forall|k: int| 0 <= k < 9 implies #[trigger] count_upto(q2, k, 9) == 0 || count_upto(
        q2,
        k,
        9,
    ) == 2 by {
        lemma_masks(mov_bit(k as u16), 0, k as u16);
        if count_upto(q, k, 9) == 0 {
            lemma_no_holder(q, k, 9);
            assert forall|x: int| 0 <= x < 9 implies !holds(#[trigger] q2[x], k) by {
                assert(q2[x] == q[x] || (q2[x] == 0 && wiped(t, x)));
            }
            lemma_count_none(q2, k, 9);
        } else {
            assert(count_upto(q, k, 9) == 2);
            let (x, y) = lemma_two_holders(q, k, 9);
            assert(holds(q[x], k) && holds(q[y], k));
            lemma_masks(q[x], q[y], k as u16);
            assert(adj(b.graph, x, y));
            assert(b.graph[y][x] == b.graph[x][y]);
            assert(adj(b.graph, y, x));
            if wiped(t, x) || wiped(t, y) {
                if wiped(t, x) {
                    lemma_wiped_together(b, sq, mov, x, y);
                } else {
                    lemma_wiped_together(b, sq, mov, y, x);
                }
                assert forall|z: int| 0 <= z < 9 implies !holds(#[trigger] q2[z], k) by {
                    assert(q2[z] == q[z] || (q2[z] == 0 && wiped(t, z)));
                }
                lemma_count_none(q2, k, 9);
            } else {
                assert forall|z: int| 0 <= z < 9 implies (holds(#[trigger] q2[z], k) <==> z == x
                    || z == y) by {
                    assert(q2[z] == q[z] || (q2[z] == 0 && wiped(t, z)));
                }
                lemma_count_two(q2, k, x, y, 9);
            }
        }
    }
    assert forall|x: int| 0 <= x < 9 implies #[trigger] q2[x] <= 0x1ff by {
        assert(q2[x] == q[x] || (q2[x] == 0 && wiped(t, x)));
        assert(q[x] <= 0x1ff);
    }
}

/// `path` leads through the graph, each of its squares joined to the next.
pub open spec fn is_path(g: Seq<Seq<u8>>, path: Seq<int>) -> bool {
    &&& path.len() >= 1
    &&& forall|i: int| 0 <= i < path.len() ==> 0 <= #[trigger] path[i] < 9
    &&& forall|i: int| 0 <= i < path.len() - 1 ==> adj(g, #[trigger] path[i], path[i + 1])
}

/// Squares `x` and `y` are in one component of the graph: a path leads from
/// one to the other.
pub open spec fn connected(g: Seq<Seq<u8>>, x: int, y: int) -> bool {
    exists|path: Seq<int>|
        #[trigger] is_path(g, path) && path[0] == x && path[path.len() - 1] == y
}

/// The collapse of a ring wipes every square along a path from `sq`.
proof fn lemma_path_wiped(b: BoardView, sq: u8, mov: u8, path: Seq<int>, k: int)
    requires
        coherent(b),
        valid(b, Move::Collapse { sq, mov }),
        b.cycle.len() >= 3,
        is_path(b.graph, path),
        path[0] == sq,
        0 <= k < path.len(),
    ensures
        wiped(resolve(broken(b, sq as int, mov as int), sq as int, mov_bit(mov as u16)), path[k]),
    decreases k,
{
    lemma_cascade_of_collapse(b, sq, mov);
    if k > 0 {
        lemma_path_wiped(b, sq, mov, path, k - 1);
        assert(adj(b.graph, path[k - 1], path[k - 1 + 1]));
        lemma_wiped_together(b, sq, mov, path[k - 1], path[k]);
    }
}

/// The collapse of a ring wipes the whole component of `sq`: each of its
/// squares is left without pending move and without edge; and no cycle is
/// pending after it.
pub proof fn lemma_collapsed_total(b: BoardView, sq: u8, mov: u8)
    requires
        coherent(b),
        valid(b, Move::Collapse { sq, mov }),
        b.cycle.len() >= 3,
    ensures
        collapsed(b, sq as int, mov as int).cycle.len() == 0,
        forall|x: int|
            0 <= x < 9 && #[trigger] connected(b.graph, sq as int, x) ==> wiped(
                collapsed(b, sq as int, mov as int),
                x,
            ),
{
    let s = sq as int;
    let bs = broken(b, s, mov as int);
    let t = resolve(bs, s, mov_bit(mov as u16));
    let u = collapsed(b, s, mov as int);
    assert forall|x: int| 0 <= x < 9 && #[trigger] connected(b.graph, s, x) implies wiped(u, x) by {
        let path = choose|path: Seq<int>|
            #[trigger] is_path(b.graph, path) && path[0] == s && path[path.len() - 1] == x;
        lemma_path_wiped(b, sq, mov, path, path.len() - 1);
        assert(wiped(t, x));
        assert(u.graph == t.graph && u.quantum == t.quantum);
    }
}

/// Graph `h` is graph `g` without the edges between `u` and `v`.
pub open spec fn cut(g: Seq<Seq<u8>>, h: Seq<Seq<u8>>, u: int, v: int) -> bool {
    &&& nine_by_nine(h)
    &&& forall|i: int, j: int|
        0 <= i < 9 && 0 <= j < 9 ==> #[trigger] h[i][j] == (if (i == u && j == v) || (i == v && j
            == u) {
            0u8
        } else {
            g[i][j]
        })
}

/// In a forest with one more edge, a ring from a square of that edge passes
/// along every link of another such ring: no ring from that square is left
/// when one of these links is taken out.
proof fn lemma_no_other_ring(
    f: Seq<Seq<u8>>,
    a: int,
    c: int,
    h: Seq<Seq<u8>>,
    ring: Seq<u8>,
    x: int,
    u: int,
    v: int,
    other: Seq<u8>,
)
    requires
        is_forest(f),
        0 <= a < 9,
        0 <= c < 9,
        a != c,
        is_ring(with_edge(f, a, c), ring),
        ring[0] == a,
        0 <= x < ring.len(),
        ring[x] == u,
        ring[succ_idx(x, ring.len() as int)] == v,
        !(u == a && v == c),
        !(u == c && v == a),
        symmetric(h),
        cut(with_edge(f, a, c), h, u, v),
        is_ring(h, other),
    ensures
        other[0] != a,
{
    if other[0] == a {
        let g = with_edge(f, a, c);
        lemma_with_edge(f, a, c);
        assert(is_ring(g, other)) by {
            assert forall|i: int| 0 <= i < other.len() - 1 implies adj(
                g,
                #[trigger] other[i] as int,
                other[i + 1] as int,
            ) by {
                assert(adj(h, other[i] as int, other[i + 1] as int));
            }
        }
        lemma_one_ring(f, a, c, ring, other);
        lemma_uses_new_edge(f, a, c, ring);
        lemma_beside_in_toward(ring, c, x, succ_idx(x, ring.len() as int), u, v);
        let r = toward(other, c);
        let i = choose|i: int|
            0 <= i < ring.len() - 1 && #[trigger] pair_at(toward(ring, c), i, u, v);
        assert(pair_at(r, i, u, v));
        lemma_flipped(h, other);
        assert(is_ring(h, r));
        assert(adj(h, r[i] as int, r[i + 1] as int));
    }
}

/// A forest with one more edge, which closed a ring, is a forest again
/// without a link of that ring that was in the forest.
proof fn lemma_cut_old_link(
    f: Seq<Seq<u8>>,
    a: int,
    c: int,
    h: Seq<Seq<u8>>,
    ring: Seq<u8>,
    x: int,
    u: int,
    v: int,
)
    requires
        is_forest(f),
        0 <= a < 9,
        0 <= c < 9,
        a != c,
        f[a][c] == 0,
        is_ring(with_edge(f, a, c), ring),
        ring[0] == a,
        0 <= x < ring.len(),
        ring[x] == u,
        ring[succ_idx(x, ring.len() as int)] == v,
        !(u == a && v == c),
        !(u == c && v == a),
        cut(with_edge(f, a, c), h, u, v),
    ensures
        is_forest(h),
{
    let g = with_edge(f, a, c);
    lemma_with_edge(f, a, c);
    let f2 = without_edge(f, u, v);
    assert(u != v) by {
        let y = succ_idx(x, ring.len() as int);
        if x < y {
            assert(ring[x] != ring[y]);
        } else {
            assert(ring[y] != ring[x]);
        }
    }
    assert(cut(f, f2, u, v));
    assert(symmetric(f2)) by {
        assert forall|i: int, j: int| 0 <= i < 9 && 0 <= j < 9 implies #[trigger] f2[i][j]
            == f2[j][i] by {
            assert(f[i][j] == f[j][i]);
        }
    }
    lemma_part_of_forest(f, f2);
    lemma_with_edge(f2, a, c);
    assert(with_edge(f2, a, c) =~~= h) by {
        assert forall|i: int, j: int| 0 <= i < 9 && 0 <= j < 9 implies with_edge(
            f2,
            a,
            c,
        )[i][j] == h[i][j] by {}
    }
    assert forall|other: Seq<u8>| #[trigger] is_ring(with_edge(f2, a, c), other) implies other[0]
        != a by {
        lemma_no_other_ring(f, a, c, h, ring, x, u, v, other);
    }
    lemma_no_ring_keeps_forest(f2, a, c);
}

/// The graph in which the cascade of a valid collapse starts is a forest: the
/// cycle was the only ring, and it is broken.
pub proof fn lemma_broken_forest(b: BoardView, sq: u8, mov: u8)
    requires
        coherent(b),
        valid(b, Move::Collapse { sq, mov }),
    ensures
        is_forest(broken(b, sq as int, mov as int).graph),
{
    let r = lemma_at_collapse(b, sq, mov);
    lemma_cascade_of_collapse(b, sq, mov);
    let f = r.0;
    let a = r.1;
    let c = r.2;
    let p = r.3;
    let s = sq as int;
    let o = struck(b, s, mov as int);
    let g = b.graph;
    let bg = broken(b, s, mov as int).graph;
    let n = b.cycle.len() as int;
    assert(cut(g, bg, s, o) && cut(g, bg, o, s));
    lemma_with_edge(f, a, c);
    if (s == a && o == c) || (s == c && o == a) {
        // the edge that closed the cycle goes: what is left is in the forest
        assert forall|x: int, y: int| 0 <= x < 9 && 0 <= y < 9 implies #[trigger] bg[x][y] == 0
            || bg[x][y] == f[x][y] by {}
        lemma_part_of_forest(f, bg);
    } else {
        assert(is_ring(g, b.cycle) && simple(g));
        assert(f[a][c] == 0) by {
            assert(g[a][c] <= 1);
        }
        if o == b.cycle[succ_idx(p, n)] {
            lemma_cut_old_link(f, a, c, bg, b.cycle, p, s, o);
        } else {
            lemma_cut_old_link(f, a, c, bg, b.cycle, pred_idx(p, n), o, s);
        }
    }
}

/// The component of `sq` in the graph in which the cascade starts is a tree
/// with `sq` at the top: the lemma hands back the squares of the component
/// and their levels.
pub proof fn lemma_broken_tree(b: BoardView, sq: u8, mov: u8) -> (r: (Seq<bool>, Seq<int>))
    requires
        coherent(b),
        valid(b, Move::Collapse { sq, mov }),
    ensures
        explored(broken(b, sq as int, mov as int).graph, r.0, r.1, r.1),
        rooted(sq as int, r.0, r.1),
{
    lemma_broken_forest(b, sq, mov);
    lemma_cascade_of_collapse(b, sq, mov);
    let bg = broken(b, sq as int, mov as int).graph;
    lemma_forest_no_loops(bg);
    let d0 = Seq::new(9, |i: int| 0int);
    let found = lemma_search(bg, sq as int, d0);
    let w = visit(bg, sq as int, -1, none_seen(), Seq::empty());
    lemma_forest_has_no_ring(bg, w.path);
    lemma_forest_has_no_ring(bg, found.1);
    (w.seen, found.0)
}

} // verus!
