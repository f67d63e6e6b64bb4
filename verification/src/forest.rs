//! Graphs without cycles: what a ring is, what a forest is, and why a forest
//! holds no ring.

use crate::graph::with_edge;
use vstd::prelude::*;

verus! {

/// Squares `u` and `v` are joined by an edge.
pub open spec fn adj(g: Seq<Seq<u8>>, u: int, v: int) -> bool {
    g[u][v] > 0
}

/// Nine rows of nine counts.
pub open spec fn nine_by_nine(g: Seq<Seq<u8>>) -> bool {
    &&& g.len() == 9
    &&& forall|u: int| 0 <= u < 9 ==> (#[trigger] g[u]).len() == 9
}

/// Every edge is counted the same from both of its squares.
pub open spec fn symmetric(g: Seq<Seq<u8>>) -> bool {
    forall|u: int, v: int| 0 <= u < 9 && 0 <= v < 9 ==> #[trigger] g[u][v] == g[v][u]
}

/// No two squares are joined by more than one edge.
pub open spec fn simple(g: Seq<Seq<u8>>) -> bool {
    forall|u: int, v: int| 0 <= u < 9 && 0 <= v < 9 ==> #[trigger] g[u][v] <= 1
}

/// `ring` is a cycle of `g`: at least three different squares, each joined to
/// the next and the last to the first.
pub open spec fn is_ring(g: Seq<Seq<u8>>, ring: Seq<u8>) -> bool {
    &&& ring.len() >= 3
    &&& forall|i: int| 0 <= i < ring.len() ==> #[trigger] ring[i] < 9
    &&& forall|i: int, j: int| 0 <= i < j < ring.len() ==> ring[i] != ring[j]
    &&& forall|i: int|
        0 <= i < ring.len() - 1 ==> adj(g, #[trigger] ring[i] as int, ring[i + 1] as int)
    &&& adj(g, ring[ring.len() - 1] as int, ring[0] as int)
}

/// The levels `d` lay `g` out as a forest: every edge joins two squares on
/// neighbouring levels, and no square is joined to two squares on the level
/// before its own.
pub open spec fn layered(g: Seq<Seq<u8>>, d: Seq<int>) -> bool {
    &&& d.len() == 9
    &&& forall|u: int, v: int|
        0 <= u < 9 && 0 <= v < 9 && #[trigger] adj(g, u, v) ==> d[u] == d[v] + 1 || d[v] == d[u]
            + 1
    &&& forall|u: int, v: int, w: int|
        0 <= u < 9 && 0 <= v < 9 && 0 <= w < 9 && #[trigger] adj(g, u, v) && #[trigger] adj(
            g,
            u,
            w,
        ) && d[v] == d[u] - 1 && d[w] == d[u] - 1 ==> v == w
}

/// `g` is a forest: symmetric, simple, and laid out by some levels.
pub open spec fn is_forest(g: Seq<Seq<u8>>) -> bool {
    &&& nine_by_nine(g)
    &&& symmetric(g)
    &&& simple(g)
    &&& exists|d: Seq<int>| layered(g, d)
}

/// An index of `ring` below `n` whose square has the last level among the
/// first `n`.
proof fn lemma_highest(ring: Seq<u8>, d: Seq<int>, n: int) -> (m: int)
    requires
        1 <= n <= ring.len(),
    ensures
        0 <= m < n,
        forall|i: int| 0 <= i < n ==> d[#[trigger] ring[i] as int] <= d[ring[m] as int],
    decreases n,
{
    if n == 1 {
        0
    } else {
        let m = lemma_highest(ring, d, n - 1);
        if d[ring[n - 1] as int] > d[ring[m] as int] {
            n - 1
        } else {
            m
        }
    }
}

/// A graph laid out by levels holds no ring: a square of a ring on its last
/// level would have both its neighbours in the ring on the level before.
pub proof fn lemma_layered_has_no_ring(g: Seq<Seq<u8>>, d: Seq<int>, ring: Seq<u8>)
    requires
        symmetric(g),
        layered(g, d),
    ensures
        !is_ring(g, ring),
{
    if is_ring(g, ring) {
        let n = ring.len() as int;
        let m = lemma_highest(ring, d, n);
        let before = if m == 0 {
            n - 1
        } else {
            m - 1
        };
        let after = if m == n - 1 {
            0
        } else {
            m + 1
        };
        let top = ring[m] as int;
        let p = ring[before] as int;
        let q = ring[after] as int;
        assert(adj(g, p, top)) by {
            if m == 0 {
            } else {
                assert(adj(g, ring[m - 1] as int, ring[m - 1 + 1] as int));
            }
        }
        assert(adj(g, top, q)) by {
            if m == n - 1 {
            } else {
                assert(adj(g, ring[m] as int, ring[m + 1] as int));
            }
        }
        assert(g[top][p] == g[p][top]);
        assert(adj(g, top, p));
        assert(d[p] <= d[top]);
        assert(d[q] <= d[top]);
        assert(p != q) by {
            if before < after {
                assert(ring[before] != ring[after]);
            } else {
                assert(ring[after] != ring[before]);
            }
        }
        assert(false);
    }
}

/// A forest holds no ring.
pub proof fn lemma_forest_has_no_ring(g: Seq<Seq<u8>>, ring: Seq<u8>)
    requires
        is_forest(g),
    ensures
        !is_ring(g, ring),
{
    let d = choose|d: Seq<int>| layered(g, d);
    lemma_layered_has_no_ring(g, d, ring);
}

/// `ring` passes through square `a`.
pub open spec fn passes(ring: Seq<u8>, a: int) -> bool {
    exists|i: int| 0 <= i < ring.len() && #[trigger] ring[i] == a
}

/// A ring of a forest with one more edge passes through both squares of that
/// edge.
pub proof fn lemma_ring_passes_new_edge(g: Seq<Seq<u8>>, a: int, b: int, ring: Seq<u8>)
    requires
        is_forest(g),
        0 <= a < 9,
        0 <= b < 9,
        a != b,
        is_ring(with_edge(g, a, b), ring),
    ensures
        passes(ring, a),
        passes(ring, b),
{
    let h = with_edge(g, a, b);
    assert forall|u: int, v: int| 0 <= u < 9 && 0 <= v < 9 && u != a && v != a implies h[u][v]
        == g[u][v] by {}
    assert forall|u: int, v: int| 0 <= u < 9 && 0 <= v < 9 && u != b && v != b implies h[u][v]
        == g[u][v] by {}
    if !passes(ring, a) {
        assert forall|i: int| 0 <= i < ring.len() implies #[trigger] ring[i] != a by {}
        assert(is_ring(g, ring)) by {
            assert forall|i: int| 0 <= i < ring.len() - 1 implies adj(
                g,
                #[trigger] ring[i] as int,
                ring[i + 1] as int,
            ) by {
                assert(adj(h, ring[i] as int, ring[i + 1] as int));
                assert(ring[i + 1] != a);
            }
            assert(ring[ring.len() - 1] != a);
            assert(ring[0] != a);
        }
        lemma_forest_has_no_ring(g, ring);
    }
    if !passes(ring, b) {
        assert forall|i: int| 0 <= i < ring.len() implies #[trigger] ring[i] != b by {}
        assert(is_ring(g, ring)) by {
            assert forall|i: int| 0 <= i < ring.len() - 1 implies adj(
                g,
                #[trigger] ring[i] as int,
                ring[i + 1] as int,
            ) by {
                assert(adj(h, ring[i] as int, ring[i + 1] as int));
                assert(ring[i + 1] != b);
            }
            assert(ring[ring.len() - 1] != b);
            assert(ring[0] != b);
        }
        lemma_forest_has_no_ring(g, ring);
    }
}

/// `path` leads through `g` from its first square to its last: different
/// squares, each joined to the next.
pub open spec fn is_simple_path(g: Seq<Seq<u8>>, path: Seq<u8>) -> bool {
    &&& path.len() >= 1
    &&& forall|i: int| 0 <= i < path.len() ==> #[trigger] path[i] < 9
    &&& forall|i: int, j: int| 0 <= i < j < path.len() ==> path[i] != path[j]
    &&& forall|i: int| 0 <= i < path.len() - 1 ==> #[trigger] step(g, path, i)
}

/// Square `i` of `path` is joined to the next.
pub open spec fn step(g: Seq<Seq<u8>>, path: Seq<u8>, i: int) -> bool {
    adj(g, path[i] as int, path[i + 1] as int)
}

/// `q` holds square `x` at index `from` or later.
pub open spec fn holds_from(q: Seq<u8>, x: u8, from: int) -> bool {
    exists|l: int| from <= l < q.len() && #[trigger] q[l] == x
}

/// The first square of `p` after index `t` that `q` holds after index `t`:
/// the lemma hands back its index in `p` and its index in `q`.
proof fn lemma_first_meeting(p: Seq<u8>, q: Seq<u8>, t: int, j: int) -> (r: (int, int))
    requires
        0 <= t < j < p.len(),
        t + 1 < q.len(),
        p[p.len() - 1] == q[q.len() - 1],
        forall|k: int| t < k < j ==> !holds_from(q, #[trigger] p[k], t + 1),
    ensures
        t < r.0 < p.len(),
        t + 1 <= r.1 < q.len(),
        p[r.0] == q[r.1],
        forall|k: int| t < k < r.0 ==> !holds_from(q, #[trigger] p[k], t + 1),
    decreases p.len() - j,
{
    if holds_from(q, p[j], t + 1) {
        let l = choose|l: int| t + 1 <= l < q.len() && #[trigger] q[l] == p[j];
        (j, l)
    } else {
        if j == p.len() - 1 {
            assert(q[q.len() - 1] == p[j]);
            assert(holds_from(q, p[j], t + 1));
        }
        lemma_first_meeting(p, q, t, j + 1)
    }
}

/// The ring that two paths close which part after index `t` and meet again:
/// down `p` from `t` to the meeting at `i`, and back up `q` from `l`.
pub open spec fn parting_ring(p: Seq<u8>, q: Seq<u8>, t: int, i: int, l: int) -> Seq<u8> {
    Seq::new(
        (i + l - 2 * t) as nat,
        |j: int|
            if j <= i - t {
                p[t + j]
            } else {
                q[l - (j - (i - t))]
            },
    )
}

/// Two simple paths that part after index `t` and first meet again at `p[i]`,
/// which is `q[l]`, close a ring.
proof fn lemma_parting_ring(g: Seq<Seq<u8>>, p: Seq<u8>, q: Seq<u8>, t: int, i: int, l: int)
    requires
        symmetric(g),
        is_simple_path(g, p),
        is_simple_path(g, q),
        0 <= t < i < p.len(),
        t + 1 <= l < q.len(),
        p[t] == q[t],
        p[t + 1] != q[t + 1],
        p[i] == q[l],
        forall|k: int| t < k < i ==> !holds_from(q, #[trigger] p[k], t + 1),
    ensures
        is_ring(g, parting_ring(p, q, t, i, l)),
{
    let len = i + l - 2 * t;
    let ring = parting_ring(p, q, t, i, l);
    assert(len >= 3);
    assert forall|a: int| 0 <= a < len implies #[trigger] ring[a] < 9 by {
        if a <= i - t {
            assert(p[t + a] < 9);
        } else {
            assert(q[l - (a - (i - t))] < 9);
        }
    }
    assert forall|a: int, b: int| 0 <= a < b < len implies ring[a] != ring[b] by {
        if b <= i - t {
            assert(p[t + a] != p[t + b]);
        } else if a > i - t {
            assert(q[l - (b - (i - t))] != q[l - (a - (i - t))]);
        } else {
            // one square of `p`, one of `q`
            let y = l - (b - (i - t));
            assert(t + 1 <= y < l);
            assert(ring[b] == q[y]);
            assert(ring[a] == p[t + a]);
            if a == 0 {
                assert(q[t] != q[y]);
            } else if a == i - t {
                assert(q[y] != q[l]);
            } else {
                assert(!holds_from(q, p[t + a], t + 1));
            }
        }
    }
    assert forall|a: int| 0 <= a < len - 1 implies adj(
        g,
        #[trigger] ring[a] as int,
        ring[a + 1] as int,
    ) by {
        if a < i - t {
            assert(step(g, p, t + a));
        } else {
            let y = l - (a + 1 - (i - t));
            assert(ring[a + 1] == q[y]);
            assert(ring[a] == q[y + 1]);
            assert(step(g, q, y));
            assert(g[q[y + 1] as int][q[y] as int] == g[q[y] as int][q[y + 1] as int]);
        }
    }
    assert(step(g, q, t));
    assert(g[q[t + 1] as int][q[t] as int] == g[q[t] as int][q[t + 1] as int]);
    assert(ring[len - 1] == q[t + 1]);
    assert(ring[0] == q[t]);
}

/// Two simple paths of a forest that agree up to index `t`, and end in the
/// same square, are the same path: where they parted, they would close a
/// ring on meeting again.
proof fn lemma_one_way_from(f: Seq<Seq<u8>>, p: Seq<u8>, q: Seq<u8>, t: int)
    requires
        is_forest(f),
        is_simple_path(f, p),
        is_simple_path(f, q),
        p[p.len() - 1] == q[q.len() - 1],
        0 <= t < p.len(),
        t < q.len(),
        forall|j: int| 0 <= j <= t ==> p[j] == q[j],
    ensures
        p == q,
    decreases p.len() - t,
{
    let m = p.len() as int;
    let n = q.len() as int;
    if t == m - 1 {
        if t < n - 1 {
            assert(q[t] != q[n - 1]);
        }
        assert(p =~= q);
    } else if t == n - 1 {
        assert(p[t] != p[m - 1]);
    } else if p[t + 1] == q[t + 1] {
        lemma_one_way_from(f, p, q, t + 1);
    } else {
        let (i, l) = lemma_first_meeting(p, q, t, t + 1);
        lemma_parting_ring(f, p, q, t, i, l);
        lemma_forest_has_no_ring(f, parting_ring(p, q, t, i, l));
    }
}

/// Between two squares of a forest there is one simple path at most.
pub proof fn lemma_one_way(f: Seq<Seq<u8>>, p: Seq<u8>, q: Seq<u8>)
    requires
        is_forest(f),
        is_simple_path(f, p),
        is_simple_path(f, q),
        p[0] == q[0],
        p[p.len() - 1] == q[q.len() - 1],
    ensures
        p == q,
{
    lemma_one_way_from(f, p, q, 0);
}

/// A ring taken the other way round, from the same first square.
pub open spec fn flipped(ring: Seq<u8>) -> Seq<u8> {
    Seq::new(
        ring.len(),
        |j: int|
            if j == 0 {
                ring[0]
            } else {
                ring[ring.len() - j]
            },
    )
}

/// A ring of a symmetric graph is a ring the other way round.
pub proof fn lemma_flipped(g: Seq<Seq<u8>>, ring: Seq<u8>)
    requires
        symmetric(g),
        is_ring(g, ring),
    ensures
        is_ring(g, flipped(ring)),
{
    let n = ring.len() as int;
    let r = flipped(ring);
    assert forall|i: int, j: int| 0 <= i < j < n implies r[i] != r[j] by {
        if i == 0 {
            assert(ring[0] != ring[n - j]);
        } else {
            assert(ring[n - j] != ring[n - i]);
        }
    }
    assert forall|i: int| 0 <= i < n - 1 implies adj(
        g,
        #[trigger] r[i] as int,
        r[i + 1] as int,
    ) by {
        if i == 0 {
            assert(g[ring[0] as int][ring[n - 1] as int] == g[ring[n - 1] as int][ring[0] as int]);
        } else {
            let y = n - i - 1;
            assert(adj(g, ring[y] as int, ring[y + 1] as int));
            assert(g[ring[y + 1] as int][ring[y] as int] == g[ring[y] as int][ring[y
                + 1] as int]);
        }
    }
    assert(adj(g, ring[0] as int, ring[0int + 1] as int));
    assert(g[ring[1] as int][ring[0] as int] == g[ring[0] as int][ring[1] as int]);
}

} // verus!
