//! A forest with one more edge has one ring at most: every ring passes along
//! the new edge, and what is left of it is the one path of the forest between
//! the two squares of that edge.

use crate::forest::{
    adj, flipped, is_forest, is_ring, is_simple_path, lemma_flipped, lemma_forest_has_no_ring,
    lemma_one_way, step,
};
use crate::graph::with_edge;
use crate::traversal::lemma_with_edge;
use vstd::prelude::*;

verus! {

/// `ring` taken in the direction in which it ends at `c`.
pub open spec fn toward(ring: Seq<u8>, c: int) -> Seq<u8> {
    if ring[ring.len() - 1] == c {
        ring
    } else {
        flipped(ring)
    }
}

/// A ring of a forest with one more edge, taken from a square of that edge,
/// has the other square of the edge second or last.
pub proof fn lemma_uses_new_edge(f: Seq<Seq<u8>>, a: int, c: int, ring: Seq<u8>)
    requires
        is_forest(f),
        0 <= a < 9,
        0 <= c < 9,
        a != c,
        is_ring(with_edge(f, a, c), ring),
        ring[0] == a,
    ensures
        ring[1] == c || ring[ring.len() - 1] == c,
{
    let g = with_edge(f, a, c);
    let n = ring.len() as int;
    lemma_with_edge(f, a, c);
    if ring[1] != c && ring[n - 1] != c {
        assert(is_ring(f, ring)) by {
            assert forall|i: int| 0 <= i < n - 1 implies adj(
                f,
                #[trigger] ring[i] as int,
                ring[i + 1] as int,
            ) by {
                assert(adj(g, ring[i] as int, ring[i + 1] as int));
                if i > 0 {
                    assert(ring[0] != ring[i]);
                    assert(ring[0] != ring[i + 1]);
                }
            }
            assert(ring[0] != ring[n - 1]);
        }
        lemma_forest_has_no_ring(f, ring);
    }
}

/// A ring of a forest with one more edge, taken from one square of that edge
/// to the other, is a path of the forest.
pub proof fn lemma_ring_is_path(f: Seq<Seq<u8>>, a: int, c: int, ring: Seq<u8>)
    requires
        is_forest(f),
        0 <= a < 9,
        0 <= c < 9,
        a != c,
        is_ring(with_edge(f, a, c), ring),
        ring[0] == a,
        ring[ring.len() - 1] == c,
    ensures
        is_simple_path(f, ring),
{
    let g = with_edge(f, a, c);
    let n = ring.len() as int;
    lemma_with_edge(f, a, c);
    assert forall|i: int| 0 <= i < n - 1 implies #[trigger] step(f, ring, i) by {
        assert(adj(g, ring[i] as int, ring[i + 1] as int));
        if i > 0 {
            assert(ring[0] != ring[i]);
        }
        if i + 1 < n - 1 {
            assert(ring[i + 1] != ring[n - 1]);
        }
        if i < n - 1 {
            assert(ring[i] != ring[n - 1]);
        }
        assert(ring[0] != ring[i + 1]);
    }
}

/// Two rings of a forest with one more edge, taken from the same square of
/// that edge in the same direction, are the same.
pub proof fn lemma_one_ring(f: Seq<Seq<u8>>, a: int, c: int, r1: Seq<u8>, r2: Seq<u8>)
    requires
        is_forest(f),
        0 <= a < 9,
        0 <= c < 9,
        a != c,
        is_ring(with_edge(f, a, c), r1),
        is_ring(with_edge(f, a, c), r2),
        r1[0] == a,
        r2[0] == a,
    ensures
        toward(r1, c) == toward(r2, c),
{
    let g = with_edge(f, a, c);
    lemma_with_edge(f, a, c);
    lemma_uses_new_edge(f, a, c, r1);
    lemma_uses_new_edge(f, a, c, r2);
    lemma_flipped(g, r1);
    lemma_flipped(g, r2);
    let p = toward(r1, c);
    let q = toward(r2, c);
    assert(p[0] == a && p[p.len() - 1] == c);
    assert(q[0] == a && q[q.len() - 1] == c);
    lemma_ring_is_path(f, a, c, p);
    lemma_ring_is_path(f, a, c, q);
    lemma_one_way(f, p, q);
}

/// Squares `u` and `v` stand at index `i` of `ring` and at the next index,
/// in one order or the other.
pub open spec fn pair_at(ring: Seq<u8>, i: int, u: int, v: int) -> bool {
    (ring[i] == u && ring[i + 1] == v) || (ring[i] == v && ring[i + 1] == u)
}

/// Two squares beside each other in a ring, which are not its first and its
/// last, stand at two indices that follow each other. So they do in the ring
/// the other way round, unless they are its first and its second.
pub proof fn lemma_beside_in_toward(ring: Seq<u8>, c: int, x: int, y: int, u: int, v: int)
    requires
        ring.len() >= 3,
        0 <= x < ring.len(),
        y == (if x + 1 < ring.len() {
            x + 1
        } else {
            0
        }),
        ring[x] == u,
        ring[y] == v,
        ring[1] == c || ring[ring.len() - 1] == c,
        !(u == ring[0] && v == c),
        !(v == ring[0] && u == c),
    ensures
        exists|i: int| 0 <= i < ring.len() - 1 && #[trigger] pair_at(toward(ring, c), i, u, v),
{
    let n = ring.len() as int;
    let r = toward(ring, c);
    if ring[n - 1] == c {
        assert(x + 1 < n);
        assert(pair_at(r, x, u, v));
    } else {
        assert(ring[1] == c);
        if x == n - 1 {
            // last and first: first and second the other way round
            assert(r[0] == ring[0] && r[1] == ring[n - 1]);
            assert(pair_at(r, 0, u, v));
        } else {
            assert(x >= 1);
            assert(r[n - x - 1] == ring[x + 1] && r[n - x] == ring[x]);
            assert(pair_at(r, n - x - 1, u, v));
        }
    }
}

} // verus!
