//! A tree laid out by levels: which square is above which, and which squares
//! are below a given square.

use crate::forest::{adj, nine_by_nine, symmetric};
use crate::traversal::explored;
use vstd::prelude::*;

verus! {

/// A graph with the squares of one of its trees and their levels.
pub struct Tree {
    /// The graph.
    pub g: Seq<Seq<u8>>,
    /// The squares of the tree.
    pub seen: Seq<bool>,
    /// The levels of the squares, the top of the tree at level 0.
    pub d: Seq<int>,
}

/// The levels lay the tree out, and its squares are joined to each other
/// only.
pub open spec fn tree_ok(c: Tree) -> bool {
    &&& nine_by_nine(c.g)
    &&& symmetric(c.g)
    &&& explored(c.g, c.seen, c.d, c.d)
}

/// Square `y` is joined to `x` and one level above it.
pub open spec fn is_up(c: Tree, x: int, y: int) -> bool {
    0 <= y < 9 && adj(c.g, x, y) && c.d[y] == c.d[x] - 1
}

/// The square above `x`; -1 if there is none.
pub open spec fn up(c: Tree, x: int) -> int {
    if exists|y: int| is_up(c, x, y) {
        choose|y: int| is_up(c, x, y)
    } else {
        -1
    }
}

/// The square `k` levels above `x`; -1 if there is none.
pub open spec fn anc(c: Tree, x: int, k: int) -> int
    decreases k,
{
    if !(0 <= x < 9) {
        -1
    } else if k <= 0 {
        x
    } else {
        anc(c, up(c, x), k - 1)
    }
}

/// Square `x` of the tree is `v` or below `v`.
pub open spec fn below(c: Tree, x: int, v: int) -> bool {
    0 <= x < 9 && c.seen[x] && c.d[x] >= c.d[v] && anc(c, x, c.d[x] - c.d[v]) == v
}

/// A square of the tree has one square above it at most.
pub proof fn lemma_up_is(c: Tree, x: int, y: int)
    requires
        tree_ok(c),
        0 <= x < 9,
        c.seen[x],
        is_up(c, x, y),
    ensures
        up(c, x) == y,
{
    let z = choose|z: int| is_up(c, x, z);
    assert(adj(c.g, x, z) && adj(c.g, x, y));
}

/// The square above a square, if there is one, is a square of the tree
/// joined to it, one level higher.
pub proof fn lemma_up_of(c: Tree, x: int)
    requires
        tree_ok(c),
        0 <= x < 9,
        c.seen[x],
        up(c, x) >= 0,
    ensures
        is_up(c, x, up(c, x)),
        c.seen[up(c, x)],
{
    let y = up(c, x);
    assert(adj(c.g, x, y));
}

/// A square joined to a square of the tree and one level below it is below
/// it.
pub proof fn lemma_child_below(c: Tree, v: int, y: int)
    requires
        tree_ok(c),
        0 <= v < 9,
        0 <= y < 9,
        c.seen[v],
        adj(c.g, v, y),
        c.d[y] == c.d[v] + 1,
    ensures
        c.seen[y],
        up(c, y) == v,
        below(c, y, v),
{
    assert(c.g[y][v] == c.g[v][y]);
    assert(is_up(c, y, v));
    lemma_up_is(c, y, v);
    assert(anc(c, y, 1) == anc(c, v, 0));
}

/// A square is below itself.
pub proof fn lemma_below_self(c: Tree, v: int)
    requires
        0 <= v < 9,
        c.seen[v],
    ensures
        below(c, v, v),
{
}

/// A square below `v` other than `v` is on a lower level, and the square
/// above it is below `v` too.
pub proof fn lemma_below_up(c: Tree, x: int, v: int)
    requires
        tree_ok(c),
        0 <= v < 9,
        below(c, x, v),
        x != v,
    ensures
        c.d[x] > c.d[v],
        up(c, x) >= 0,
        below(c, up(c, x), v),
{
    let k = c.d[x] - c.d[v];
    assert(k >= 1);
    assert(anc(c, x, k) == anc(c, up(c, x), k - 1));
    assert(up(c, x) >= 0);
    lemma_up_of(c, x);
}

/// The square `k + 1` levels above `x` is the square above the one `k` levels
/// above `x`.
pub proof fn lemma_anc_step(c: Tree, x: int, k: int)
    requires
        k >= 0,
        0 <= anc(c, x, k) < 9,
    ensures
        anc(c, x, k + 1) == up(c, anc(c, x, k)),
    decreases k,
{
    if k > 0 {
        assert(0 <= x < 9);
        assert(anc(c, x, k) == anc(c, up(c, x), k - 1));
        lemma_anc_step(c, up(c, x), k - 1);
        assert(anc(c, x, k + 1) == anc(c, up(c, x), k));
    } else {
        assert(anc(c, x, 0) == x);
        assert(anc(c, x, 1) == anc(c, up(c, x), 0));
        if up(c, x) >= 0 {
            assert(is_up(c, x, up(c, x)));
        }
    }
}

/// What is below a square is below the square above it.
pub proof fn lemma_below_parent(c: Tree, x: int, i: int, v: int)
    requires
        tree_ok(c),
        0 <= v < 9,
        0 <= i < 9,
        c.seen[i],
        is_up(c, i, v),
        below(c, x, i),
    ensures
        below(c, x, v),
{
    lemma_up_is(c, i, v);
    lemma_anc_step(c, x, c.d[x] - c.d[i]);
}

/// Two squares on one level have nothing below them in common.
pub proof fn lemma_apart(c: Tree, x: int, i: int, j: int)
    requires
        below(c, x, i),
        below(c, x, j),
        c.d[i] == c.d[j],
    ensures
        i == j,
{
}

/// A square joined to a square below `v` is below `v`, unless it is the
/// square above `v`.
pub proof fn lemma_beside_below(c: Tree, x: int, v: int, y: int)
    requires
        tree_ok(c),
        0 <= v < 9,
        0 <= y < 9,
        below(c, x, v),
        adj(c.g, x, y),
    ensures
        below(c, y, v) || (x == v && is_up(c, v, y)),
{
    assert(c.seen[y]);
    if c.d[y] == c.d[x] + 1 {
        lemma_child_below(c, x, y);
        assert(anc(c, y, c.d[y] - c.d[v]) == anc(c, up(c, y), c.d[y] - c.d[v] - 1));
    } else {
        assert(is_up(c, x, y));
        lemma_up_is(c, x, y);
        if x != v {
            lemma_below_up(c, x, v);
        }
    }
}

/// A square below `v` other than `v` is below a square joined to `v` on the
/// next level: the lemma hands that square back.
pub proof fn lemma_below_child(c: Tree, x: int, v: int) -> (j: int)
    requires
        tree_ok(c),
        0 <= v < 9,
        c.seen[v],
        below(c, x, v),
        x != v,
    ensures
        0 <= j < 9,
        adj(c.g, v, j),
        c.d[j] == c.d[v] + 1,
        below(c, x, j),
    decreases c.d[x] - c.d[v],
{
    lemma_below_up(c, x, v);
    let y = up(c, x);
    lemma_up_of(c, x);
    if y == v {
        assert(c.g[v][x] == c.g[x][v]);
        x
    } else {
        let j = lemma_below_child(c, y, v);
        assert(anc(c, x, c.d[x] - c.d[j]) == anc(c, y, c.d[y] - c.d[j]));
        j
    }
}

} // verus!
