//! What the depth-first search of the graph finds: the proof that follows the
//! search step by step, and the two facts the game rests on. A search that
//! reports nothing has laid out all it saw as a forest; a search that reports
//! something has found a ring.

use crate::forest::{
    adj, is_forest, is_ring, layered, lemma_ring_passes_new_edge, nine_by_nine, passes, simple,
    symmetric,
};
use crate::graph::{
    cycle_path, last_max, lemma_last_max_in_range, lemma_last_max_is_max, lemma_scan_shape,
    lemma_visit_shape, no_loops, none_seen, scan, unseen, visit, with_edge, Walk,
};
use vstd::prelude::*;

verus! {

/// Square `x` was seen between `seen0` and `seen`.
pub open spec fn fresh(seen0: Seq<bool>, seen: Seq<bool>, x: int) -> bool {
    seen[x] && !seen0[x]
}

/// `stack` holds `x`.
pub open spec fn holds_sq(stack: Seq<int>, x: int) -> bool {
    exists|k: int| 0 <= k < stack.len() && #[trigger] stack[k] == x
}

/// `stack` is the way from the start of the search to where it stands: seen
/// squares, all different, each joined to the next; and every seen square off
/// the stack has seen neighbours only.
#[verifier::opaque]
pub open spec fn trail_ok(h: Seq<Seq<u8>>, stack: Seq<int>, seen: Seq<bool>) -> bool {
    &&& forall|k: int| 0 <= k < stack.len() ==> 0 <= #[trigger] stack[k] < 9 && seen[stack[k]]
    &&& forall|j: int, k: int| 0 <= j < k < stack.len() ==> stack[j] != stack[k]
    &&& forall|k: int| 0 <= k < stack.len() - 1 ==> adj(h, #[trigger] stack[k], stack[k + 1])
    &&& forall|x: int, y: int|
        0 <= x < 9 && 0 <= y < 9 && seen[x] && !holds_sq(stack, x) && #[trigger] adj(h, x, y)
            ==> seen[y]
}

/// The levels given so far to the squares seen since `v` was entered: `v` at
/// level `k`, the others below it, each joined only to fresh squares one
/// level off, with one neighbour above at most; the squares not seen since
/// keep their old levels.
#[verifier::opaque]
pub open spec fn grown(
    h: Seq<Seq<u8>>,
    v: int,
    seen0: Seq<bool>,
    seen: Seq<bool>,
    d0: Seq<int>,
    d: Seq<int>,
    k: int,
) -> bool {
    &&& d.len() == 9
    &&& d[v] == k
    &&& forall|x: int| 0 <= x < 9 && #[trigger] fresh(seen0, seen, x) && x != v ==> d[x] > k
    &&& forall|x: int| 0 <= x < 9 && !#[trigger] fresh(seen0, seen, x) ==> d[x] == d0[x]
    &&& forall|x: int, y: int|
        0 <= x < 9 && 0 <= y < 9 && fresh(seen0, seen, x) && x != v && #[trigger] adj(h, x, y)
            ==> fresh(seen0, seen, y) && (d[x] == d[y] + 1 || d[y] == d[x] + 1)
    &&& forall|x: int, y: int, z: int|
        0 <= x < 9 && 0 <= y < 9 && 0 <= z < 9 && fresh(seen0, seen, x) && x != v && fresh(
            seen0,
            seen,
            y,
        ) && fresh(seen0, seen, z) && #[trigger] adj(h, x, y) && #[trigger] adj(h, x, z) && d[y]
            == d[x] - 1 && d[z] == d[x] - 1 ==> y == z
    &&& forall|y: int|
        0 <= y < 9 && #[trigger] adj(h, v, y) && fresh(seen0, seen, y) ==> d[y] == k + 1
}

/// The levels of the squares seen by a visit of `v` that reported nothing:
/// as in `grown`, and `v` itself is joined only to fresh squares and to the
/// square it was entered from.
#[verifier::opaque]
pub open spec fn sprouted(
    h: Seq<Seq<u8>>,
    v: int,
    parent: int,
    seen0: Seq<bool>,
    seen: Seq<bool>,
    d0: Seq<int>,
    d: Seq<int>,
    k: int,
) -> bool {
    &&& d.len() == 9
    &&& d[v] == k
    &&& forall|x: int| 0 <= x < 9 && #[trigger] fresh(seen0, seen, x) && x != v ==> d[x] > k
    &&& forall|x: int| 0 <= x < 9 && !#[trigger] fresh(seen0, seen, x) ==> d[x] == d0[x]
    &&& forall|x: int, y: int|
        0 <= x < 9 && 0 <= y < 9 && fresh(seen0, seen, x) && #[trigger] adj(h, x, y) ==> (fresh(
            seen0,
            seen,
            y,
        ) && (d[x] == d[y] + 1 || d[y] == d[x] + 1)) || (x == v && y == parent)
    &&& forall|x: int, y: int, z: int|
        0 <= x < 9 && 0 <= y < 9 && 0 <= z < 9 && fresh(seen0, seen, x) && fresh(seen0, seen, y)
            && fresh(seen0, seen, z) && #[trigger] adj(h, x, y) && #[trigger] adj(h, x, z) && d[y]
            == d[x] - 1 && d[z] == d[x] - 1 ==> y == z
}

/// The path of a report on its way up: it starts at a square of the stack,
/// the square that closed the cycle, and goes on through different squares
/// off the stack, each joined to the next, down to `v`.
#[verifier::opaque]
pub open spec fn reported(
    h: Seq<Seq<u8>>,
    stack: Seq<int>,
    v: int,
    parent: int,
    p: Seq<u8>,
) -> bool {
    &&& p.len() >= 2
    &&& holds_sq(stack, p[0] as int)
    &&& forall|j: int| 1 <= j < p.len() ==> !holds_sq(stack, #[trigger] p[j] as int)
    &&& forall|j: int| 0 <= j < p.len() ==> #[trigger] p[j] < 9
    &&& forall|i: int, j: int| 0 <= i < j < p.len() ==> p[i] != p[j]
    &&& forall|j: int| 0 <= j < p.len() - 1 ==> adj(h, #[trigger] p[j] as int, p[j + 1] as int)
    &&& p[p.len() - 1] == v
    &&& (p.len() >= 3 || p[0] != parent)
}

/// The square from which the search started.
pub open spec fn root_of(stack: Seq<int>, v: int) -> int {
    if stack.len() > 0 {
        stack[0]
    } else {
        v
    }
}

/// What a visit of `v` can come to, with the stack and levels it was given.
///
/// It reports nothing, and has laid out what it saw; or it reports a cycle
/// closed higher up the stack; or `v` is the start of the search and the
/// path is a ring through it; or the graph has a ring that does not pass
/// through the start of the search.
pub open spec fn outcome(
    h: Seq<Seq<u8>>,
    v: int,
    parent: int,
    seen0: Seq<bool>,
    stack: Seq<int>,
    d0: Seq<int>,
    k: int,
    w: Walk,
    d: Seq<int>,
    ring: Seq<u8>,
) -> bool {
    &&& w.seen.len() == 9
    &&& forall|x: int| 0 <= x < 9 && seen0[x] ==> #[trigger] w.seen[x]
    &&& {
        ||| (!w.found && w.path.len() == 0 && w.seen[v] && trail_ok(h, stack, w.seen) && sprouted(
            h,
            v,
            parent,
            seen0,
            w.seen,
            d0,
            d,
            k,
        ))
        ||| (w.found && reported(h, stack, v, parent, w.path))
        ||| (!w.found && stack.len() == 0 && is_ring(h, w.path) && w.path[0] == v)
        ||| (w.path.len() > 0 && is_ring(h, ring) && !passes(ring, root_of(stack, v)))
    }
}

/// A stack with one more square holds that square and what it held.
proof fn lemma_holds_push(stack: Seq<int>, v: int)
    ensures
        forall|x: int| #[trigger] holds_sq(stack.push(v), x) <==> holds_sq(stack, x) || x == v,
{
    let stack1 = stack.push(v);
    assert(stack1[stack.len() as int] == v);
    assert forall|x: int| holds_sq(stack, x) implies holds_sq(stack1, x) by {
        let j = choose|j: int| 0 <= j < stack.len() && #[trigger] stack[j] == x;
        assert(stack1[j] == x);
    }
    assert forall|x: int| holds_sq(stack1, x) implies holds_sq(stack, x) || x == v by {
        let j = choose|j: int| 0 <= j < stack1.len() && #[trigger] stack1[j] == x;
        if j < stack.len() {
            assert(stack[j] == x);
        }
    }
}

/// Entering `v`: the stack with `v` on it is a trail, `v` has its level, and
/// no seen square off the stack is joined to `v`.
proof fn lemma_enter(
    h: Seq<Seq<u8>>,
    v: int,
    parent: int,
    seen: Seq<bool>,
    stack: Seq<int>,
    d0: Seq<int>,
    k: int,
)
    requires
        nine_by_nine(h),
        symmetric(h),
        no_loops(h),
        0 <= v < 9,
        seen.len() == 9,
        d0.len() == 9,
        !seen[v],
        trail_ok(h, stack, seen),
        stack.len() == 0 ==> parent == -1,
        stack.len() > 0 ==> parent == stack[stack.len() - 1] && adj(h, parent, v),
    ensures
        scanning(h, v, parent, 0, seen, seen.update(v, true), stack, d0, d0.update(v, k), k),
{
    reveal(trail_ok);
    reveal(grown);
    reveal(scanning);
    let marked = seen.update(v, true);
    let d = d0.update(v, k);
    let stack1 = stack.push(v);
    lemma_holds_push(stack, v);
    assert(!holds_sq(stack, v));
    assert(trail_ok(h, stack1, marked)) by {
        assert forall|x: int, y: int|
            0 <= x < 9 && 0 <= y < 9 && marked[x] && !holds_sq(stack1, x) && #[trigger] adj(
                h,
                x,
                y,
            ) implies marked[y] by {
            assert(x != v);
            assert(!holds_sq(stack, x));
        }
    }
    assert(grown(h, v, seen, marked, d0, d, k)) by {
        assert forall|x: int| 0 <= x < 9 && #[trigger] fresh(seen, marked, x) implies x == v by {}
        assert(h[v][v] == 0);
    }
    assert forall|x: int|
        0 <= x < 9 && marked[x] && !holds_sq(stack, x) && x != v && #[trigger] adj(
            h,
            x,
            v,
        ) implies x < 0 by {
        assert(seen[x]);
    }
}

/// The visit of an unseen square `v`, entered from the top of `stack`, comes
/// to one of the four ends of `outcome`.
pub proof fn lemma_visit_trail(
    h: Seq<Seq<u8>>,
    v: int,
    parent: int,
    seen: Seq<bool>,
    stack: Seq<int>,
    d0: Seq<int>,
    k: int,
) -> (r: (Seq<int>, Seq<u8>))
    requires
        nine_by_nine(h),
        symmetric(h),
        no_loops(h),
        0 <= v < 9,
        seen.len() == 9,
        d0.len() == 9,
        !seen[v],
        trail_ok(h, stack, seen),
        stack.len() == 0 ==> parent == -1,
        stack.len() > 0 ==> parent == stack[stack.len() - 1] && adj(h, parent, v),
    ensures
        outcome(
            h,
            v,
            parent,
            seen,
            stack,
            d0,
            k,
            visit(h, v, parent, seen, Seq::empty()),
            r.0,
            r.1,
        ),
    decreases unseen(seen), 0int,
{
    lemma_enter(h, v, parent, seen, stack, d0, k);
    lemma_scan_trail(
        h,
        v,
        parent,
        0,
        seen,
        seen.update(v, true),
        stack,
        d0,
        d0.update(v, k),
        k,
    )
}

/// What holds while the neighbours of `v` are scanned, before index `i`: the
/// earlier neighbours have been visited without a report.
#[verifier::opaque]
pub open spec fn scanning(
    h: Seq<Seq<u8>>,
    v: int,
    parent: int,
    i: int,
    seen0: Seq<bool>,
    seen: Seq<bool>,
    stack: Seq<int>,
    d0: Seq<int>,
    d: Seq<int>,
    k: int,
) -> bool {
    &&& nine_by_nine(h)
    &&& symmetric(h)
    &&& no_loops(h)
    &&& 0 <= v < 9
    &&& 0 <= i <= 9
    &&& seen0.len() == 9
    &&& seen.len() == 9
    &&& d0.len() == 9
    &&& d.len() == 9
    &&& !seen0[v]
    &&& seen[v]
    &&& forall|x: int| 0 <= x < 9 && seen0[x] ==> #[trigger] seen[x]
    &&& !holds_sq(stack, v)
    &&& trail_ok(h, stack, seen0)
    &&& trail_ok(h, stack.push(v), seen)
    &&& (stack.len() == 0 ==> parent == -1)
    &&& (stack.len() > 0 ==> parent == stack[stack.len() - 1] && adj(h, parent, v))
    &&& forall|x: int|
        0 <= x < 9 && seen[x] && !holds_sq(stack, x) && x != v && #[trigger] adj(h, x, v) ==> x
            < i
    &&& forall|j: int|
        0 <= j < i && #[trigger] adj(h, v, j) && j != parent ==> fresh(seen0, seen, j)
    &&& grown(h, v, seen0, seen, d0, d, k)
}

/// The scan has passed the last neighbour: what was seen is laid out.
proof fn lemma_scan_done(
    h: Seq<Seq<u8>>,
    v: int,
    parent: int,
    seen0: Seq<bool>,
    seen: Seq<bool>,
    stack: Seq<int>,
    d0: Seq<int>,
    d: Seq<int>,
    k: int,
)
    requires
        scanning(h, v, parent, 9, seen0, seen, stack, d0, d, k),
    ensures
        trail_ok(h, stack, seen),
        sprouted(h, v, parent, seen0, seen, d0, d, k),
{
    reveal(scanning);
    reveal(trail_ok);
    reveal(grown);
    reveal(sprouted);
    let stack1 = stack.push(v);
    lemma_holds_push(stack, v);
    assert(trail_ok(h, stack, seen)) by {
        assert forall|x: int, y: int|
            0 <= x < 9 && 0 <= y < 9 && seen[x] && !holds_sq(stack, x) && #[trigger] adj(
                h,
                x,
                y,
            ) implies seen[y] by {
            if x == v {
                if y == parent {
                    assert(holds_sq(stack, parent)) by {
                        assert(stack[stack.len() - 1] == parent);
                    }
                    assert(stack1[stack.len() - 1] == parent);
                } else {
                    assert(fresh(seen0, seen, y));
                }
            } else {
                assert(!holds_sq(stack1, x));
            }
        }
        assert forall|k2: int| 0 <= k2 < stack.len() implies 0 <= #[trigger] stack[k2] < 9
            && seen[stack[k2]] by {
            assert(stack1[k2] == stack[k2]);
        }
        assert forall|k2: int| 0 <= k2 < stack.len() - 1 implies adj(
            h,
            #[trigger] stack[k2],
            stack[k2 + 1],
        ) by {
            assert(stack1[k2] == stack[k2]);
            assert(stack1[k2 + 1] == stack[k2 + 1]);
        }
        assert forall|j: int, k2: int| 0 <= j < k2 < stack.len() implies stack[j] != stack[k2] by {
            assert(stack1[j] == stack[j]);
            assert(stack1[k2] == stack[k2]);
        }
    }
    assert(sprouted(h, v, parent, seen0, seen, d0, d, k)) by {
        assert forall|x: int, y: int|
            0 <= x < 9 && 0 <= y < 9 && fresh(seen0, seen, x) && #[trigger] adj(
                h,
                x,
                y,
            ) implies (fresh(seen0, seen, y) && (d[x] == d[y] + 1 || d[y] == d[x] + 1)) || (x == v
            && y == parent) by {
            if x == v && y != parent {
                assert(fresh(seen0, seen, y));
            }
        }
        assert forall|x: int, y: int, z: int|
            0 <= x < 9 && 0 <= y < 9 && 0 <= z < 9 && fresh(seen0, seen, x) && fresh(
                seen0,
                seen,
                y,
            ) && fresh(seen0, seen, z) && #[trigger] adj(h, x, y) && #[trigger] adj(h, x, z)
                && d[y] == d[x] - 1 && d[z] == d[x] - 1 implies y == z by {
            if x == v {
                assert(h[v][v] == 0);
                assert(y != v);
                assert(d[y] > k);
            }
        }
    }
}

/// The scan meets a seen neighbour `i`: it is on the stack, and the report
/// starts with `i` and `v`.
proof fn lemma_closes_here(
    h: Seq<Seq<u8>>,
    v: int,
    parent: int,
    i: int,
    seen0: Seq<bool>,
    seen: Seq<bool>,
    stack: Seq<int>,
    d0: Seq<int>,
    d: Seq<int>,
    k: int,
)
    requires
        scanning(h, v, parent, i, seen0, seen, stack, d0, d, k),
        i < 9,
        adj(h, v, i),
        i != parent,
        seen[i],
    ensures
        reported(h, stack, v, parent, seq![i as u8, v as u8]),
{
    reveal(scanning);
    reveal(reported);
    assert(h[v][v] == 0);
    assert(h[i][v] == h[v][i]);
    assert(adj(h, i, v));
    assert(holds_sq(stack, i));
    let p = seq![i as u8, v as u8];
    assert(p[0] == i && p[1] == v);
}

/// A neighbour `i` was visited without a report: the scan goes on after it.
proof fn lemma_next_neighbour(
    h: Seq<Seq<u8>>,
    v: int,
    parent: int,
    i: int,
    seen0: Seq<bool>,
    seen: Seq<bool>,
    seen1: Seq<bool>,
    stack: Seq<int>,
    d0: Seq<int>,
    d: Seq<int>,
    d1: Seq<int>,
    k: int,
)
    requires
        scanning(h, v, parent, i, seen0, seen, stack, d0, d, k),
        i < 9,
        adj(h, v, i),
        i != parent,
        !seen[i],
        seen1.len() == 9,
        forall|x: int| 0 <= x < 9 && seen[x] ==> #[trigger] seen1[x],
        seen1[i],
        trail_ok(h, stack.push(v), seen1),
        sprouted(h, i, v, seen, seen1, d, d1, k + 1),
    ensures
        scanning(h, v, parent, i + 1, seen0, seen1, stack, d0, d1, k),
{
    reveal(scanning);
    assert(h[v][v] == 0);
    assert forall|x: int|
        0 <= x < 9 && seen1[x] && !holds_sq(stack, x) && x != v && #[trigger] adj(
            h,
            x,
            v,
        ) implies x < i + 1 by {
        if !seen[x] {
            reveal(sprouted);
            assert(fresh(seen, seen1, x));
        }
    }
    assert forall|j: int|
        0 <= j < i + 1 && #[trigger] adj(h, v, j) && j != parent implies fresh(seen0, seen1, j) by {
        if j < i {
            assert(fresh(seen0, seen, j));
        }
    }
    lemma_grow(h, v, i, seen0, seen, seen1, d0, d, d1, k);
    assert(d1.len() == 9) by {
        reveal(sprouted);
    }
}

/// The report from neighbour `i` started higher up: it goes on through `v`.
proof fn lemma_report_up(
    h: Seq<Seq<u8>>,
    v: int,
    parent: int,
    i: int,
    stack: Seq<int>,
    p: Seq<u8>,
)
    requires
        symmetric(h),
        0 <= v < 9,
        0 <= i < 9,
        adj(h, v, i),
        !holds_sq(stack, v),
        reported(h, stack.push(v), i, v, p),
        p[0] != v,
    ensures
        reported(h, stack, v, parent, p.push(v as u8)),
{
    reveal(reported);
    lemma_holds_push(stack, v);
    let stack1 = stack.push(v);
    let q = p.push(v as u8);
    assert(h[i][v] == h[v][i]);
    assert(holds_sq(stack1, p[0] as int));
    assert forall|j: int| 1 <= j < q.len() implies !holds_sq(stack, #[trigger] q[j] as int) by {
        if j < p.len() {
            assert(!holds_sq(stack1, p[j] as int));
        }
    }
    assert forall|a: int, b: int| 0 <= a < b < q.len() implies q[a] != q[b] by {
        if b == p.len() {
            if a >= 1 {
                assert(!holds_sq(stack1, p[a] as int));
            }
        }
    }
    assert forall|j: int| 0 <= j < q.len() - 1 implies adj(
        h,
        #[trigger] q[j] as int,
        q[j + 1] as int,
    ) by {
        if j < p.len() - 1 {
            assert(adj(h, p[j] as int, p[j + 1] as int));
        }
    }
}

/// The report from neighbour `i` started at `v`: the path is a ring through
/// `v`, which passes through no square of the stack.
proof fn lemma_ring_closed(h: Seq<Seq<u8>>, v: int, i: int, stack: Seq<int>, p: Seq<u8>)
    requires
        symmetric(h),
        0 <= v < 9,
        0 <= i < 9,
        adj(h, v, i),
        !holds_sq(stack, v),
        reported(h, stack.push(v), i, v, p),
        p[0] == v,
    ensures
        is_ring(h, p),
        p.len() >= 3,
        stack.len() > 0 ==> !passes(p, stack[0]),
{
    reveal(reported);
    lemma_holds_push(stack, v);
    let stack1 = stack.push(v);
    assert(h[i][v] == h[v][i]);
    assert(p[p.len() - 1] == i);
    if stack.len() > 0 {
        assert(holds_sq(stack, stack[0]));
        assert forall|j: int| 0 <= j < p.len() implies #[trigger] p[j] != stack[0] by {
            if j >= 1 {
                assert(!holds_sq(stack1, p[j] as int));
            }
        }
    }
}

/// The plain facts of `scanning`.
proof fn lemma_scanning_plain(
    h: Seq<Seq<u8>>,
    v: int,
    parent: int,
    i: int,
    seen0: Seq<bool>,
    seen: Seq<bool>,
    stack: Seq<int>,
    d0: Seq<int>,
    d: Seq<int>,
    k: int,
)
    requires
        scanning(h, v, parent, i, seen0, seen, stack, d0, d, k),
    ensures
        nine_by_nine(h),
        symmetric(h),
        no_loops(h),
        0 <= v < 9,
        0 <= i <= 9,
        seen0.len() == 9,
        seen.len() == 9,
        d0.len() == 9,
        d.len() == 9,
        !holds_sq(stack, v),
        seen[v],
        trail_ok(h, stack.push(v), seen),
        forall|x: int| 0 <= x < 9 && seen0[x] ==> #[trigger] seen[x],
{
    reveal(scanning);
}

/// Index `i` is not a neighbour to visit: the scan goes on after it.
proof fn lemma_skip(
    h: Seq<Seq<u8>>,
    v: int,
    parent: int,
    i: int,
    seen0: Seq<bool>,
    seen: Seq<bool>,
    stack: Seq<int>,
    d0: Seq<int>,
    d: Seq<int>,
    k: int,
)
    requires
        scanning(h, v, parent, i, seen0, seen, stack, d0, d, k),
        i < 9,
        !(h[v][i] > 0 && i != parent),
    ensures
        scanning(h, v, parent, i + 1, seen0, seen, stack, d0, d, k),
{
    reveal(scanning);
    assert forall|x: int|
        0 <= x < 9 && seen[x] && !holds_sq(stack, x) && x != v && #[trigger] adj(
            h,
            x,
            v,
        ) implies x < i + 1 by {}
}

/// The scan of the neighbours of `v` from index `i` on, after the earlier
/// ones have all been visited without a report, comes to one of the four
/// ends of `outcome`.
pub proof fn lemma_scan_trail(
    h: Seq<Seq<u8>>,
    v: int,
    parent: int,
    i: int,
    seen0: Seq<bool>,
    seen: Seq<bool>,
    stack: Seq<int>,
    d0: Seq<int>,
    d: Seq<int>,
    k: int,
) -> (r: (Seq<int>, Seq<u8>))
    requires
        scanning(h, v, parent, i, seen0, seen, stack, d0, d, k),
    ensures
        outcome(
            h,
            v,
            parent,
            seen0,
            stack,
            d0,
            k,
            scan(h, v, parent, i, seen, Seq::empty()),
            r.0,
            r.1,
        ),
    decreases unseen(seen), 10 - i,
{
    let stack1 = stack.push(v);
    let none: Seq<u8> = Seq::empty();
    let w = scan(h, v, parent, i, seen, none);
    lemma_scanning_plain(h, v, parent, i, seen0, seen, stack, d0, d, k);
    if i >= 9 {
        lemma_scan_done(h, v, parent, seen0, seen, stack, d0, d, k);
        (d, none)
    } else if h[v][i] > 0 && i != parent {
        assert(adj(h, v, i));
        if seen[i] {
            // the cycle closes at `i`, which is on the stack
            lemma_closes_here(h, v, parent, i, seen0, seen, stack, d0, d, k);
            assert(h[v][v] == 0);
            assert(visit(h, i, v, seen, none).path =~= seq![i as u8]);
            assert(w.path =~= seq![i as u8, v as u8]);
            (d, none)
        } else {
            lemma_visit_shape(h, i, v, seen, none);
            let w1 = visit(h, i, v, seen, none);
            let r1 = lemma_visit_trail(h, i, v, seen, stack1, d, k + 1);
            let d1 = r1.0;
            assert(root_of(stack1, i) == root_of(stack, v)) by {
                if stack.len() > 0 {
                    assert(stack1[0] == stack[0]);
                }
            }
            assert(stack1.len() > 0);
            if !w1.found && w1.path.len() == 0 && w1.seen[i] && trail_ok(h, stack1, w1.seen)
                && sprouted(h, i, v, seen, w1.seen, d, d1, k + 1) {
                // nothing found below `i`: on to the next neighbour
                assert(w1.path =~= none);
                assert(w == scan(h, v, parent, i + 1, w1.seen, none));
                lemma_next_neighbour(h, v, parent, i, seen0, seen, w1.seen, stack, d0, d, d1, k);
                lemma_scan_trail(h, v, parent, i + 1, seen0, w1.seen, stack, d0, d1, k)
            } else if w1.found && reported(h, stack1, i, v, w1.path) {
                let p = w1.path;
                if p[0] == v {
                    // the cycle closed at `v`
                    assert(!w.found && w.path == p);
                    lemma_ring_closed(h, v, i, stack, p);
                    (d1, p)
                } else {
                    // the report goes on through `v`
                    assert(w.found && w.path == p.push(v as u8));
                    lemma_report_up(h, v, parent, i, stack, p);
                    (d1, none)
                }
            } else {
                // a ring that does not pass through the start of the search
                assert(w1.path.len() > 0 && is_ring(h, r1.1) && !passes(r1.1, root_of(stack, v)));
                if !w1.found {
                    lemma_scan_shape(h, v, parent, i + 1, w1.seen, w1.path);
                }
                assert(w.path.len() > 0);
                (d1, r1.1)
            }
        }
    } else {
        lemma_skip(h, v, parent, i, seen0, seen, stack, d0, d, k);
        assert(w == scan(h, v, parent, i + 1, seen, none));
        lemma_scan_trail(h, v, parent, i + 1, seen0, seen, stack, d0, d, k)
    }
}

/// The levels of `grown` after one more neighbour `i` of `v` has been
/// visited without a report.
proof fn lemma_grow(
    h: Seq<Seq<u8>>,
    v: int,
    i: int,
    seen0: Seq<bool>,
    seen: Seq<bool>,
    seen1: Seq<bool>,
    d0: Seq<int>,
    d: Seq<int>,
    d1: Seq<int>,
    k: int,
)
    requires
        nine_by_nine(h),
        symmetric(h),
        no_loops(h),
        0 <= v < 9,
        0 <= i < 9,
        i != v,
        seen0.len() == 9,
        seen.len() == 9,
        seen1.len() == 9,
        !seen0[v],
        seen[v],
        !seen[i],
        adj(h, v, i),
        forall|x: int| 0 <= x < 9 && seen0[x] ==> #[trigger] seen[x],
        forall|x: int| 0 <= x < 9 && seen[x] ==> #[trigger] seen1[x],
        grown(h, v, seen0, seen, d0, d, k),
        sprouted(h, i, v, seen, seen1, d, d1, k + 1),
    ensures
        grown(h, v, seen0, seen1, d0, d1, k),
{
    reveal(grown);
    reveal(sprouted);
    assert forall|x: int| 0 <= x < 9 implies (#[trigger] fresh(seen0, seen1, x) <==> fresh(
        seen0,
        seen,
        x,
    ) || fresh(seen, seen1, x)) by {}
    assert(!fresh(seen, seen1, v));
    assert(d1[v] == k);
    assert forall|x: int| 0 <= x < 9 && #[trigger] fresh(seen0, seen1, x) && x != v implies d1[x]
        > k by {
        if fresh(seen, seen1, x) {
        } else {
            assert(fresh(seen0, seen, x));
        }
    }
    assert forall|x: int| 0 <= x < 9 && !#[trigger] fresh(seen0, seen1, x) implies d1[x]
        == d0[x] by {
        assert(!fresh(seen, seen1, x));
        assert(!fresh(seen0, seen, x));
    }
    assert forall|x: int, y: int|
        0 <= x < 9 && 0 <= y < 9 && fresh(seen0, seen1, x) && x != v && #[trigger] adj(
            h,
            x,
            y,
        ) implies fresh(seen0, seen1, y) && (d1[x] == d1[y] + 1 || d1[y] == d1[x] + 1) by {
        if fresh(seen, seen1, x) {
            if x == i && y == v {
                assert(fresh(seen0, seen, v));
            } else {
                assert(fresh(seen, seen1, y));
            }
        } else {
            assert(fresh(seen0, seen, x));
            assert(fresh(seen0, seen, y));
            assert(!fresh(seen, seen1, x));
            assert(!fresh(seen, seen1, y));
        }
    }
    assert forall|x: int, y: int, z: int|
        0 <= x < 9 && 0 <= y < 9 && 0 <= z < 9 && fresh(seen0, seen1, x) && x != v && fresh(
            seen0,
            seen1,
            y,
        ) && fresh(seen0, seen1, z) && #[trigger] adj(h, x, y) && #[trigger] adj(h, x, z) && d1[y]
            == d1[x] - 1 && d1[z] == d1[x] - 1 implies y == z by {
        if fresh(seen, seen1, x) {
            // below `i`: its neighbours are below `i` too, but for `v` above `i`
            if y == v || z == v {
                assert(x == i) by {
                    if y == v {
                        assert(!fresh(seen, seen1, y));
                    } else {
                        assert(!fresh(seen, seen1, z));
                    }
                }
                if y != v {
                    assert(fresh(seen, seen1, y));
                    assert(d1[y] > k + 1);
                }
                if z != v {
                    assert(fresh(seen, seen1, z));
                    assert(d1[z] > k + 1);
                }
            } else {
                assert(fresh(seen, seen1, y));
                assert(fresh(seen, seen1, z));
            }
        } else {
            assert(fresh(seen0, seen, x));
            assert(fresh(seen0, seen, y));
            assert(fresh(seen0, seen, z));
            assert(!fresh(seen, seen1, x));
            assert(!fresh(seen, seen1, y));
            assert(!fresh(seen, seen1, z));
        }
    }
    assert forall|y: int|
        0 <= y < 9 && #[trigger] adj(h, v, y) && fresh(seen0, seen1, y) implies d1[y] == k
        + 1 by {
        assert(h[y][v] == h[v][y]);
        assert(adj(h, y, v));
        if fresh(seen, seen1, y) {
            assert(y == i);
        } else {
            assert(fresh(seen0, seen, y));
            assert(!fresh(seen, seen1, y));
        }
    }
}

/// The search from `a`, with nothing seen yet, comes to one of three ends.
/// It reports nothing, and the squares it saw are joined among themselves
/// only and laid out by the levels it hands back, which keep the old levels of
/// the squares it did not see; or the path is a ring that starts at `a`; or
/// the graph has a ring that does not pass through `a`.
pub proof fn lemma_search(h: Seq<Seq<u8>>, a: int, d0: Seq<int>) -> (r: (Seq<int>, Seq<u8>))
    requires
        nine_by_nine(h),
        symmetric(h),
        no_loops(h),
        0 <= a < 9,
        d0.len() == 9,
    ensures
        ({
            let w = visit(h, a, -1, none_seen(), Seq::empty());
            ||| (w.path.len() == 0 && explored(h, w.seen, d0, r.0) && rooted(a, w.seen, r.0))
            ||| (is_ring(h, w.path) && w.path[0] == a)
            ||| (w.path.len() > 0 && is_ring(h, r.1) && !passes(r.1, a))
        }),
{
    let stack: Seq<int> = Seq::empty();
    let w = visit(h, a, -1, none_seen(), Seq::empty());
    assert(trail_ok(h, stack, none_seen())) by {
        reveal(trail_ok);
    }
    let r = lemma_visit_trail(h, a, -1, none_seen(), stack, d0, 0);
    assert(!reported(h, stack, a, -1, w.path)) by {
        reveal(reported);
    }
    if !w.found && w.path.len() == 0 && w.seen[a] && trail_ok(h, stack, w.seen) && sprouted(
        h,
        a,
        -1,
        none_seen(),
        w.seen,
        d0,
        r.0,
        0,
    ) {
        reveal(sprouted);
        let d = r.0;
        assert forall|x: int| 0 <= x < 9 implies (#[trigger] fresh(none_seen(), w.seen, x)
            <==> w.seen[x]) by {}
        assert(explored(h, w.seen, d0, d)) by {
            assert forall|x: int, y: int|
                0 <= x < 9 && 0 <= y < 9 && w.seen[x] && #[trigger] adj(h, x, y) implies w.seen[y]
                && (d[x] == d[y] + 1 || d[y] == d[x] + 1) by {
                assert(fresh(none_seen(), w.seen, x));
            }
            assert forall|x: int, y: int, z: int|
                0 <= x < 9 && 0 <= y < 9 && 0 <= z < 9 && w.seen[x] && #[trigger] adj(h, x, y)
                    && #[trigger] adj(h, x, z) && d[y] == d[x] - 1 && d[z] == d[x]
                    - 1 implies y == z by {
                assert(fresh(none_seen(), w.seen, x));
                assert(fresh(none_seen(), w.seen, y));
                assert(fresh(none_seen(), w.seen, z));
            }
            assert forall|x: int| 0 <= x < 9 && !#[trigger] w.seen[x] implies d[x] == d0[x] by {
                assert(!fresh(none_seen(), w.seen, x));
            }
        }
        assert(rooted(a, w.seen, d)) by {
            assert forall|x: int| 0 <= x < 9 && #[trigger] w.seen[x] && x != a implies d[x] > 0 by {
                assert(fresh(none_seen(), w.seen, x));
            }
        }
    }
    r
}

/// Square `a` was seen and has level 0; the other squares seen are below it.
pub open spec fn rooted(a: int, seen: Seq<bool>, d: Seq<int>) -> bool {
    &&& seen[a]
    &&& d[a] == 0
    &&& forall|x: int| 0 <= x < 9 && #[trigger] seen[x] && x != a ==> d[x] > 0
}

/// The squares `seen` are joined among themselves only, and the levels `d`
/// lay them out; the other squares have the levels `d0`.
pub open spec fn explored(h: Seq<Seq<u8>>, seen: Seq<bool>, d0: Seq<int>, d: Seq<int>) -> bool {
    &&& seen.len() == 9
    &&& d.len() == 9
    &&& forall|x: int, y: int|
        0 <= x < 9 && 0 <= y < 9 && seen[x] && #[trigger] adj(h, x, y) ==> seen[y] && (d[x] == d[y]
            + 1 || d[y] == d[x] + 1)
    &&& forall|x: int, y: int, z: int|
        0 <= x < 9 && 0 <= y < 9 && 0 <= z < 9 && seen[x] && #[trigger] adj(h, x, y)
            && #[trigger] adj(h, x, z) && d[y] == d[x] - 1 && d[z] == d[x] - 1 ==> y == z
    &&& forall|x: int| 0 <= x < 9 && !#[trigger] seen[x] ==> d[x] == d0[x]
}

/// What one more edge does to the counts of a graph.
pub proof fn lemma_with_edge(g: Seq<Seq<u8>>, a: int, b: int)
    requires
        nine_by_nine(g),
        symmetric(g),
        simple(g),
        0 <= a < 9,
        0 <= b < 9,
        a != b,
    ensures
        nine_by_nine(with_edge(g, a, b)),
        symmetric(with_edge(g, a, b)),
        forall|u: int, v: int|
            0 <= u < 9 && 0 <= v < 9 ==> #[trigger] with_edge(g, a, b)[u][v] == (if (u == a && v
                == b) || (u == b && v == a) {
                (g[u][v] + 1) as u8
            } else {
                g[u][v]
            }),
{
    let h = with_edge(g, a, b);
    assert(g[a][b] == g[b][a]);
    assert(g[a][b] <= 1);
    assert forall|u: int, v: int| 0 <= u < 9 && 0 <= v < 9 implies #[trigger] h[u][v] == (if (u
        == a && v == b) || (u == b && v == a) {
        (g[u][v] + 1) as u8
    } else {
        g[u][v]
    }) by {}
    assert forall|u: int, v: int| 0 <= u < 9 && 0 <= v < 9 implies #[trigger] h[u][v]
        == h[v][u] by {
        assert(g[u][v] == g[v][u]);
    }
}

/// A forest with one more edge at `a` is a forest, if the squares joined to
/// `a` are laid out by levels and joined among themselves only.
proof fn lemma_laid_out(
    g: Seq<Seq<u8>>,
    a: int,
    b: int,
    seen: Seq<bool>,
    d0: Seq<int>,
    d: Seq<int>,
)
    requires
        is_forest(g),
        layered(g, d0),
        0 <= a < 9,
        0 <= b < 9,
        a != b,
        simple(with_edge(g, a, b)),
        explored(with_edge(g, a, b), seen, d0, d),
        seen[a],
    ensures
        is_forest(with_edge(g, a, b)),
{
    let h = with_edge(g, a, b);
    lemma_with_edge(g, a, b);
    assert(layered(h, d)) by {
        assert forall|u: int, v: int|
            0 <= u < 9 && 0 <= v < 9 && #[trigger] adj(h, u, v) implies d[u]
            == d[v] + 1 || d[v] == d[u] + 1 by {
            if !seen[u] {
                assert(h[v][u] == h[u][v]);
                assert(adj(h, v, u));
                assert(!seen[v]);
                assert(adj(g, u, v));
            }
        }
        assert forall|u: int, v: int, z: int|
            0 <= u < 9 && 0 <= v < 9 && 0 <= z < 9 && #[trigger] adj(h, u, v) && #[trigger] adj(
                h,
                u,
                z,
            ) && d[v] == d[u] - 1 && d[z] == d[u] - 1 implies v == z by {
            if !seen[u] {
                assert(h[v][u] == h[u][v]);
                assert(adj(h, v, u));
                assert(h[z][u] == h[u][z]);
                assert(adj(h, z, u));
                assert(!seen[v]);
                assert(!seen[z]);
                assert(adj(g, u, v));
                assert(adj(g, u, z));
            }
        }
    }
}

/// A forest with one more edge, in which the search from a square of that
/// edge reports no cycle, is a forest.
pub proof fn lemma_no_report_keeps_forest(g: Seq<Seq<u8>>, a: int, b: int)
    requires
        is_forest(g),
        0 <= a < 9,
        0 <= b < 9,
        a != b,
        cycle_path(with_edge(g, a, b), a).len() == 0,
    ensures
        is_forest(with_edge(g, a, b)),
{
    let h = with_edge(g, a, b);
    lemma_with_edge(g, a, b);
    let d0 = choose|d: Seq<int>| layered(g, d);
    lemma_forest_no_loops(g);
    assert(no_loops(h)) by {
        assert forall|u: int| 0 <= u < 9 implies #[trigger] h[u][u] == 0 by {
            assert(g[u][u] == 0);
        }
    }
    let k = last_max(h[a], 9);
    lemma_last_max_in_range(h[a], 9);
    lemma_last_max_is_max(h[a], 9);
    assert(h[a][k] < 2);
    assert(h[a][b] <= h[a][k]);
    assert(simple(h)) by {
        assert forall|u: int, v: int| 0 <= u < 9 && 0 <= v < 9 implies #[trigger] h[u][v]
            <= 1 by {
            assert(g[u][v] <= 1);
            assert(h[b][a] == h[a][b]);
        }
    }
    let r = lemma_search(h, a, d0);
    let w = visit(h, a, -1, none_seen(), Seq::empty());
    assert(w.path.len() == 0);
    lemma_laid_out(g, a, b, w.seen, d0, r.0);
}

/// A forest with one more edge between two squares that it did not join is a
/// forest, if the graph has no ring that starts at a square of that edge.
pub proof fn lemma_no_ring_keeps_forest(g: Seq<Seq<u8>>, a: int, b: int)
    requires
        is_forest(g),
        0 <= a < 9,
        0 <= b < 9,
        a != b,
        g[a][b] == 0,
        forall|ring: Seq<u8>| #[trigger] is_ring(with_edge(g, a, b), ring) ==> ring[0] != a,
    ensures
        is_forest(with_edge(g, a, b)),
{
    let h = with_edge(g, a, b);
    lemma_with_edge(g, a, b);
    let d0 = choose|d: Seq<int>| layered(g, d);
    lemma_forest_no_loops(g);
    assert(no_loops(h)) by {
        assert forall|u: int| 0 <= u < 9 implies #[trigger] h[u][u] == 0 by {
            assert(g[u][u] == 0);
        }
    }
    assert(simple(h)) by {
        assert forall|u: int, v: int| 0 <= u < 9 && 0 <= v < 9 implies #[trigger] h[u][v]
            <= 1 by {
            assert(g[u][v] <= 1);
            assert(g[b][a] == g[a][b]);
        }
    }
    let r = lemma_search(h, a, d0);
    let w = visit(h, a, -1, none_seen(), Seq::empty());
    if is_ring(h, r.1) && !passes(r.1, a) {
        lemma_ring_passes_new_edge(g, a, b, r.1);
    }
    lemma_laid_out(g, a, b, w.seen, d0, r.0);
}

/// A forest joins no square to itself.
pub proof fn lemma_forest_no_loops(g: Seq<Seq<u8>>)
    requires
        is_forest(g),
    ensures
        no_loops(g),
{
    let d = choose|d: Seq<int>| layered(g, d);
    assert forall|u: int| 0 <= u < 9 implies #[trigger] g[u][u] == 0 by {
        if g[u][u] > 0 {
            assert(adj(g, u, u));
        }
    }
}

/// The cycle that the search reports in a forest with one more edge, from a
/// square `a` of that edge: the two squares of the edge, if they were joined
/// before; else a ring that starts at `a`.
pub proof fn lemma_report_is_ring(g: Seq<Seq<u8>>, a: int, b: int)
    requires
        is_forest(g),
        0 <= a < 9,
        0 <= b < 9,
        a != b,
        cycle_path(with_edge(g, a, b), a).len() > 0,
    ensures
        ({
            let h = with_edge(g, a, b);
            let c = cycle_path(h, a);
            &&& c[0] == a
            &&& {
                ||| (c.len() == 2 && c[1] == b && h[a][b] == 2 && g[a][b] == 1)
                ||| (is_ring(h, c) && simple(h))
            }
        }),
{
    let h = with_edge(g, a, b);
    let c = cycle_path(h, a);
    lemma_with_edge(g, a, b);
    lemma_forest_no_loops(g);
    assert(no_loops(h)) by {
        assert forall|u: int| 0 <= u < 9 implies #[trigger] h[u][u] == 0 by {
            assert(g[u][u] == 0);
        }
    }
    let k = last_max(h[a], 9);
    lemma_last_max_in_range(h[a], 9);
    lemma_last_max_is_max(h[a], 9);
    assert(g[a][k] <= 1);
    assert(g[a][b] <= 1);
    if h[a][k] >= 2 {
        assert(k == b);
        assert(c =~= seq![a as u8, b as u8]);
    } else {
        assert(h[a][b] <= h[a][k]);
        assert(simple(h)) by {
            assert forall|u: int, v: int| 0 <= u < 9 && 0 <= v < 9 implies #[trigger] h[u][v]
                <= 1 by {
                assert(g[u][v] <= 1);
                assert(h[b][a] == h[a][b]);
            }
        }
        let d0 = choose|d: Seq<int>| layered(g, d);
        let r = lemma_search(h, a, d0);
        let w = visit(h, a, -1, none_seen(), Seq::empty());
        if w.path.len() > 0 && is_ring(h, r.1) && !passes(r.1, a) {
            lemma_ring_passes_new_edge(g, a, b, r.1);
        }
    }
}

/// The squares of a ring from index `i` up to the last are seen, if square
/// `i` is seen and the squares seen are joined among themselves only.
proof fn lemma_seen_up(h: Seq<Seq<u8>>, seen: Seq<bool>, d: Seq<int>, ring: Seq<u8>, i: int)
    requires
        explored(h, seen, d, d),
        is_ring(h, ring),
        0 <= i < ring.len(),
        seen[ring[i] as int],
    ensures
        forall|k: int| i <= k < ring.len() ==> seen[#[trigger] ring[k] as int],
    decreases ring.len() - i,
{
    if i + 1 < ring.len() {
        assert(adj(h, ring[i] as int, ring[i + 1] as int));
        lemma_seen_up(h, seen, d, ring, i + 1);
    }
}

/// The squares of a ring from index `i` down to the first are seen, if square
/// `i` is seen and the squares seen are joined among themselves only.
proof fn lemma_seen_down(h: Seq<Seq<u8>>, seen: Seq<bool>, d: Seq<int>, ring: Seq<u8>, i: int)
    requires
        symmetric(h),
        explored(h, seen, d, d),
        is_ring(h, ring),
        0 <= i < ring.len(),
        seen[ring[i] as int],
    ensures
        forall|k: int| 0 <= k <= i ==> seen[#[trigger] ring[k] as int],
    decreases i,
{
    if i > 0 {
        assert(adj(h, ring[i - 1] as int, ring[i - 1 + 1] as int));
        assert(h[ring[i] as int][ring[i - 1] as int] == h[ring[i - 1] as int][ring[i] as int]);
        assert(adj(h, ring[i] as int, ring[i - 1] as int));
        lemma_seen_down(h, seen, d, ring, i - 1);
    }
}

/// No ring passes through squares that are laid out by levels and joined
/// among themselves only.
pub proof fn lemma_explored_has_no_ring(
    h: Seq<Seq<u8>>,
    seen: Seq<bool>,
    d: Seq<int>,
    ring: Seq<u8>,
    a: int,
)
    requires
        symmetric(h),
        explored(h, seen, d, d),
        0 <= a < 9,
        seen[a],
        is_ring(h, ring),
    ensures
        !passes(ring, a),
{
    if passes(ring, a) {
        let i = choose|i: int| 0 <= i < ring.len() && #[trigger] ring[i] == a;
        lemma_seen_up(h, seen, d, ring, i);
        lemma_seen_down(h, seen, d, ring, i);
        // the squares of the ring, where they are seen, are laid out as a
        // forest: outside the ring the graph may do as it likes
        let g = Seq::new(
            9,
            |u: int|
                Seq::new(
                    9,
                    |v: int|
                        if seen[u] {
                            h[u][v]
                        } else {
                            0u8
                        },
                ),
        );
        assert forall|u: int, v: int| 0 <= u < 9 && 0 <= v < 9 && adj(g, u, v) implies adj(h, u, v)
            && seen[u] && seen[v] by {}
        assert(symmetric(g)) by {
            assert forall|u: int, v: int| 0 <= u < 9 && 0 <= v < 9 implies #[trigger] g[u][v]
                == g[v][u] by {
                assert(h[u][v] == h[v][u]);
                if seen[u] && h[u][v] > 0 {
                    assert(adj(h, u, v));
                }
                if seen[v] && h[v][u] > 0 {
                    assert(adj(h, v, u));
                }
            }
        }
        assert(layered(g, d)) by {
            assert forall|u: int, v: int|
                0 <= u < 9 && 0 <= v < 9 && #[trigger] adj(g, u, v) implies d[u] == d[v] + 1
                || d[v] == d[u] + 1 by {
                assert(adj(h, u, v));
            }
            assert forall|u: int, v: int, w: int|
                0 <= u < 9 && 0 <= v < 9 && 0 <= w < 9 && #[trigger] adj(g, u, v) && #[trigger] adj(
                    g,
                    u,
                    w,
                ) && d[v] == d[u] - 1 && d[w] == d[u] - 1 implies v == w by {
                assert(adj(h, u, v));
                assert(adj(h, u, w));
            }
        }
        assert(is_ring(g, ring)) by {
            assert forall|k: int| 0 <= k < ring.len() - 1 implies adj(
                g,
                #[trigger] ring[k] as int,
                ring[k + 1] as int,
            ) by {
                assert(adj(h, ring[k] as int, ring[k + 1] as int));
                assert(seen[ring[k] as int]);
            }
            assert(seen[ring[ring.len() - 1] as int]);
        }
        crate::forest::lemma_layered_has_no_ring(g, d, ring);
    }
}

/// Two edges join `start` to some square.
pub open spec fn doubled_at(g: Seq<Seq<u8>>, start: int) -> bool {
    exists|k: int| 0 <= k < 9 && #[trigger] g[start][k] >= 2
}

/// What the search tells of a graph that is symmetric and without loops.
/// Where it reports a cycle, two edges join its start to some square, or
/// the graph has a ring. Where it reports none, no two edges join its start
/// to a square, and no ring passes through its start.
pub proof fn lemma_what_search_tells(g: Seq<Seq<u8>>, start: int)
    requires
        nine_by_nine(g),
        symmetric(g),
        no_loops(g),
        0 <= start < 9,
    ensures
        cycle_path(g, start).len() > 0 ==> doubled_at(g, start) || exists|ring: Seq<u8>|
            #[trigger] is_ring(g, ring),
        cycle_path(g, start).len() == 0 ==> !doubled_at(g, start) && forall|ring: Seq<u8>|
            #[trigger] is_ring(g, ring) ==> !passes(ring, start),
{
    let k = last_max(g[start], 9);
    lemma_last_max_in_range(g[start], 9);
    lemma_last_max_is_max(g[start], 9);
    if g[start][k] >= 2 {
        assert(cycle_path(g, start).len() == 2);
    } else {
        assert(!doubled_at(g, start));
        let d0 = Seq::new(9, |i: int| 0int);
        let r = lemma_search(g, start, d0);
        let w = visit(g, start, -1, none_seen(), Seq::empty());
        if w.path.len() == 0 {
            assert forall|ring: Seq<u8>| #[trigger] is_ring(g, ring) implies !passes(
                ring,
                start,
            ) by {
                assert forall|x: int| 0 <= x < 9 && !#[trigger] w.seen[x] implies r.0[x]
                    == d0[x] by {}
                lemma_explored_again(g, w.seen, d0, r.0);
                lemma_explored_has_no_ring(g, w.seen, r.0, ring, start);
            }
        } else {
            if is_ring(g, w.path) {
            } else {
                assert(is_ring(g, r.1));
            }
        }
    }
}

/// Levels that lay squares out do so whatever levels the other squares had.
proof fn lemma_explored_again(h: Seq<Seq<u8>>, seen: Seq<bool>, d0: Seq<int>, d: Seq<int>)
    requires
        explored(h, seen, d0, d),
    ensures
        explored(h, seen, d, d),
{
}

} // verus!
