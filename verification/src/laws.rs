//! What holds of every game: the invariant that the states of a game keep,
//! and the laws that follow from it.

use crate::cascade::wiped;
use crate::classical::Mark;
use crate::collapse::{
    connected, lemma_at_collapse, lemma_collapsed_coherent, lemma_collapsed_sound,
    lemma_collapsed_total,
};
use crate::forest::{adj, is_forest, layered, symmetric};
use crate::graph::{
    cycle_path, last_max, lemma_cycle_path_shape, lemma_last_max_in_range, no_edges, no_loops,
    none_seen, scan, with_edge, Walk,
};
use crate::marks::{lemma_collapse_decides, lemma_collapse_fills, lemma_collapse_marks};
use crate::quantum::{
    count_upto, holds, lemma_count_none, lemma_count_same, lemma_count_two, lemma_holds_after_set,
    lemma_holds_both, lemma_masks, lemma_moves_none, lemma_moves_one_more, lemma_moves_same,
    lemma_one_move, lemma_two_moves, mov_bit, moves_upto, sound, with_move,
};
use crate::rules::{
    after, broken, collapses, collapses_pair, consistent, decided, decides, initial, listed,
    mark_of_move, next_in, offered, placed, placements, placements_with, position, prev_in, shaped,
    struck, took_own, valid, BoardView, Move,
};
use crate::traversal::{
    lemma_forest_no_loops, lemma_no_report_keeps_forest, lemma_report_is_ring, lemma_with_edge,
};
use vstd::arithmetic::div_mod::{lemma_fundamental_div_mod_converse, lemma_small_mod};
use vstd::prelude::*;

verus! {

/// Two different squares are joined by an edge just when they share a
/// pending move.
pub open spec fn linked(b: BoardView) -> bool {
    forall|u: int, v: int|
        0 <= u < 9 && 0 <= v < 9 && u != v ==> (#[trigger] adj(b.graph, u, v) <==> b.quantum[u]
            & b.quantum[v] != 0)
}

/// A square with a classical mark has no pending move.
pub open spec fn settled_apart(b: BoardView) -> bool {
    forall|sq: int| 0 <= sq < 9 && #[trigger] b.classic[sq] != Mark::Empty ==> b.quantum[sq] == 0
}

/// No square records a move that has not been made yet.
pub open spec fn unused_free(b: BoardView) -> bool {
    forall|sq: int, m: int|
        0 <= sq < 9 && b.next_mov <= m < 16 ==> !#[trigger] holds(b.quantum[sq], m)
}

/// No move is pending in three squares.
pub open spec fn at_most_two(q: Seq<u16>) -> bool {
    forall|m: int, x: int, y: int, z: int|
        0 <= m < 9 && 0 <= x < y < z < 9 ==> !(#[trigger] holds(q[x], m) && #[trigger] holds(
            q[y],
            m,
        ) && #[trigger] holds(q[z], m))
}

/// Two squares that share two pending moves are joined by two edges.
pub open spec fn doubled(b: BoardView) -> bool {
    forall|u: int, v: int, m: int, k: int|
        0 <= u < 9 && 0 <= v < 9 && u != v && 0 <= m < 9 && 0 <= k < 9 && m != k
            && #[trigger] holds(b.quantum[u], m) && #[trigger] holds(b.quantum[v], m)
            && #[trigger] holds(b.quantum[u], k) && #[trigger] holds(b.quantum[v], k)
            ==> b.graph[u][v] >= 2
}

/// Two different squares are joined by as many edges as they share pending
/// moves.
pub open spec fn counted(b: BoardView) -> bool {
    forall|u: int, v: int|
        0 <= u < 9 && 0 <= v < 9 && u != v ==> #[trigger] b.graph[u][v] == moves_upto(
            b.quantum[u] & b.quantum[v],
            9,
        )
}

/// The graph of `b` is forest `f` with one more edge, between `a` and `c`, and
/// the pending cycle is the one found from `a`.
pub open spec fn lifted(b: BoardView, f: Seq<Seq<u8>>, a: int, c: int) -> bool {
    &&& is_forest(f)
    &&& 0 <= a < 9
    &&& 0 <= c < 9
    &&& a != c
    &&& b.graph == with_edge(f, a, c)
    &&& b.cycle == cycle_path(b.graph, a)
}

/// The graph of `b` is a forest with one more edge, which closed the pending
/// cycle.
pub open spec fn pending(b: BoardView) -> bool {
    exists|f: Seq<Seq<u8>>, a: int, c: int| #[trigger] lifted(b, f, a, c)
}

/// The invariant of a game. The state has its shape; the graph is symmetric
/// and joins two squares by as many edges as they share pending moves;
/// classical squares hold no pending move; no move is recorded before it is
/// made, nor in three squares; and the graph is a forest while no cycle is
/// pending, a forest with the one edge that closed the cycle while one is,
/// and then nobody has won.
pub open spec fn coherent(b: BoardView) -> bool {
    &&& shaped(b)
    &&& symmetric(b.graph)
    &&& linked(b)
    &&& doubled(b)
    &&& counted(b)
    &&& settled_apart(b)
    &&& unused_free(b)
    &&& at_most_two(b.quantum)
    &&& (b.cycle.len() == 0 ==> is_forest(b.graph))
    &&& (b.cycle.len() > 0 ==> pending(b) && !decided(b.classic))
}

/// A coherent state passes the consistency check.
pub proof fn lemma_coherent_is_consistent(b: BoardView)
    requires
        coherent(b),
    ensures
        consistent(b),
{
    assert forall|sq: int, j: int|
        0 <= sq < 9 && 0 <= j < 9 && b.classic[sq] != Mark::Empty implies #[trigger] b.graph[sq][j]
        == 0 by {
        if j == sq {
            assert(b.graph[sq][sq] == 0);
        } else {
            lemma_masks(b.quantum[j], 0, 0);
            assert(!adj(b.graph, sq, j));
        }
    }
    assert forall|u: int, v: int|
        0 <= u < 9 && 0 <= v < 9 && #[trigger] b.graph[u][v] > 0 implies b.quantum[u]
        & b.quantum[v] != 0 by {
        assert(b.graph[u][u] == 0);
        assert(adj(b.graph, u, v));
    }
}

/// A game starts in a coherent state.
pub proof fn lemma_initial_coherent()
    ensures
        coherent(initial()),
{
    let b = initial();
    let d = Seq::new(9, |i: int| 0int);
    assert(layered(b.graph, d));
    assert(is_forest(b.graph));
    assert forall|u: int, v: int| 0 <= u < 9 && 0 <= v < 9 && u != v implies (#[trigger] adj(
        b.graph,
        u,
        v,
    ) <==> b.quantum[u] & b.quantum[v] != 0) by {
        lemma_masks(0, 0, 0);
    }
    assert forall|sq: int, m: int| 0 <= sq < 9 && 0 <= m < 16 implies !#[trigger] holds(
        b.quantum[sq],
        m,
    ) by {
        lemma_holds_after_set(0, m as u16, m as u16);
    }
    assert forall|u: int, v: int|
        0 <= u < 9 && 0 <= v < 9 && u != v implies #[trigger] b.graph[u][v]
        == moves_upto(b.quantum[u] & b.quantum[v], 9) by {
        lemma_masks(0, 0, 0);
        assert forall|m: int| 0 <= m < 9 implies !#[trigger] holds(0u16, m) by {
            lemma_holds_after_set(0, m as u16, m as u16);
        }
        lemma_moves_none(0u16, 9);
    }
}

/// A valid placement keeps the count of the edges: two squares are joined by
/// as many edges as they share pending moves.
proof fn lemma_placed_counted(b: BoardView, sq1: u8, sq2: u8)
    requires
        coherent(b),
        valid(b, Move::Quantum(sq1, sq2)),
    ensures
        counted(placed(b, sq1 as int, sq2 as int)),
{
    let t = placed(b, sq1 as int, sq2 as int);
    let q = b.quantum;
    let q2 = t.quantum;
    let m = b.next_mov;
    let s1 = sq1 as int;
    let s2 = sq2 as int;
    lemma_with_edge(b.graph, s1, s2);
    assert forall|x: int, k: int| 0 <= x < 9 && 0 <= k < 9 implies (#[trigger] holds(q2[x], k)
        <==> holds(q[x], k) || (k == m && (x == s1 || x == s2))) by {
        lemma_holds_after_set(q[x], m as u16, k as u16);
    }
    assert forall|x: int| 0 <= x < 9 implies !holds(#[trigger] q[x], m) by {}
    assert forall|u: int, v: int|
        0 <= u < 9 && 0 <= v < 9 && u != v implies #[trigger] t.graph[u][v]
        == moves_upto(q2[u] & q2[v], 9) by {
        let x = q[u] & q[v];
        let y = q2[u] & q2[v];
        assert(b.graph[u][v] == moves_upto(x, 9));
        assert(b.graph[u][v] <= 1);
        assert forall|k: int| 0 <= k < 9 implies (#[trigger] holds(y, k) <==> holds(q2[u], k)
            && holds(q2[v], k)) by {
            lemma_holds_both(q2[u], q2[v], k as u16);
        }
        assert forall|k: int| 0 <= k < 9 implies (#[trigger] holds(x, k) <==> holds(q[u], k)
            && holds(q[v], k)) by {
            lemma_holds_both(q[u], q[v], k as u16);
        }
        if (u == s1 && v == s2) || (u == s2 && v == s1) {
            lemma_moves_one_more(x, y, m, 9);
        } else {
            lemma_moves_same(y, x, 9);
        }
    }
}

/// A valid placement keeps the bounds on how moves are shared: none is in
/// three squares, and two squares that share two are joined twice.
proof fn lemma_placed_shares(b: BoardView, sq1: u8, sq2: u8)
    requires
        coherent(b),
        valid(b, Move::Quantum(sq1, sq2)),
    ensures
        at_most_two(placed(b, sq1 as int, sq2 as int).quantum),
        doubled(placed(b, sq1 as int, sq2 as int)),
{
    let t = placed(b, sq1 as int, sq2 as int);
    let q = b.quantum;
    let q2 = t.quantum;
    let m = b.next_mov;
    let s1 = sq1 as int;
    let s2 = sq2 as int;
    lemma_with_edge(b.graph, s1, s2);
    assert forall|x: int, k: int| 0 <= x < 9 && 0 <= k < 9 implies (#[trigger] holds(q2[x], k)
        <==> holds(q[x], k) || (k == m && (x == s1 || x == s2))) by {
        lemma_holds_after_set(q[x], m as u16, k as u16);
    }
    assert forall|x: int| 0 <= x < 9 implies !holds(#[trigger] q[x], m) by {}
    assert(at_most_two(q2)) by {
        assert forall|k: int, x: int, y: int, z: int| 0 <= k < 9 && 0 <= x < y < z < 9 implies !(
        #[trigger] holds(q2[x], k) && #[trigger] holds(q2[y], k) && #[trigger] holds(q2[z], k)) by {
            if k != m {
                assert(!(holds(q[x], k) && holds(q[y], k) && holds(q[z], k)));
            }
        }
    }
    assert(doubled(t)) by {
        assert forall|u: int, v: int, j: int, k: int|
            0 <= u < 9 && 0 <= v < 9 && u != v && 0 <= j < 9 && 0 <= k < 9 && j != k
                && #[trigger] holds(q2[u], j) && #[trigger] holds(q2[v], j) && #[trigger] holds(
                q2[u],
                k,
            ) && #[trigger] holds(q2[v], k) implies t.graph[u][v] >= 2 by {
            if j != m && k != m {
                assert(holds(q[u], j) && holds(q[v], j) && holds(q[u], k) && holds(q[v], k));
                assert(b.graph[u][v] >= 2);
                assert(b.graph[u][v] <= 1);
            } else {
                let other = if j == m {
                    k
                } else {
                    j
                };
                assert(holds(q[u], other) && holds(q[v], other));
                lemma_masks(q[u], q[v], other as u16);
                assert(adj(b.graph, u, v));
                assert(b.graph[u][v] <= 1);
            }
        }
    }
}

/// A valid placement keeps the state coherent.
pub proof fn lemma_placed_coherent(b: BoardView, sq1: u8, sq2: u8)
    requires
        coherent(b),
        valid(b, Move::Quantum(sq1, sq2)),
    ensures
        coherent(placed(b, sq1 as int, sq2 as int)),
{
    let t = placed(b, sq1 as int, sq2 as int);
    let g = b.graph;
    let h = t.graph;
    let m = b.next_mov;
    let s1 = sq1 as int;
    let s2 = sq2 as int;
    assert(is_forest(g));
    lemma_with_edge(g, s1, s2);
    lemma_forest_no_loops(g);
    assert(no_loops(h)) by {
        assert forall|u: int| 0 <= u < 9 implies #[trigger] h[u][u] == 0 by {
            assert(g[u][u] == 0);
        }
    }
    lemma_cycle_path_shape(h, s1);
    assert(shaped(t)) by {
        assert forall|u: int, v: int| 0 <= u < 9 && 0 <= v < 9 implies #[trigger] h[u][v]
            <= t.next_mov by {
            assert(g[u][v] <= b.next_mov);
            assert(g[u][v] <= 1);
        }
    }
    assert(linked(t)) by {
        assert forall|u: int, v: int| 0 <= u < 9 && 0 <= v < 9 && u != v implies (#[trigger] adj(
            h,
            u,
            v,
        ) <==> t.quantum[u] & t.quantum[v] != 0) by {
            lemma_masks(b.quantum[u], b.quantum[v], m as u16);
            lemma_masks(b.quantum[v], b.quantum[u], m as u16);
            assert(!holds(b.quantum[u], m));
            assert(!holds(b.quantum[v], m));
            assert(adj(g, u, v) <==> b.quantum[u] & b.quantum[v] != 0);
            assert(g[u][v] <= 1);
        }
    }
    assert(settled_apart(t)) by {
        assert forall|sq: int|
            0 <= sq < 9 && #[trigger] t.classic[sq] != Mark::Empty implies t.quantum[sq]
            == 0 by {
            assert(b.classic[sq] != Mark::Empty);
        }
    }
    assert(unused_free(t)) by {
        assert forall|sq: int, k: int|
            0 <= sq < 9 && t.next_mov <= k < 16 implies !#[trigger] holds(
            t.quantum[sq],
            k,
        ) by {
            lemma_holds_after_set(b.quantum[sq], m as u16, k as u16);
            assert(!holds(b.quantum[sq], k));
        }
    }
    lemma_placed_shares(b, sq1, sq2);
    lemma_placed_counted(b, sq1, sq2);
    if t.cycle.len() == 0 {
        lemma_no_report_keeps_forest(g, s1, s2);
    } else {
        assert(lifted(t, g, s1, s2));
    }
}

/// A valid placement keeps the quantum board sound.
pub proof fn lemma_placed_sound(b: BoardView, sq1: u8, sq2: u8)
    requires
        coherent(b),
        valid(b, Move::Quantum(sq1, sq2)),
        sound(b.quantum),
    ensures
        sound(placed(b, sq1 as int, sq2 as int).quantum),
{
    let q = b.quantum;
    let m = b.next_mov;
    let s1 = sq1 as int;
    let s2 = sq2 as int;
    let q2 = with_move(q, m, s1, s2);
    assert forall|k: int| 0 <= k < 9 implies #[trigger] count_upto(q2, k, 9) == 0 || count_upto(
        q2,
        k,
        9,
    ) == 2 by {
        assert forall|t: int| 0 <= t < 9 implies holds(#[trigger] q2[t], k) == (holds(q[t], k) || (k
            == m && (t == s1 || t == s2))) by {
            lemma_holds_after_set(q[t], m as u16, k as u16);
        }
        if k == m {
            assert forall|t: int| 0 <= t < 9 implies (holds(#[trigger] q2[t], k) <==> t == s1 || t
                == s2) by {
                assert(!holds(q[t], m));
            }
            if s1 < s2 {
                lemma_count_two(q2, k, s1, s2, 9);
            } else {
                lemma_count_two(q2, k, s2, s1, 9);
            }
        } else {
            lemma_count_same(q2, q, k, 9);
            assert(count_upto(q, k, 9) == 0 || count_upto(q, k, 9) == 2);
        }
    }
    assert forall|t: int| 0 <= t < 9 implies #[trigger] q2[t] <= 0x1ff by {
        lemma_masks(q[t], 0, m as u16);
        assert(q[t] <= 0x1ff);
    }
}

/// A collapse listed among the first `n` moves is a collapse at the first
/// square of the cycle to an offered move.
proof fn lemma_collapses_members(b: BoardView, n: int, m: Move)
    requires
        0 <= n <= 9,
        collapses(b, n).contains(m),
    ensures
        exists|mov: int|
            0 <= mov < n && #[trigger] offered(b, mov) && m == (Move::Collapse {
                sq: b.cycle[0],
                mov: mov as u8,
            }),
    decreases n,
{
    if n > 0 {
        let rest = collapses(b, n - 1);
        let i = choose|i: int| 0 <= i < collapses(b, n).len() && collapses(b, n)[i] == m;
        if offered(b, n - 1) && i == rest.len() {
            assert(m == (Move::Collapse { sq: b.cycle[0], mov: (n - 1) as u8 }));
        } else {
            assert(rest[i] == m);
            lemma_collapses_members(b, n - 1, m);
        }
    }
}

/// A placement listed with `sq1` is on `sq1` and a higher square, both
/// classically empty.
proof fn lemma_placements_with_members(classic: Seq<Mark>, sq1: int, n: int, m: Move)
    requires
        0 <= sq1 < 9,
        n <= 9,
        placements_with(classic, sq1, n).contains(m),
    ensures
        exists|sq2: int|
            sq1 < sq2 < n && #[trigger] classic[sq2] == Mark::Empty && m == Move::Quantum(
                sq1 as u8,
                sq2 as u8,
            ),
    decreases n - sq1,
{
    if n > sq1 + 1 {
        let rest = placements_with(classic, sq1, n - 1);
        let all = placements_with(classic, sq1, n);
        let i = choose|i: int| 0 <= i < all.len() && all[i] == m;
        if classic[n - 1] == Mark::Empty && i == rest.len() {
            assert(m == Move::Quantum(sq1 as u8, (n - 1) as u8));
        } else {
            assert(rest[i] == m);
            lemma_placements_with_members(classic, sq1, n - 1, m);
        }
    }
}

/// Move `m` is the placement on `sq1` and the higher square `sq2`, both
/// classically empty.
pub open spec fn placement_on(classic: Seq<Mark>, m: Move, sq1: int, sq2: int) -> bool {
    &&& 0 <= sq1 < sq2 < 9
    &&& classic[sq1] == Mark::Empty
    &&& classic[sq2] == Mark::Empty
    &&& m == Move::Quantum(sq1 as u8, sq2 as u8)
}

/// A listed placement is on two different squares that are classically
/// empty, the lower one first.
proof fn lemma_placements_members(classic: Seq<Mark>, n: int, m: Move)
    requires
        0 <= n <= 9,
        placements(classic, n).contains(m),
    ensures
        exists|sq1: int, sq2: int| sq1 < n && #[trigger] placement_on(classic, m, sq1, sq2),
    decreases n,
{
    if n > 0 {
        let rest = placements(classic, n - 1);
        let all = placements(classic, n);
        let i = choose|i: int| 0 <= i < all.len() && all[i] == m;
        if classic[n - 1] == Mark::Empty && i >= rest.len() {
            let row = placements_with(classic, n - 1, 9);
            assert(row[i - rest.len()] == m);
            lemma_placements_with_members(classic, n - 1, 9, m);
            let sq2 = choose|sq2: int|
                n - 1 < sq2 < 9 && #[trigger] classic[sq2] == Mark::Empty && m == Move::Quantum(
                    (n - 1) as u8,
                    sq2 as u8,
                );
            assert(placement_on(classic, m, n - 1, sq2));
        } else {
            assert(rest[i] == m);
            lemma_placements_members(classic, n - 1, m);
            let (sq1, sq2) = choose|sq1: int, sq2: int|
                sq1 < n - 1 && #[trigger] placement_on(classic, m, sq1, sq2);
            assert(placement_on(classic, m, sq1, sq2));
        }
    }
}

/// The squares beside the first square of a cycle of two squares or more are
/// the second and the last.
pub proof fn lemma_beside_first(cycle: Seq<u8>)
    requires
        cycle.len() >= 2,
    ensures
        position(cycle, cycle[0] as int, 0) == 0,
        next_in(cycle, cycle[0] as int) == cycle[1],
        prev_in(cycle, cycle[0] as int) == cycle[cycle.len() - 1],
{
    let n = cycle.len() as int;
    lemma_small_mod(1, n as nat);
    lemma_fundamental_div_mod_converse(-1, n, -1, n - 1);
}

/// Every move that `valid_moves` lists in a coherent state is valid.
pub proof fn lemma_listed_are_valid(b: BoardView, m: Move)
    requires
        coherent(b),
        listed(b).contains(m),
    ensures
        valid(b, m),
{
    if decided(b.classic) {
        assert(listed(b).len() == 0);
    } else if b.cycle.len() > 0 {
        lemma_collapses_members(b, 9, m);
        let mov = choose|mov: int|
            0 <= mov < 9 && #[trigger] offered(b, mov) && m == (Move::Collapse {
                sq: b.cycle[0],
                mov: mov as u8,
            });
        let (f, a, c) = choose|f: Seq<Seq<u8>>, a: int, c: int| #[trigger] lifted(b, f, a, c);
        lemma_report_is_ring(f, a, c);
        assert(b.cycle[0] == a);
        lemma_beside_first(b.cycle);
    } else if b.next_mov < 9 {
        lemma_placements_members(b.classic, 9, m);
        let (sq1, sq2) = choose|sq1: int, sq2: int|
            sq1 < 9 && #[trigger] placement_on(b.classic, m, sq1, sq2);
        assert(placement_on(b.classic, m, sq1, sq2));
    } else {
        assert(listed(b).len() == 0);
    }
}

/// The scan of a square without edges finds nothing.
proof fn lemma_scan_no_edges(v: int, parent: int, i: int, seen: Seq<bool>)
    requires
        0 <= v < 9,
        0 <= i <= 9,
        seen.len() == 9,
    ensures
        scan(no_edges(), v, parent, i, seen, Seq::empty()) == (Walk {
            found: false,
            seen,
            path: Seq::empty(),
        }),
    decreases 9 - i,
{
    if i < 9 {
        assert(no_edges()[v][i] == 0);
        lemma_scan_no_edges(v, parent, i + 1, seen);
    }
}

/// In a graph without edges the search reports no cycle, from whatever
/// square it starts.
pub proof fn lemma_no_cycle_without_edges(start: u8)
    requires
        start < 9,
    ensures
        cycle_path(no_edges(), start as int) == Seq::<u8>::empty(),
{
    let g = no_edges();
    let s = start as int;
    lemma_last_max_in_range(g[s], 9);
    let k = last_max(g[s], 9);
    assert(g[s][k] == 0);
    lemma_scan_no_edges(s, -1, 0, none_seen().update(s, true));
}

/// What a valid move makes of a coherent state.
///
/// The state stays coherent, so that it passes the consistency check. A
/// collapse never strikes its own square; its cascade has one move to decide
/// at every square it settles; and it leaves in its square the mark of the
/// player who made the move it collapses to.
///
/// A sound quantum board stays sound, and a collapse wipes every square of
/// the component of its square and leaves there the mark of a player whose
/// move was pending in that square, unless the move collapses a cycle of two
/// squares: that leaves the square struck with its pending moves.
pub proof fn lemma_after_move(b: BoardView, m: Move)
    requires
        coherent(b),
        valid(b, m),
    ensures
        coherent(after(b, m)),
        consistent(after(b, m)),
        sound(b.quantum) && !collapses_pair(b, m) ==> sound(after(b, m).quantum),
        m matches Move::Collapse { sq, mov } ==> {
            &&& struck(b, sq as int, mov as int) != sq
            &&& decides(broken(b, sq as int, mov as int), sq as int, mov_bit(mov as u16))
            &&& after(b, m).classic[sq as int] == mark_of_move(mov as int)
        },
        m matches Move::Collapse { sq, mov } ==> !collapses_pair(b, m) ==> forall|x: int|
            0 <= x < 9 && #[trigger] connected(b.graph, sq as int, x) ==> wiped(after(b, m), x)
                && took_own(b.quantum, after(b, m).classic, x),
{
    match m {
        Move::Quantum(sq1, sq2) => {
            lemma_placed_coherent(b, sq1, sq2);
            if sound(b.quantum) {
                lemma_placed_sound(b, sq1, sq2);
            }
        },
        Move::Collapse { sq, mov } => {
            let _ = lemma_at_collapse(b, sq, mov);
            lemma_collapsed_coherent(b, sq, mov);
            lemma_collapse_decides(b, sq, mov);
            lemma_collapse_marks(b, sq, mov);
            if b.cycle.len() >= 3 {
                lemma_collapsed_total(b, sq, mov);
                lemma_collapse_fills(b, sq, mov);
                if sound(b.quantum) {
                    lemma_collapsed_sound(b, sq, mov);
                }
            }
        },
    }
    lemma_coherent_is_consistent(after(b, m));
}

/// The state of a game after the moves `moves`, made in turn from the start.
pub open spec fn game_after(moves: Seq<Move>) -> BoardView
    decreases moves.len(),
{
    if moves.len() == 0 {
        initial()
    } else {
        after(game_after(moves.drop_last()), moves.last())
    }
}

/// Each of the moves `moves` was valid when it was made.
pub open spec fn playable(moves: Seq<Move>) -> bool
    decreases moves.len(),
{
    moves.len() == 0 || (playable(moves.drop_last()) && valid(
        game_after(moves.drop_last()),
        moves.last(),
    ))
}

/// None of the moves `moves` collapsed a cycle of two squares.
pub open spec fn no_pair_collapsed(moves: Seq<Move>) -> bool
    decreases moves.len(),
{
    moves.len() == 0 || (no_pair_collapsed(moves.drop_last()) && !collapses_pair(
        game_after(moves.drop_last()),
        moves.last(),
    ))
}

/// Every state that a game reaches is coherent, and passes the consistency
/// check.
pub proof fn lemma_games_are_coherent(moves: Seq<Move>)
    requires
        playable(moves),
    ensures
        coherent(game_after(moves)),
        consistent(game_after(moves)),
    decreases moves.len(),
{
    if moves.len() == 0 {
        lemma_initial_coherent();
    } else {
        lemma_games_are_coherent(moves.drop_last());
        lemma_after_move(game_after(moves.drop_last()), moves.last());
    }
    lemma_coherent_is_consistent(game_after(moves));
}

/// In every state that a game reaches without the collapse of a cycle of two
/// squares, every move is pending in no square or in exactly two.
pub proof fn lemma_games_are_sound(moves: Seq<Move>)
    requires
        playable(moves),
        no_pair_collapsed(moves),
    ensures
        sound(game_after(moves).quantum),
    decreases moves.len(),
{
    if moves.len() == 0 {
        let q = initial().quantum;
        assert forall|k: int| 0 <= k < 9 implies #[trigger] count_upto(q, k, 9) == 0 by {
            assert forall|t: int| 0 <= t < 9 implies !holds(#[trigger] q[t], k) by {
                lemma_masks(0, 0, k as u16);
            }
            lemma_count_none(q, k, 9);
        }
    } else {
        lemma_games_are_sound(moves.drop_last());
        lemma_games_are_coherent(moves.drop_last());
        lemma_after_move(game_after(moves.drop_last()), moves.last());
    }
}

/// In every state that a game reaches, every move that `valid_moves` lists
/// is valid.
pub proof fn lemma_games_list_valid_moves(moves: Seq<Move>, m: Move)
    requires
        playable(moves),
        listed(game_after(moves)).contains(m),
    ensures
        valid(game_after(moves), m),
{
    lemma_games_are_coherent(moves);
    lemma_listed_are_valid(game_after(moves), m);
}

/// Where no move is pending in three squares, a move pending in two
/// squares is pending in no third.
pub proof fn lemma_three(q: Seq<u16>, m: int, x: int, y: int, z: int)
    requires
        at_most_two(q),
        0 <= m < 9,
        0 <= x < 9,
        0 <= y < 9,
        0 <= z < 9,
        x != y,
        y != z,
        x != z,
        holds(q[x], m),
        holds(q[y], m),
    ensures
        !holds(q[z], m),
{
    if holds(q[z], m) {
        if x < y {
            if y < z {
                assert(!(holds(q[x], m) && holds(q[y], m) && holds(q[z], m)));
            } else if x < z {
                assert(!(holds(q[x], m) && holds(q[z], m) && holds(q[y], m)));
            } else {
                assert(!(holds(q[z], m) && holds(q[x], m) && holds(q[y], m)));
            }
        } else {
            if x < z {
                assert(!(holds(q[y], m) && holds(q[x], m) && holds(q[z], m)));
            } else if y < z {
                assert(!(holds(q[y], m) && holds(q[z], m) && holds(q[x], m)));
            } else {
                assert(!(holds(q[z], m) && holds(q[y], m) && holds(q[x], m)));
            }
        }
    }
}

/// Where two moves below `n` are offered and no other, the collapses listed
/// for the moves below `n` are as many as these two are below `n`.
proof fn lemma_collapses_len(b: BoardView, n: int, m1: int, m2: int)
    requires
        0 <= m1 < m2,
        0 <= n,
        forall|mov: int| 0 <= mov < n ==> (#[trigger] offered(b, mov) <==> mov == m1 || mov == m2),
    ensures
        collapses(b, n).len() == (if m1 < n {
            1int
        } else {
            0int
        }) + (if m2 < n {
            1int
        } else {
            0int
        }),
    decreases n,
{
    if n > 0 {
        lemma_collapses_len(b, n - 1, m1, m2);
    }
}

/// While a cycle is pending, `valid_moves` lists two collapses: those to the
/// two moves that the first square of the cycle shares with the squares
/// beside it.
pub proof fn lemma_two_collapses(b: BoardView)
    requires
        coherent(b),
        b.cycle.len() > 0,
    ensures
        listed(b).len() == 2,
{
    let (f, a, c) = choose|f: Seq<Seq<u8>>, a: int, c: int| #[trigger] lifted(b, f, a, c);
    lemma_report_is_ring(f, a, c);
    lemma_with_edge(f, a, c);
    let q = b.quantum;
    let g = b.graph;
    let n = b.cycle.len() as int;
    let c0 = b.cycle[0] as int;
    let c1 = b.cycle[1] as int;
    let cl = b.cycle[n - 1] as int;
    assert(c0 == a);
    assert(0 <= c1 < 9 && 0 <= cl < 9);
    assert forall|k: int| 0 <= k < 9 implies (holds(q[c0] & q[c1], k) <==> holds(q[c0], k)
        && holds(q[c1], k)) && (holds(q[c0] & q[cl], k) <==> holds(q[c0], k) && holds(
        q[cl],
        k,
    )) by {
        lemma_holds_both(q[c0], q[c1], k as u16);
        lemma_holds_both(q[c0], q[cl], k as u16);
    }
    if n == 2 && b.cycle[1] == c && g[a][c] == 2 && f[a][c] == 1 {
        assert(g[c0][c1] == moves_upto(q[c0] & q[c1], 9));
        let (m1, m2) = lemma_two_moves(q[c0] & q[c1], 9);
        assert forall|mov: int| 0 <= mov < 9 implies (#[trigger] offered(b, mov) <==> mov == m1
            || mov == m2) by {
            assert(holds(q[c0] & q[c1], mov) <==> mov == m1 || mov == m2);
        }
        lemma_collapses_len(b, 9, m1, m2);
    } else {
        assert(c0 != c1 && c0 != cl && c1 != cl) by {
            assert(b.cycle[0] != b.cycle[1]);
            assert(b.cycle[0] != b.cycle[n - 1]);
            assert(b.cycle[1] != b.cycle[n - 1]);
        }
        assert(adj(g, c0, c1)) by {
            assert(adj(g, b.cycle[0] as int, b.cycle[0int + 1] as int));
        }
        assert(adj(g, cl, c0));
        assert(g[c0][cl] == g[cl][c0]);
        assert(g[c0][c1] <= 1 && g[c0][cl] <= 1);
        assert(g[c0][c1] == moves_upto(q[c0] & q[c1], 9));
        assert(g[c0][cl] == moves_upto(q[c0] & q[cl], 9));
        let m1 = lemma_one_move(q[c0] & q[c1], 9);
        let m2 = lemma_one_move(q[c0] & q[cl], 9);
        assert(holds(q[c0] & q[c1], m1) && holds(q[c0] & q[cl], m2));
        if m1 == m2 {
            lemma_three(q, m1, c0, c1, cl);
        }
        assert forall|mov: int| 0 <= mov < 9 implies (#[trigger] offered(b, mov) <==> mov == m1
            || mov == m2) by {
            assert(holds(q[c0] & q[c1], mov) <==> mov == m1);
            assert(holds(q[c0] & q[cl], mov) <==> mov == m2);
        }
        if m1 < m2 {
            lemma_collapses_len(b, 9, m1, m2);
        } else {
            lemma_collapses_len(b, 9, m2, m1);
        }
    }
}

} // verus!
