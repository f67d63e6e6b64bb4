//! The marks that a collapse gives: in a game the cascade from the square of
//! a valid collapse has one move to decide at every square it settles, and
//! leaves every square it reaches with a classical mark.

use crate::cascade::wiped;
use crate::collapse::{
    connected, is_path, lemma_at_collapse, lemma_broken_forest, lemma_broken_tree,
    lemma_cascade_of_collapse, lemma_collapsed_total,
};
use crate::decide::{
    bond, bonds_ok, dimmed, done, intact, lemma_decide, own_move, ready, severed, shared,
};
use crate::descent::{below, lemma_below_self, lemma_beside_below, tree_ok, Tree};
use crate::forest::{adj, simple};
use crate::laws::{coherent, lemma_three};
use crate::quantum::{holds, lemma_shared_but, lemma_shared_move, mov_bit};
use crate::rules::{
    broken, collapsed, decides, mark_of_move, resolve, struck, took_own, valid, BoardView, Move,
};
use vstd::prelude::*;

verus! {

/// The tree in which the cascade of a collapse runs: the broken graph, with
/// the squares of the component of `sq` and their levels.
pub open spec fn cascade_tree(
    b: BoardView,
    sq: int,
    mov: int,
    seen: Seq<bool>,
    d: Seq<int>,
) -> Tree {
    Tree { g: broken(b, sq, mov).graph, seen, d }
}

/// In a game the pending moves fit every tree of the broken graph: two
/// squares joined by an edge share one move, and no move is in three squares.
proof fn lemma_bonds(b: BoardView, sq: u8, mov: u8, seen: Seq<bool>, d: Seq<int>)
    requires
        coherent(b),
        valid(b, Move::Collapse { sq, mov }),
    ensures
        bonds_ok(cascade_tree(b, sq as int, mov as int, seen, d), b.quantum),
{
    let c = cascade_tree(b, sq as int, mov as int, seen, d);
    let q = b.quantum;
    lemma_cascade_of_collapse(b, sq, mov);
    lemma_broken_forest(b, sq, mov);
    assert(simple(c.g));
    assert forall|u: int, v: int| 0 <= u < 9 && 0 <= v < 9 && adj(c.g, u, v) implies adj(
        b.graph,
        u,
        v,
    ) && b.graph[u][v] <= 1 && u != v by {
        assert(c.g[u][v] == b.graph[u][v]);
        assert(c.g[u][v] <= 1);
        assert(b.graph[u][u] == 0);
    }
    assert forall|u: int, m: int| 0 <= u < 9 && 0 <= m < 16 && #[trigger] holds(
        q[u],
        m,
    ) implies m < 9 by {}
    reveal(bonds_ok);
    assert forall|u: int, v: int| 0 <= u < 9 && 0 <= v < 9 && #[trigger] adj(
        c.g,
        u,
        v,
    ) implies 0 <= bond(q, u, v) < 9 && shared(q, u, v, bond(q, u, v)) by {
        assert(adj(b.graph, u, v));
        let m = lemma_shared_move(q[u], q[v]);
        assert(shared(q, u, v, m));
    }
    assert forall|u: int, v: int, m: int|
        0 <= u < 9 && 0 <= v < 9 && 0 <= m < 16 && adj(c.g, u, v) && #[trigger] shared(
            q,
            u,
            v,
            m,
        ) implies m == bond(q, u, v) by {
        assert(adj(b.graph, u, v));
        let k = lemma_shared_move(q[u], q[v]);
        assert(shared(q, u, v, k));
        let n = bond(q, u, v);
        assert(shared(q, u, v, n));
        if m != n {
            assert(holds(q[u], m) && holds(q[v], m) && holds(q[u], n) && holds(q[v], n));
            assert(b.graph[u][v] >= 2);
        }
    }
    assert forall|x: int, y: int, z: int, m: int|
        0 <= x < 9 && 0 <= y < 9 && 0 <= z < 9 && x != y && y != z && x != z && 0 <= m < 16
            && #[trigger] holds(q[x], m) && #[trigger] holds(q[y], m) implies !#[trigger] holds(
        q[z],
        m,
    ) by {
        if holds(q[z], m) {
            lemma_three(q, m, x, y, z);
        }
    }
}

/// In a game the cascade of a valid collapse is ready to start: the lemma
/// hands back the squares of the component of `sq` and their levels.
proof fn lemma_collapse_ready(b: BoardView, sq: u8, mov: u8) -> (r: (Seq<bool>, Seq<int>))
    requires
        coherent(b),
        valid(b, Move::Collapse { sq, mov }),
    ensures
        tree_ok(cascade_tree(b, sq as int, mov as int, r.0, r.1)),
        bonds_ok(cascade_tree(b, sq as int, mov as int, r.0, r.1), b.quantum),
        ready(
            cascade_tree(b, sq as int, mov as int, r.0, r.1),
            b.quantum,
            broken(b, sq as int, mov as int),
            sq as int,
            mov_bit(mov as u16),
            mov as int,
        ),
{
    let r = lemma_broken_tree(b, sq, mov);
    let s = sq as int;
    let k = mov as int;
    let c = cascade_tree(b, s, k, r.0, r.1);
    let q = b.quantum;
    let bs = broken(b, s, k);
    let o = struck(b, s, k);
    let found = lemma_at_collapse(b, sq, mov);
    lemma_cascade_of_collapse(b, sq, mov);
    lemma_bonds(b, sq, mov, r.0, r.1);
    assert(tree_ok(c));
    assert(dimmed(c, bs)) by {
        reveal(dimmed);
    }
    assert(intact(c, q, bs, s)) by {
        reveal(intact);
    }
    assert(severed(c, bs, s)) by {
        reveal(severed);
        assert forall|x: int, y: int|
            0 <= x < 9 && 0 <= y < 9 && below(c, x, s) && !below(c, y, s)
            implies #[trigger] bs.graph[x][y]
            == 0 by {
            if adj(c.g, x, y) {
                lemma_beside_below(c, x, s, y);
                assert(c.seen[y]);
            }
        }
    }
    assert(holds(q[o], k));
    assert(own_move(c, q, s, k)) by {
        reveal(own_move);
        assert forall|y: int|
            0 <= y < 9 && #[trigger] adj(c.g, s, y) && c.d[y] == c.d[s] + 1 implies !holds(
            q[y],
            k,
        ) by {
            assert(c.g[s][o] == 0);
            assert(c.g[s][s] == 0) by {
                assert(b.graph[s][s] == 0);
            }
            lemma_three(q, k, s, o, y);
        }
    }
    lemma_shared_but(q[s], 0, mov as u16, mov as u16);
    assert(q[s] & mov_bit(mov as u16) == mov_bit(mov as u16));
    r
}

/// In a game the cascade of a valid collapse has one move to decide at every
/// square it settles.
pub proof fn lemma_collapse_decides(b: BoardView, sq: u8, mov: u8)
    requires
        coherent(b),
        valid(b, Move::Collapse { sq, mov }),
    ensures
        decides(broken(b, sq as int, mov as int), sq as int, mov_bit(mov as u16)),
{
    let r = lemma_collapse_ready(b, sq, mov);
    let c = cascade_tree(b, sq as int, mov as int, r.0, r.1);
    lemma_decide(
        c,
        b.quantum,
        broken(b, sq as int, mov as int),
        sq as int,
        mov_bit(mov as u16),
        mov as int,
    );
}

/// A valid collapse leaves in its square the mark of the player who made the
/// move it collapses to, and in every square that it wipes of its pending
/// moves or edges the mark of a player whose move was pending there.
pub proof fn lemma_collapse_marks(b: BoardView, sq: u8, mov: u8)
    requires
        coherent(b),
        valid(b, Move::Collapse { sq, mov }),
    ensures
        collapsed(b, sq as int, mov as int).classic[sq as int] == mark_of_move(mov as int),
        forall|x: int|
            0 <= x < 9 && #[trigger] wiped(collapsed(b, sq as int, mov as int), x) && !wiped(
                broken(b, sq as int, mov as int),
                x,
            ) ==> took_own(b.quantum, collapsed(b, sq as int, mov as int).classic, x),
{
    let r = lemma_collapse_ready(b, sq, mov);
    let s = sq as int;
    let c = cascade_tree(b, s, mov as int, r.0, r.1);
    let bs = broken(b, s, mov as int);
    let t = resolve(bs, s, mov_bit(mov as u16));
    let u = collapsed(b, s, mov as int);
    lemma_decide(c, b.quantum, bs, s, mov_bit(mov as u16), mov as int);
    lemma_below_self(c, s);
    reveal(done);
    assert(u.classic == t.classic && u.quantum == t.quantum && u.graph == t.graph);
    assert forall|x: int| 0 <= x < 9 && #[trigger] wiped(u, x) && !wiped(bs, x) implies took_own(
        b.quantum,
        u.classic,
        x,
    ) by {
        if !below(c, x, s) {
            assert(t.quantum[x] == bs.quantum[x]);
            assert forall|y: int| 0 <= y < 9 implies #[trigger] bs.graph[x][y] == 0
                && bs.graph[y][x] == 0 by {
                assert(t.graph[x][y] == bs.graph[x][y]);
                assert(t.graph[y][x] == bs.graph[y][x]);
            }
        }
    }
}

/// The collapse of a ring leaves in every square of the component of `sq`
/// the mark of a player whose move was pending there.
pub proof fn lemma_collapse_fills(b: BoardView, sq: u8, mov: u8)
    requires
        coherent(b),
        valid(b, Move::Collapse { sq, mov }),
        b.cycle.len() >= 3,
    ensures
        forall|x: int|
            0 <= x < 9 && #[trigger] connected(b.graph, sq as int, x) ==> took_own(
                b.quantum,
                collapsed(b, sq as int, mov as int).classic,
                x,
            ),
{
    let s = sq as int;
    let k = mov as int;
    let bs = broken(b, s, k);
    let u = collapsed(b, s, k);
    let o = struck(b, s, k);
    let found = lemma_at_collapse(b, sq, mov);
    lemma_cascade_of_collapse(b, sq, mov);
    lemma_collapsed_total(b, sq, mov);
    lemma_collapse_marks(b, sq, mov);
    assert(holds(b.quantum[o], k));
    assert forall|x: int| 0 <= x < 9 && #[trigger] connected(b.graph, s, x) implies took_own(
        b.quantum,
        u.classic,
        x,
    ) by {
        if x == s {
            assert(holds(b.quantum[s], k) && u.classic[s] == mark_of_move(k));
        } else {
            assert(wiped(u, x));
            let path = choose|path: Seq<int>|
                #[trigger] is_path(b.graph, path) && path[0] == s && path[path.len() - 1] == x;
            let w = path[path.len() - 2];
            assert(adj(b.graph, w, path[path.len() - 2 + 1]));
            if wiped(bs, x) {
                crate::quantum::lemma_masks(0, 0, mov as u16);
                assert(bs.graph[w][x] == 0);
            }
        }
    }
}

} // verus!
