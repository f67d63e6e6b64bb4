//! The entanglement graph: an undirected multigraph on the nine squares, and
//! the search that finds a cycle in it.

use crate::forest::{is_ring, passes, symmetric};
use crate::laws::lemma_no_cycle_without_edges;
use crate::traversal::{doubled_at, lemma_what_search_tells};
use crate::store::{store_clear, store_get, store_push, CycleStore, STORE_LIMIT};
use vstd::prelude::*;

verus! {

/// 1 for a square not yet seen, 0 for a seen one.
pub open spec fn gap(b: bool) -> int {
    if b {
        0
    } else {
        1
    }
}

/// The number of squares that a search has not seen yet.
pub open spec fn unseen(seen: Seq<bool>) -> int {
    gap(seen[0]) + gap(seen[1]) + gap(seen[2]) + gap(seen[3]) + gap(seen[4]) + gap(seen[5]) + gap(
        seen[6],
    ) + gap(seen[7]) + gap(seen[8])
}

/// Where a search stands: whether the call that ended reported a closed
/// cycle, the squares seen so far, and the path collected so far.
pub struct Walk {
    pub found: bool,
    pub seen: Seq<bool>,
    pub path: Seq<u8>,
}

/// The depth-first search entering square `v` from `parent` (-1 at the start).
///
/// A square already seen closes a cycle: it is appended to the path and the
/// search reports it. Otherwise `v` is marked and its neighbours are scanned.
pub open spec fn visit(g: Seq<Seq<u8>>, v: int, parent: int, seen: Seq<bool>, path: Seq<u8>) -> Walk
    decreases unseen(seen), 0int,
    when 0 <= v < 9 && seen.len() == 9
{
    if seen[v] {
        Walk { found: true, seen, path: path.push(v as u8) }
    } else {
        scan(g, v, parent, 0, seen.update(v, true), path)
    }
}

/// The scan of the neighbours of `v` from index `i` on, in rising order,
/// leaving out `parent`.
///
/// When a neighbour reports a cycle, `v` joins the path and reports it in
/// turn, unless `v` is the square that closed the cycle (the first of the
/// path), where the report stops. A search never forgets a square it has
/// seen: the comparison of the two counts only makes that plain to the
/// termination check.
pub open spec fn scan(
    g: Seq<Seq<u8>>,
    v: int,
    parent: int,
    i: int,
    seen: Seq<bool>,
    path: Seq<u8>,
) -> Walk
    decreases unseen(seen), 10 - i,
    when 0 <= v < 9 && 0 <= i <= 9 && seen.len() == 9
{
    if i >= 9 {
        Walk { found: false, seen, path }
    } else if g[v][i] > 0 && i != parent {
        let w = visit(g, i, v, seen, path);
        if w.found {
            if w.path[0] != v {
                Walk { found: true, seen: w.seen, path: w.path.push(v as u8) }
            } else {
                Walk { found: false, seen: w.seen, path: w.path }
            }
        } else if w.seen.len() == 9 && unseen(w.seen) <= unseen(seen) {
            scan(g, v, parent, i + 1, w.seen, w.path)
        } else {
            w
        }
    } else {
        scan(g, v, parent, i + 1, seen, path)
    }
}

/// The last index among the first `n` entries of `row` that holds their
/// largest value.
pub open spec fn last_max(row: Seq<u8>, n: int) -> int
    decreases n,
{
    if n <= 1 {
        0
    } else if row[n - 1] >= row[last_max(row, n - 1)] {
        n - 1
    } else {
        last_max(row, n - 1)
    }
}

/// No square has been seen.
pub open spec fn none_seen() -> Seq<bool> {
    Seq::new(9, |i: int| false)
}

/// The cycle that the search from `start` reports in graph `g`; empty when
/// it reports none.
///
/// Two edges between `start` and a neighbour are a cycle of two squares:
/// `start`, then the last of the neighbours joined to it by the most edges.
/// Otherwise the path is what the depth-first search from `start` collects.
pub open spec fn cycle_path(g: Seq<Seq<u8>>, start: int) -> Seq<u8> {
    let k = last_max(g[start], 9);
    if g[start][k] >= 2 {
        seq![start as u8, k as u8]
    } else {
        visit(g, start, -1, none_seen(), Seq::empty()).path
    }
}

/// No square of `g` is joined to itself.
pub open spec fn no_loops(g: Seq<Seq<u8>>) -> bool {
    forall|u: int| 0 <= u < 9 ==> #[trigger] g[u][u] == 0
}

/// Every entry of `path` is a square.
pub open spec fn squares_only(path: Seq<u8>) -> bool {
    forall|k: int| 0 <= k < path.len() ==> #[trigger] path[k] < 9
}

/// What `visit` keeps of the shape of its arguments: nine flags, none
/// cleared; a path of squares that only grows, and grows where a cycle is
/// reported. Without loops in the graph a path that was not one square long
/// does not become so, except while the report of a closed cycle is on its
/// way to the caller.
pub proof fn lemma_visit_shape(g: Seq<Seq<u8>>, v: int, parent: int, seen: Seq<bool>, path: Seq<u8>)
    requires
        0 <= v < 9,
        seen.len() == 9,
        no_loops(g),
        squares_only(path),
        path.len() != 1,
    ensures
        ({
            let w = visit(g, v, parent, seen, path);
            &&& w.seen.len() == 9
            &&& unseen(w.seen) <= unseen(seen)
            &&& forall|x: int| 0 <= x < 9 && seen[x] ==> #[trigger] w.seen[x]
            &&& squares_only(w.path)
            &&& w.path.len() >= path.len()
            &&& w.found ==> w.path.len() > path.len()
            &&& seen[v] ==> w.found && w.path == path.push(v as u8)
            &&& !seen[v] ==> w.path.len() != 1
            &&& !seen[v] ==> w.path.len() <= path.len() + 2 * (unseen(seen) - unseen(w.seen))
        }),
    decreases unseen(seen), 0int,
{
    if !seen[v] {
        lemma_scan_shape(g, v, parent, 0, seen.update(v, true), path);
    }
}

/// What `scan` keeps of the shape of its arguments; see `lemma_visit_shape`.
pub proof fn lemma_scan_shape(
    g: Seq<Seq<u8>>,
    v: int,
    parent: int,
    i: int,
    seen: Seq<bool>,
    path: Seq<u8>,
)
    requires
        0 <= v < 9,
        0 <= i <= 9,
        seen.len() == 9,
        no_loops(g),
        squares_only(path),
        path.len() != 1,
    ensures
        ({
            let w = scan(g, v, parent, i, seen, path);
            &&& w.seen.len() == 9
            &&& unseen(w.seen) <= unseen(seen)
            &&& forall|x: int| 0 <= x < 9 && seen[x] ==> #[trigger] w.seen[x]
            &&& squares_only(w.path)
            &&& w.path.len() >= path.len()
            &&& w.found ==> w.path.len() > path.len()
            &&& w.path.len() != 1
            &&& w.path.len() <= path.len() + 2 * (unseen(seen) - unseen(w.seen)) + 2
        }),
    decreases unseen(seen), 10 - i,
{
    if i < 9 {
        if g[v][i] > 0 && i != parent {
            lemma_visit_shape(g, i, v, seen, path);
            let w = visit(g, i, v, seen, path);
            if !w.found {
                lemma_scan_shape(g, v, parent, i + 1, w.seen, w.path);
            } else {
                assert(g[v][v] == 0);
            }
        } else {
            lemma_scan_shape(g, v, parent, i + 1, seen, path);
        }
    }
}

/// The path that `cycle_path` reports in a graph without loops holds
/// squares only, at most eighteen, and is empty or at least two squares long.
pub proof fn lemma_cycle_path_shape(g: Seq<Seq<u8>>, start: int)
    requires
        0 <= start < 9,
        no_loops(g),
    ensures
        squares_only(cycle_path(g, start)),
        cycle_path(g, start).len() != 1,
        cycle_path(g, start).len() <= 18,
{
    lemma_last_max_in_range(g[start], 9);
    lemma_visit_shape(g, start, -1, none_seen(), Seq::empty());
}

/// `last_max` names one of the first `n` entries.
pub proof fn lemma_last_max_in_range(row: Seq<u8>, n: int)
    ensures
        0 <= last_max(row, n),
        n >= 1 ==> last_max(row, n) < n,
    decreases n,
{
    if n > 1 {
        lemma_last_max_in_range(row, n - 1);
    }
}

/// No entry among the first `n` is larger than the one that `last_max` names,
/// and none after it is as large.
pub proof fn lemma_last_max_is_max(row: Seq<u8>, n: int)
    ensures
        forall|j: int| 0 <= j < n ==> #[trigger] row[j] <= row[last_max(row, n)],
        forall|j: int| last_max(row, n) < j < n ==> #[trigger] row[j] < row[last_max(row, n)],
    decreases n,
{
    if n > 1 {
        lemma_last_max_is_max(row, n - 1);
    }
}

/// A graph without edges.
pub open spec fn no_edges() -> Seq<Seq<u8>> {
    Seq::new(9, |u: int| Seq::new(9, |v: int| 0u8))
}

/// Graph `g` with one more edge between `u` and `v`.
pub open spec fn with_edge(g: Seq<Seq<u8>>, u: int, v: int) -> Seq<Seq<u8>> {
    g.update(u, g[u].update(v, (g[u][v] + 1) as u8)).update(
        v,
        g[v].update(u, (g[v][u] + 1) as u8),
    )
}

/// Graph `g` without any edge between `u` and `v`.
pub open spec fn without_edge(g: Seq<Seq<u8>>, u: int, v: int) -> Seq<Seq<u8>> {
    g.update(u, g[u].update(v, 0u8)).update(v, g[v].update(u, 0u8))
}

/// Graph `g` without any edge at `v`.
pub open spec fn without_vert(g: Seq<Seq<u8>>, v: int) -> Seq<Seq<u8>> {
    Seq::new(
        9,
        |a: int|
            Seq::new(
                9,
                |b: int|
                    if a == v || b == v {
                        0u8
                    } else {
                        g[a][b]
                    },
            ),
    )
}

/// The entanglement graph of a board: an undirected multigraph on the squares
/// 0 to 8. The entry at `(u, v)` counts the edges between the two squares.
#[derive(Debug)]
pub struct BoardGraph {
    edges: [[u8; 9]; 9],
}

impl Clone for BoardGraph {
    fn clone(&self) -> (g: Self)
        ensures
            g@ == self@,
    {
        Self { edges: self.edges }
    }
}

impl View for BoardGraph {
    type V = Seq<Seq<u8>>;

    /// The nine rows of nine edge counts.
    open spec fn view(&self) -> Seq<Seq<u8>> {
        Seq::new(9, |u: int| Seq::new(9, |v: int| self.mult(u, v)))
    }
}

/// The search of `visit`, on the stored rows.
fn search(
    start: u8,
    parent: Option<u8>,
    visited: &mut [bool; 9],
    graph: &BoardGraph,
    store: &mut CycleStore,
) -> (found: bool)
    requires
        start < 9,
        parent matches Some(p) ==> p < 9,
        old(store)@.len() + 2 * unseen(old(visited)@) + 1 <= STORE_LIMIT,
    ensures
        ({
            let w = visit(
                graph@,
                start as int,
                match parent {
                    Some(p) => p as int,
                    None => -1,
                },
                old(visited)@,
                old(store)@,
            );
            &&& found == w.found
            &&& final(visited)@ == w.seen
            &&& final(store)@ == w.path
        }),
        unseen(final(visited)@) <= unseen(old(visited)@),
        final(store)@.len() >= old(store)@.len(),
        found ==> final(store)@.len() > old(store)@.len(),
        old(visited)@[start as int] ==> final(store)@.len() == old(store)@.len() + 1,
        !old(visited)@[start as int] ==> final(store)@.len() <= old(store)@.len() + 2 * (unseen(
            old(visited)@,
        ) - unseen(final(visited)@)),
    decreases unseen(old(visited)@),
{
    if visited[start as usize] {
        store_push(store, start);
        return true;
    }
    visited[start as usize] = true;
    let ghost parent_idx: int = match parent {
        Some(p) => p as int,
        None => -1,
    };
    let ghost marked = visited@;
    assert(marked =~= old(visited)@.update(start as int, true));
    let mut i: u8 = 0;
    while i < 9
        invariant
            start < 9,
            i <= 9,
            old(visited)@.len() == 9,
            !old(visited)@[start as int],
            marked == old(visited)@.update(start as int, true),
            visited@.len() == 9,
            parent_idx == match parent {
                Some(p) => p as int,
                None => -1,
            },
            unseen(visited@) <= unseen(marked),
            unseen(marked) < unseen(old(visited)@),
            store@.len() >= old(store)@.len(),
            store@.len() <= old(store)@.len() + 2 * (unseen(marked) - unseen(visited@)),
            old(store)@.len() + 2 * unseen(old(visited)@) + 1 <= STORE_LIMIT,
            scan(graph@, start as int, parent_idx, i as int, visited@, store@) == scan(
                graph@,
                start as int,
                parent_idx,
                0,
                marked,
                old(store)@,
            ),
        decreases 9 - i,
    {
        let is_parent = match parent {
            Some(p) => p == i,
            None => false,
        };
        if graph.edges[start as usize][i as usize] > 0 && !is_parent {
            let ghost before = visited@;
            let ghost path_before = store@;
            if search(i, Some(start), visited, graph, store) {
                if start != store_get(store, 0) {
                    store_push(store, start);
                    return true;
                }
                return false;
            }
        }
        i = i + 1;
    }
    false
}

impl BoardGraph {
    /// The number of edges between squares `u` and `v`.
    pub closed spec fn mult(self, u: int, v: int) -> u8 {
        self.edges[u][v]
    }

    /// Every edge is counted the same from both of its squares, and no
    /// square is joined to itself: so it is in a new graph, and so the
    /// methods keep it.
    pub open spec fn wf(self) -> bool {
        symmetric(self@) && no_loops(self@)
    }

    pub fn new() -> (g: Self)
        ensures
            g@ == no_edges(),
            g.wf(),
    {
        let g = Self { edges: [[0u8;9];9] };
        assert(g@ =~~= no_edges());
        g
    }

    /// Adds one edge between `u` and `v`.
    pub fn add_edge(&mut self, u: u8, v: u8)
        requires
            u < 9,
            v < 9,
            u != v,
            old(self)@[u as int][v as int] < 255,
            old(self)@[v as int][u as int] < 255,
        ensures
            final(self)@ == with_edge(old(self)@, u as int, v as int),
            old(self).wf() ==> final(self).wf(),
    {
        let a = self.edges[u as usize][v as usize];
        self.edges[u as usize][v as usize] = a + 1;
        let b = self.edges[v as usize][u as usize];
        self.edges[v as usize][u as usize] = b + 1;
        assert(self@ =~~= with_edge(old(self)@, u as int, v as int));
    }

    /// Removes every edge between `u` and `v`.
    pub fn clear_edge(&mut self, u: u8, v: u8)
        requires
            u < 9,
            v < 9,
            u != v,
        ensures
            final(self)@ == without_edge(old(self)@, u as int, v as int),
            old(self).wf() ==> final(self).wf(),
    {
        self.edges[u as usize][v as usize] = 0;
        self.edges[v as usize][u as usize] = 0;
        assert(self@ =~~= without_edge(old(self)@, u as int, v as int));
    }

    /// Searches for a cycle from `start` and leaves its squares in `store`,
    /// which is emptied first. Returns whether a cycle was found.
    ///
    /// In a well-formed graph a cycle is found only where two edges join
    /// `start` to a square or the graph has a ring; and where none is found,
    /// no two edges join `start` to a square and no ring passes through
    /// `start`. In a graph without edges none is found.
    pub fn has_cycle(&self, start: u8, store: &mut CycleStore) -> (r: bool)
        requires
            start < 9,
        ensures
            final(store)@ == cycle_path(self@, start as int),
            r == (cycle_path(self@, start as int).len() > 0),
            self.wf() && r ==> doubled_at(self@, start as int) || exists|ring: Seq<u8>|
                #[trigger] is_ring(self@, ring),
            self.wf() && !r ==> !doubled_at(self@, start as int) && forall|ring: Seq<u8>|
                #[trigger] is_ring(self@, ring) ==> !passes(ring, start as int),
            self@ == no_edges() ==> !r,
    {
        proof {
            if self.wf() {
                lemma_what_search_tells(self@, start as int);
            }
            if self@ == no_edges() {
                lemma_no_cycle_without_edges(start);
            }
        }
        store_clear(store);
        // case 1: cycle of length 2
        // find the last of the neighbours with the most edges
        let mut best: u8 = 0;
        let mut i: u8 = 1;
        while i < 9
            invariant
                start < 9,
                1 <= i <= 9,
                best < i,
                best == last_max(self@[start as int], i as int),
            decreases 9 - i,
        {
            if self.edges[start as usize][i as usize] >= self.edges[start as usize][best as usize] {
                best = i;
            }
            i = i + 1;
        }
        if self.edges[start as usize][best as usize] >= 2 {
            store_push(store, start);
            store_push(store, best);
            assert(store@ =~= seq![start, best]);
            return true;
        }
        // case 2: a longer cycle, by depth-first search

        let mut visited = [false;9];
        assert(visited@ =~= none_seen());
        search(start, None, &mut visited, self, store);
        store.len() > 0
    }

    /// Removes every edge at `v`.
    pub fn clear_vert(&mut self, v: u8)
        requires
            v < 9,
        ensures
            final(self)@ == without_vert(old(self)@, v as int),
            old(self).wf() ==> final(self).wf(),
    {
        self.edges[v as usize] = [0u8;9];
        let mut i: u8 = 0;
        while i < 9
            invariant
                v < 9,
                i <= 9,
                forall|a: int, b: int|
                    0 <= a < 9 && 0 <= b < 9 ==> #[trigger] self.mult(a, b) == (if a == v || (b == v
                        && a < i) {
                        0u8
                    } else {
                        old(self).mult(a, b)
                    }),
            decreases 9 - i,
        {
            let ghost prev = *self;
            self.edges[i as usize][v as usize] = 0;
            assert forall|a: int, b: int| 0 <= a < 9 && 0 <= b < 9 implies #[trigger] self.mult(
                a,
                b,
            ) == (if a == i && b == v {
                0u8
            } else {
                prev.mult(a, b)
            }) by {}
            i = i + 1;
        }
        assert(self@ =~~= without_vert(old(self)@, v as int));
    }

    /// The rows of edge counts.
    pub fn edges(&self) -> (r: &[[u8; 9]; 9])
        ensures
            forall|u: int, v: int| 0 <= u < 9 && 0 <= v < 9 ==> r[u][v] == #[trigger] self@[u][v],
    {
        &self.edges
    }
}

} // verus!
