//! The rules of the game, on the state as the contracts see it: which moves
//! are valid, what a placement and a collapse make of a state, and which moves
//! are listed.

use crate::classical::{wins, Mark};
use crate::graph::{
    cycle_path, no_edges, no_loops, squares_only, with_edge, without_edge, without_vert,
};
use crate::quantum::{holds, mov_bit, with_move};
use vstd::prelude::*;

verus! {

/// A move: a quantum placement on two squares, or the collapse of the pending
/// cycle at square `sq` to move `mov`.
#[derive(Copy, Clone, Debug, PartialEq, Eq, Structural)]
pub enum Move {
    Quantum(u8, u8),
    Collapse { sq: u8, mov: u8 },
}

/// The state of a game, as the contracts see it.
pub struct BoardView {
    /// The classical mark of each square.
    pub classic: Seq<Mark>,
    /// The mask of pending moves of each square.
    pub quantum: Seq<u16>,
    /// The edge counts between the squares.
    pub graph: Seq<Seq<u8>>,
    /// The identifier that the next placement gets.
    pub next_mov: int,
    /// The pending cycle; empty when none is pending.
    pub cycle: Seq<u8>,
}

/// `idx` brought into `0..len` by whole turns.
pub open spec fn wrapped(idx: int, len: int) -> int {
    idx % len
}

/// The first index from `from` on at which `cycle` holds `sq`; the length of
/// `cycle` when there is none.
pub open spec fn position(cycle: Seq<u8>, sq: int, from: int) -> int
    decreases cycle.len() - from,
{
    if from >= cycle.len() {
        cycle.len() as int
    } else if cycle[from] == sq {
        from
    } else {
        position(cycle, sq, from + 1)
    }
}

/// The square that follows `sq` in the cycle, the first after the last.
pub open spec fn next_in(cycle: Seq<u8>, sq: int) -> int {
    cycle[wrapped(position(cycle, sq, 0) + 1, cycle.len() as int)] as int
}

/// The square that precedes `sq` in the cycle, the last before the first.
pub open spec fn prev_in(cycle: Seq<u8>, sq: int) -> int {
    cycle[wrapped(position(cycle, sq, 0) - 1, cycle.len() as int)] as int
}

/// One of the marks has a full line.
pub open spec fn decided(classic: Seq<Mark>) -> bool {
    wins(classic, Mark::X) || wins(classic, Mark::O)
}

/// Whether move `m` may be applied to `b`.
///
/// A placement needs a game without winner and without pending cycle, two
/// different squares that are classically empty, and an identifier left for
/// it. A collapse needs a game without winner, a cycle found from `sq`, a
/// pending cycle that holds `sq`, and a move pending at `sq` and at the square
/// before or after it in the cycle.
pub open spec fn valid(b: BoardView, m: Move) -> bool {
    &&& !decided(b.classic)
    &&& match m {
        Move::Quantum(sq1, sq2) => {
            &&& b.cycle.len() == 0
            &&& sq1 != sq2
            &&& sq1 < 9
            &&& sq2 < 9
            &&& b.classic[sq1 as int] == Mark::Empty
            &&& b.classic[sq2 as int] == Mark::Empty
            &&& b.next_mov < 9
        },
        Move::Collapse { sq, mov } => {
            &&& sq < 9
            &&& mov < 9
            &&& cycle_path(b.graph, sq as int).len() > 0
            &&& b.cycle.len() > 0
            &&& holds(b.quantum[sq as int], mov as int)
            &&& position(b.cycle, sq as int, 0) < b.cycle.len()
            &&& (holds(b.quantum[prev_in(b.cycle, sq as int)], mov as int) || holds(
                b.quantum[next_in(b.cycle, sq as int)],
                mov as int,
            ))
        },
    }
}

/// The state after the placement of the next move on `sq1` and `sq2`: the move
/// is pending in both squares, the graph has one more edge between them, and
/// the cycle is the one found from `sq1`, if any.
pub open spec fn placed(b: BoardView, sq1: int, sq2: int) -> BoardView {
    BoardView {
        classic: b.classic,
        quantum: with_move(b.quantum, b.next_mov, sq1, sq2),
        graph: with_edge(b.graph, sq1, sq2),
        next_mov: b.next_mov + 1,
        cycle: cycle_path(with_edge(b.graph, sq1, sq2), sq1),
    }
}

/// The mark that a decision mask stands for: X for an even move, O for an odd
/// one, none for a mask that is not the bit of one of the nine moves.
pub open spec fn mark_for(decision: u16) -> Option<Mark> {
    if decision == 0x001 || decision == 0x004 || decision == 0x010 || decision == 0x040
        || decision == 0x100 {
        Some(Mark::X)
    } else if decision == 0x002 || decision == 0x008 || decision == 0x020 || decision == 0x080 {
        Some(Mark::O)
    } else {
        None
    }
}

/// The mark of the player who made move `mov`: X for the even moves, O for
/// the odd ones.
pub open spec fn mark_of_move(mov: int) -> Mark {
    if mov % 2 == 0 {
        Mark::X
    } else {
        Mark::O
    }
}

/// Square `x` holds in `classic` the mark of a player whose move was pending
/// at `x` in the masks `q`.
pub open spec fn took_own(q: Seq<u16>, classic: Seq<Mark>, x: int) -> bool {
    exists|m: int| 0 <= m < 9 && #[trigger] holds(q[x], m) && classic[x] == mark_of_move(m)
}

/// Square `v` becomes classical: among the moves `rem` the one pending at `v`
/// decides its mark, and `v` loses its pending moves and its edges.
pub open spec fn settle(b: BoardView, v: int, rem: u16) -> BoardView {
    BoardView {
        classic: match mark_for(b.quantum[v] & rem) {
            Some(m) => b.classic.update(v, m),
            None => b.classic,
        },
        quantum: b.quantum.update(v, 0u16),
        graph: without_vert(b.graph, v),
        next_mov: b.next_mov,
        cycle: b.cycle,
    }
}

/// The moves pending at `v` other than the one that `rem` decides there: what
/// the cascade hands on to the neighbours of `v`.
pub open spec fn handed_on(b: BoardView, v: int, rem: u16) -> u16 {
    b.quantum[v] & !(b.quantum[v] & rem)
}

/// Row `r` has an edge.
pub open spec fn row_live(r: Seq<u8>) -> bool {
    r[0] > 0 || r[1] > 0 || r[2] > 0 || r[3] > 0 || r[4] > 0 || r[5] > 0 || r[6] > 0 || r[7] > 0
        || r[8] > 0
}

/// 1 for a row with an edge, 0 for one without.
pub open spec fn live_row(r: Seq<u8>) -> int {
    if row_live(r) {
        1
    } else {
        0
    }
}

/// The number of squares that have an edge.
pub open spec fn live(g: Seq<Seq<u8>>) -> int {
    live_row(g[0]) + live_row(g[1]) + live_row(g[2]) + live_row(g[3]) + live_row(g[4]) + live_row(
        g[5],
    ) + live_row(g[6]) + live_row(g[7]) + live_row(g[8])
}

/// 1 if row `r` has an edge at index `i` or later, else 0.
pub open spec fn rest_live(r: Seq<u8>, i: int) -> int {
    if exists|j: int| i <= j < 9 && r[j] > 0 {
        1
    } else {
        0
    }
}

/// Removing the edges of a square leaves no more squares with an edge, and
/// one fewer if the square had one.
pub proof fn lemma_live_without_vert(g: Seq<Seq<u8>>, v: int)
    requires
        0 <= v < 9,
    ensures
        live(without_vert(g, v)) <= live(g),
        row_live(g[v]) ==> live(without_vert(g, v)) < live(g),
{
    let h = without_vert(g, v);
    assert forall|a: int| 0 <= a < 9 implies live_row(#[trigger] h[a]) <= live_row(g[a]) && (a
        == v ==> live_row(h[a]) == 0) by {}
}

/// The cascade from square `v`: `v` is settled by the moves `rem`, then each
/// square that had an edge to `v` is resolved in turn, in rising order, by the
/// moves that `v` hands on.
pub open spec fn resolve(b: BoardView, v: int, rem: u16) -> BoardView
    decreases live(b.graph), 1int, 0int,
    when 0 <= v < 9
{
    proof {
        lemma_live_without_vert(b.graph, v);
    }
    spread(settle(b, v, rem), b.graph[v], handed_on(b, v, rem), 0)
}

/// The cascade into the squares at which `row` has an edge, from index `i`
/// on. A cascade never adds an edge: the comparison of the two counts only
/// makes that plain to the termination check.
pub open spec fn spread(b: BoardView, row: Seq<u8>, rem: u16, i: int) -> BoardView
    decreases live(b.graph) + rest_live(row, i), 0int, 10 - i,
    when 0 <= i <= 9
{
    if i >= 9 {
        b
    } else if row[i] > 0 {
        let t = resolve(b, i, rem);
        if live(t.graph) <= live(b.graph) {
            spread(t, row, rem, i + 1)
        } else {
            t
        }
    } else {
        spread(b, row, rem, i + 1)
    }
}

/// The cascade from `v` decides a mark at every square it settles: each time
/// exactly one of the moves handed on is pending there, one of the nine.
pub open spec fn decides(b: BoardView, v: int, rem: u16) -> bool
    decreases live(b.graph), 1int, 0int,
    when 0 <= v < 9
{
    proof {
        lemma_live_without_vert(b.graph, v);
    }
    mark_for(b.quantum[v] & rem) is Some && spread_decides(
        settle(b, v, rem),
        b.graph[v],
        handed_on(b, v, rem),
        0,
    )
}

/// The cascade into the squares of `row` from index `i` on decides a mark at
/// every square it settles.
pub open spec fn spread_decides(b: BoardView, row: Seq<u8>, rem: u16, i: int) -> bool
    decreases live(b.graph) + rest_live(row, i), 0int, 10 - i,
    when 0 <= i <= 9
{
    if i >= 9 {
        true
    } else if row[i] > 0 {
        decides(b, i, rem) && (if live(resolve(b, i, rem).graph) <= live(b.graph) {
            spread_decides(resolve(b, i, rem), row, rem, i + 1)
        } else {
            true
        })
    } else {
        spread_decides(b, row, rem, i + 1)
    }
}

/// The square beside `sq` in the cycle whose edges to `sq` a collapse to
/// `mov` removes: the next one if `mov` is pending there, else the previous
/// one.
pub open spec fn struck(b: BoardView, sq: int, mov: int) -> int {
    if holds(b.quantum[next_in(b.cycle, sq)], mov) {
        next_in(b.cycle, sq)
    } else {
        prev_in(b.cycle, sq)
    }
}

/// The state in which the cascade of a collapse starts: the cycle is broken
/// between `sq` and the square struck.
pub open spec fn broken(b: BoardView, sq: int, mov: int) -> BoardView {
    BoardView { graph: without_edge(b.graph, sq, struck(b, sq, mov)), ..b }
}

/// The state after the collapse at `sq` to move `mov`.
///
/// The cycle is broken beside `sq`, at the edge that carries `mov`. Then the
/// cascade runs from `sq` with `mov` as the only move to decide, and the
/// pending cycle is dropped.
pub open spec fn collapsed(b: BoardView, sq: int, mov: int) -> BoardView {
    BoardView { cycle: Seq::empty(), ..resolve(broken(b, sq, mov), sq, mov_bit(mov as u16)) }
}

/// Move `m` collapses a cycle of two squares: two moves on one pair.
pub open spec fn collapses_pair(b: BoardView, m: Move) -> bool {
    m is Collapse && b.cycle.len() == 2
}

/// The state after move `m`.
pub open spec fn after(b: BoardView, m: Move) -> BoardView {
    match m {
        Move::Quantum(sq1, sq2) => placed(b, sq1 as int, sq2 as int),
        Move::Collapse { sq, mov } => collapsed(b, sq as int, mov as int),
    }
}

/// Move `mov` is offered for the collapse of the pending cycle: it is pending
/// at the first square of the cycle and at the second or the last.
pub open spec fn offered(b: BoardView, mov: int) -> bool {
    holds(b.quantum[b.cycle[0] as int], mov) && (holds(b.quantum[b.cycle[1] as int], mov) || holds(
        b.quantum[b.cycle[b.cycle.len() - 1] as int],
        mov,
    ))
}

/// The collapses offered for the moves below `n`, in rising order.
pub open spec fn collapses(b: BoardView, n: int) -> Seq<Move>
    decreases n,
{
    if n <= 0 {
        Seq::empty()
    } else if offered(b, n - 1) {
        collapses(b, n - 1).push(Move::Collapse { sq: b.cycle[0], mov: (n - 1) as u8 })
    } else {
        collapses(b, n - 1)
    }
}

/// The placements on `sq1` and a classically empty square between `sq1` and
/// `n`, in rising order.
pub open spec fn placements_with(classic: Seq<Mark>, sq1: int, n: int) -> Seq<Move>
    decreases n - sq1,
{
    if n <= sq1 + 1 {
        Seq::empty()
    } else if classic[n - 1] == Mark::Empty {
        placements_with(classic, sq1, n - 1).push(Move::Quantum(sq1 as u8, (n - 1) as u8))
    } else {
        placements_with(classic, sq1, n - 1)
    }
}

/// The placements on two classically empty squares of which the lower is
/// below `n`, ordered by the lower square, then by the higher.
pub open spec fn placements(classic: Seq<Mark>, n: int) -> Seq<Move>
    decreases n,
{
    if n <= 0 {
        Seq::empty()
    } else if classic[n - 1] == Mark::Empty {
        placements(classic, n - 1) + placements_with(classic, n - 1, 9)
    } else {
        placements(classic, n - 1)
    }
}

/// The moves that `valid_moves` lists: none once a mark has won; with a
/// pending cycle the offered collapses at its first square; otherwise the
/// placements, as long as an identifier is left.
pub open spec fn listed(b: BoardView) -> Seq<Move> {
    if decided(b.classic) {
        Seq::empty()
    } else if b.cycle.len() > 0 {
        collapses(b, 9)
    } else if b.next_mov < 9 {
        placements(b.classic, 9)
    } else {
        Seq::empty()
    }
}

/// The boards agree: a square with a classical mark has no pending move and
/// no edge, and two squares joined by an edge share a pending move.
pub open spec fn consistent(b: BoardView) -> bool {
    &&& forall|sq: int|
        0 <= sq < 9 && #[trigger] b.classic[sq] != Mark::Empty ==> b.quantum[sq] == 0
    &&& forall|sq: int, j: int|
        0 <= sq < 9 && 0 <= j < 9 && b.classic[sq] != Mark::Empty ==> #[trigger] b.graph[sq][j] == 0
    &&& forall|u: int, v: int|
        0 <= u < 9 && 0 <= v < 9 && #[trigger] b.graph[u][v] > 0 ==> b.quantum[u] & b.quantum[v]
            != 0
}

/// The shape that every state of a game has: nine squares in each board, at
/// most nine moves made and no more edges between two squares than moves, no
/// edge from a square to itself, and a pending cycle of at most eighteen
/// squares that is not one square long.
pub open spec fn shaped(b: BoardView) -> bool {
    &&& b.classic.len() == 9
    &&& b.quantum.len() == 9
    &&& b.graph.len() == 9
    &&& forall|u: int| 0 <= u < 9 ==> (#[trigger] b.graph[u]).len() == 9
    &&& 0 <= b.next_mov <= 9
    &&& forall|u: int, v: int| 0 <= u < 9 && 0 <= v < 9 ==> #[trigger] b.graph[u][v] <= b.next_mov
    &&& no_loops(b.graph)
    &&& squares_only(b.cycle)
    &&& b.cycle.len() != 1
    &&& b.cycle.len() <= 18
}

/// The state in which a game starts.
pub open spec fn initial() -> BoardView {
    BoardView {
        classic: Seq::new(9, |sq: int| Mark::Empty),
        quantum: Seq::new(9, |sq: int| 0u16),
        graph: no_edges(),
        next_mov: 0,
        cycle: Seq::empty(),
    }
}

} // verus!
