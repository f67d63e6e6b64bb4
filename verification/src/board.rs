//! The game engine: one classical board, one quantum board and one
//! entanglement graph, kept in step, with the move counter and the cycle that
//! waits for its collapse.

use crate::cascade::wiped;
use crate::classical::{ClassicalBoardState, Mark};
use crate::collapse::connected;
use crate::graph::BoardGraph;
use crate::laws::{
    coherent, lemma_after_move, lemma_initial_coherent, lemma_listed_are_valid, lemma_two_collapses,
};
use crate::quantum::{mov_bit, sound, QuantumBoardState};
use crate::rules::{
    after, broken, collapsed, collapses, collapses_pair, consistent, decides, initial,
    lemma_live_without_vert, listed, live, mark_of_move, placed, placements, placements_with,
    position, resolve, settle, shaped, spread, spread_decides, struck, took_own, valid, wrapped,
    BoardView, Move,
};
use crate::store::{store_clear, store_get, store_len, store_new, CycleStore};
use vstd::arithmetic::div_mod::{
    lemma_fundamental_div_mod, lemma_fundamental_div_mod_converse, lemma_mod_pos_bound,
};
use vstd::pervasive::unreached;
use vstd::prelude::*;

verus! {

/// `idx` brought into `0..len` by whole turns, for a `len` of which the
/// machine can hold the double.
pub fn wrap(idx: isize, len: usize) -> (r: usize)
    requires
        0 < len,
        2 * len <= isize::MAX,
    ensures
        r == wrapped(idx as int, len as int),
{
    let len = len as isize;
    let a = idx % len;
    let r = (a + len) % len;
    proof {
        // the remainder of the machine takes the sign of `idx`
        let l = len as int;
        let x = idx as int;
        if x >= 0 {
            lemma_mod_pos_bound(x, l);
            lemma_fundamental_div_mod_converse(a + l, l, 1, a as int);
        } else {
            let p = (-x) % l;
            let k = (-x) / l;
            lemma_mod_pos_bound(-x, l);
            lemma_fundamental_div_mod(-x, l);
            if p == 0 {
                lemma_fundamental_div_mod_converse(l, l, 1, 0);
                assert(x == (-k) * l + 0) by (nonlinear_arith)
                    requires
                        -x == l * k + 0,
                ;
                lemma_fundamental_div_mod_converse(x, l, -k, 0);
            } else {
                lemma_fundamental_div_mod_converse(l - p, l, 0, l - p);
                assert(x == (-k - 1) * l + (l - p)) by (nonlinear_arith)
                    requires
                        -x == l * k + p,
                ;
                lemma_fundamental_div_mod_converse(x, l, -k - 1, l - p);
            }
        }
    }
    r as usize
}

/// The game: the three boards, the number of the next move and the pending
/// cycle.
#[derive(Debug)]
pub struct BoardState {
    /// The classical marks.
    c: ClassicalBoardState,
    /// The pending moves of each square.
    q: QuantumBoardState,
    /// The edges that the pending moves make between the squares.
    g: BoardGraph,
    /// The number of placements made: the identifier of the next one, whose
    /// parity says who is to move.
    next_mov: u8,
    /// The squares of the pending cycle, if there is one.
    cycle: CycleStore,
}

impl Clone for BoardState {
    fn clone(&self) -> (b: Self)
        ensures
            b@ == self@,
            self.inv() ==> b.inv(),
    {
        BoardState {
            c: self.c,
            q: self.q.clone(),
            g: self.g.clone(),
            next_mov: self.next_mov,
            cycle: self.cycle.clone(),
        }
    }
}

impl View for BoardState {
    type V = BoardView;

    closed spec fn view(&self) -> BoardView {
        BoardView {
            classic: self.c@,
            quantum: self.q@,
            graph: self.g@,
            next_mov: self.next_mov as int,
            cycle: self.cycle@,
        }
    }
}

/// The cascade of `resolve`, on the boards of `board`.
fn resolve_depth_first(start: u8, last_mask: u16, board: &mut BoardState)
    requires
        start < 9,
        old(board).wf(),
        decides(old(board)@, start as int, last_mask),
    ensures
        final(board).wf(),
        final(board)@ == resolve(old(board)@, start as int, last_mask),
        live(final(board)@.graph) <= live(old(board)@.graph),
    decreases live(old(board)@.graph),
{
    // resolve this one
    let decision_mask = board.q.mask_in(start) & last_mask;
    match decision_mask {
        // 0th - 8th bit
        0b000000001 => board.c.set_x(start),
        0b000000010 => board.c.set_o(start),
        0b000000100 => board.c.set_x(start),
        0b000001000 => board.c.set_o(start),
        0b000010000 => board.c.set_x(start),
        0b000100000 => board.c.set_o(start),
        0b001000000 => board.c.set_x(start),
        0b010000000 => board.c.set_o(start),
        0b100000000 => board.c.set_x(start),
        // the cascade has exactly one of the nine moves to decide here
        _ => unreached(),
    };
    let next_last_mask = board.q.mask_in(start) & (!decision_mask);
    let edges: [u8; 9] = board.g.edges()[start as usize];
    board.g.clear_vert(start);
    board.q.clear(start);
    proof {
        old(board).q.lemma_nine();
        lemma_live_without_vert(old(board)@.graph, start as int);
        assert(board@ =~= settle(old(board)@, start as int, last_mask));
        assert(edges@ =~= old(board)@.graph[start as int]);
    }
    let ghost settled = board@;
    // finds squares connected to this one in the graph
    let mut i: u8 = 0;
    while i < 9
        invariant
            i <= 9,
            board.wf(),
            live(board@.graph) <= live(settled.graph),
            live(settled.graph) <= live(old(board)@.graph),
            forall|j: int| 0 <= j < 9 ==> edges[j] == #[trigger] old(board)@.graph[start as int][j],
            (exists|j: int| 0 <= j < 9 && edges[j] > 0) ==> live(settled.graph) < live(
                old(board)@.graph,
            ),
            spread(board@, edges@, next_last_mask, i as int) == spread(
                settled,
                edges@,
                next_last_mask,
                0,
            ),
            spread_decides(board@, edges@, next_last_mask, i as int),
        decreases 9 - i,
    {
        if edges[i as usize] > 0 {
            resolve_depth_first(i, next_last_mask, board);
        }
        i = i + 1;
    }
}

impl BoardState {
    /// The state has the shape of a game's state, and its classical board is
    /// well-formed: what the queries need.
    pub closed spec fn wf(self) -> bool {
        &&& shaped(self@)
        &&& self.c.wf()
    }

    /// The invariant of a game: the state is well-formed and coherent. A new
    /// game has it and every valid move keeps it.
    pub open spec fn inv(self) -> bool {
        &&& self.wf()
        &&& coherent(self@)
    }

    /// A game before its first move.
    pub fn new() -> (b: Self)
        ensures
            b.inv(),
            b@ == initial(),
    {
        proof {
            lemma_initial_coherent();
        }
        let b = BoardState {
            c: ClassicalBoardState::new(),
            q: QuantumBoardState::new(),
            g: BoardGraph::new(),
            next_mov: 0,
            cycle: store_new(),
        };
        b
    }

    /// The classical board.
    pub fn classic(&self) -> (c: &ClassicalBoardState)
        requires
            self.wf(),
        ensures
            c.wf(),
            c@ == self@.classic,
    {
        &self.c
    }

    /// The quantum board.
    pub fn quantum(&self) -> (q: &QuantumBoardState)
        ensures
            q@ == self@.quantum,
    {
        &self.q
    }

    /// The identifier of the next placement: the number of placements made.
    pub fn next_mov(&self) -> (n: u8)
        ensures
            n == self@.next_mov,
    {
        self.next_mov
    }

    /// Whether a cycle waits for its collapse.
    pub fn has_cycle(&self) -> (r: bool)
        ensures
            r == (self@.cycle.len() > 0),
    {
        store_len(&self.cycle) > 0
    }

    /// The squares of the pending cycle, in order.
    pub fn cycle(&self) -> (v: Vec<u8>)
        ensures
            v@ == self@.cycle,
    {
        self.cycle.to_vec()
    }

    /// The first index at which the pending cycle holds `sq`; its length when
    /// it does not hold `sq`.
    fn cycle_index(&self, sq: u8) -> (idx: usize)
        ensures
            idx == position(self@.cycle, sq as int, 0),
            idx <= self@.cycle.len(),
    {
        let len = store_len(&self.cycle);
        let mut i: usize = 0;
        while i < len
            invariant
                len == self@.cycle.len(),
                i <= len,
                position(self@.cycle, sq as int, i as int) == position(self@.cycle, sq as int, 0),
            decreases len - i,
        {
            if store_get(&self.cycle, i) == sq {
                return i;
            }
            i = i + 1;
        }
        len
    }

    /// The placement of the next move on `sq1` and `sq2`.
    fn place(&mut self, sq1: u8, sq2: u8)
        requires
            old(self).wf(),
            valid(old(self)@, Move::Quantum(sq1, sq2)),
        ensures
            final(self)@ == placed(old(self)@, sq1 as int, sq2 as int),
            final(self).c.wf(),
    {
        self.q.add(self.next_mov, sq1, sq2);
        self.g.add_edge(sq1, sq2);
        self.next_mov += 1;
        self.g.has_cycle(sq1, &mut self.cycle);
    }

    /// The collapse of the pending cycle at `sq` to move `mov`.
    fn collapse(&mut self, sq: u8, mov: u8)
        requires
            old(self).wf(),
            valid(old(self)@, Move::Collapse { sq, mov }),
            struck(old(self)@, sq as int, mov as int) != sq,
            decides(
                broken(old(self)@, sq as int, mov as int),
                sq as int,
                mov_bit(mov as u16),
            ),
        ensures
            final(self)@ == collapsed(old(self)@, sq as int, mov as int),
            final(self).c.wf(),
    {
        let len = store_len(&self.cycle);
        // find the index of sq in the cycle
        let idx = self.cycle_index(sq);
        // last mask contains the moves that were in the last square but did
        // not become classical
        let last_mask = QuantumBoardState::mask(mov);
        // destroy the cycle, making the graph a tree so that we don't
        // backtrack; the edge that goes is the one that carries `mov`
        let candidate_square = store_get(&self.cycle, wrap(idx as isize + 1, len));
        if self.q.mask_in(candidate_square) & last_mask > 0 {
            self.g.clear_edge(sq, candidate_square);
        } else {
            self.g.clear_edge(sq, store_get(&self.cycle, wrap(idx as isize - 1, len)));
        }
        assert(self@ == broken(old(self)@, sq as int, mov as int));
        resolve_depth_first(sq, last_mask, self);
        store_clear(&mut self.cycle);
    }

    /// Applies move `m`, which must be valid.
    ///
    /// The state after it is the one that the rules give, and the invariant
    /// holds of it, so that the three boards agree. A collapse leaves in its
    /// square the mark of the player who made the move it collapses to.
    ///
    /// A sound quantum board stays sound, and a collapse leaves every square
    /// of the component of its square without pending move and without edge,
    /// with the mark of a player whose move was pending there, unless the
    /// move collapses a cycle of two squares: then the square struck keeps
    /// its pending moves.
    pub fn do_move(&mut self, m: Move)
        requires
            old(self).inv(),
            valid(old(self)@, m),
        ensures
            final(self).inv(),
            final(self)@ == after(old(self)@, m),
            consistent(final(self)@),
            sound(old(self)@.quantum) && !collapses_pair(old(self)@, m) ==> sound(
                final(self)@.quantum,
            ),
            m matches Move::Collapse { sq, mov } ==> final(self)@.classic[sq as int]
                == mark_of_move(mov as int),
            m matches Move::Collapse { sq, mov } ==> !collapses_pair(old(self)@, m) ==> forall|
                x: int,
            |
                0 <= x < 9 && #[trigger] connected(old(self)@.graph, sq as int, x) ==> wiped(
                    final(self)@,
                    x,
                ) && took_own(old(self)@.quantum, final(self)@.classic, x),
    {
        proof {
            lemma_after_move(self@, m);
        }
        match m {
            Move::Quantum(sq1, sq2) => {
                self.place(sq1, sq2);
            },
            Move::Collapse { sq, mov } => {
                // this branch can assume there is a cycle and that the square
                // and move given are part of it
                self.collapse(sq, mov);
            },
        }
    }

    /// Lists the valid moves in `store`, which is emptied first.
    ///
    /// In a game every move listed is valid, and a pending cycle has two
    /// collapses listed.
    pub fn valid_moves(&self, store: &mut Vec<Move>)
        requires
            self.wf(),
        ensures
            final(store)@ == listed(self@),
            self.inv() ==> forall|i: int|
                0 <= i < final(store)@.len() ==> valid(self@, #[trigger] final(store)@[i]),
            self.inv() && self@.cycle.len() > 0 ==> final(store)@.len() == 2,
    {
        proof {
            if self.inv() && self@.cycle.len() > 0 {
                lemma_two_collapses(self@);
            }
            if self.inv() {
                assert forall|i: int| 0 <= i < listed(self@).len() implies valid(
                    self@,
                    #[trigger] listed(self@)[i],
                ) by {
                    lemma_listed_are_valid(self@, listed(self@)[i]);
                }
            }
        }
        store.clear();
        if self.c.has_winner() {
            return ;
        }
        if !self.cycle.is_empty() {
            // collapse the cycle at its start
            let first = store_get(&self.cycle, 0);
            let square = self.q.mask_in(first);
            // now find the possible collapses
            let next_square = self.q.mask_in(store_get(&self.cycle, 1));
            let prev_square = self.q.mask_in(store_get(&self.cycle, store_len(&self.cycle) - 1));
            let move_mask = (square & next_square) | (square & prev_square);
            // move_mask now holds the moves that formed the cycle edges at
            // the first square
            let mut mov: u8 = 0;
            while mov < 9
                invariant
                    mov <= 9,
                    self.wf(),
                    self@.cycle.len() >= 2,
                    first == self@.cycle[0],
                    move_mask == (self@.quantum[first as int]
                        & self@.quantum[self@.cycle[1] as int]) | (self@.quantum[first as int]
                        & self@.quantum[self@.cycle[self@.cycle.len() - 1] as int]),
                    store@ == collapses(self@, mov as int),
                decreases 9 - mov,
            {
                proof {
                    lemma_offered(
                        self@.quantum[self@.cycle[0] as int],
                        self@.quantum[self@.cycle[1] as int],
                        self@.quantum[self@.cycle[self@.cycle.len() - 1] as int],
                        mov as u16,
                    );
                }
                if move_mask & (1u16 << mov) > 0 {
                    store.push(Move::Collapse { sq: first, mov: mov });
                }
                mov = mov + 1;
            }
        } else if self.next_mov < 9 {
            // generate all possible quantum moves, but without duplicates
            let mut sq1: u8 = 0;
            while sq1 < 9
                invariant
                    sq1 <= 9,
                    self.wf(),
                    store@ == placements(self@.classic, sq1 as int),
                decreases 9 - sq1,
            {
                if self.c.is_empty(sq1) {
                    let ghost base = store@;
                    let mut sq2: u8 = sq1 + 1;
                    while sq2 < 9
                        invariant
                            sq1 < 9,
                            sq1 < sq2 <= 9,
                            self.wf(),
                            store@ == base + placements_with(
                                self@.classic,
                                sq1 as int,
                                sq2 as int,
                            ),
                        decreases 9 - sq2,
                    {
                        if self.c.is_empty(sq2) {
                            store.push(Move::Quantum(sq1, sq2));
                        }
                        sq2 = sq2 + 1;
                        assert(store@ =~= base + placements_with(
                            self@.classic,
                            sq1 as int,
                            sq2 as int,
                        ));
                    }
                }
                sq1 = sq1 + 1;
            }
        }
    }

    /// Whether move `m` may be applied.
    pub fn is_valid(&self, m: Move) -> (r: bool)
        requires
            self.wf(),
        ensures
            r == valid(self@, m),
    {
        if self.c.has_winner() {
            return false;
        }
        match m {
            Move::Quantum(sq1, sq2) => {
                if !self.cycle.is_empty() {
                    return false;
                }
                // no classical moves

                if sq1 == sq2 {
                    return false;
                }
                if sq1 >= 9 || sq2 >= 9 {
                    return false;
                }
                // both squares are classically empty

                if !self.c.is_empty(sq1) {
                    return false;
                }
                if !self.c.is_empty(sq2) {
                    return false;
                }
                self.next_mov < 9
            },
            Move::Collapse { sq, mov } => {
                if sq >= 9 || mov >= 9 {
                    return false;
                }
                // ensure there is a cycle there

                let mut store = store_new();
                if !self.g.has_cycle(sq, &mut store) {
                    return false;
                }
                // there should also be a cycle from the last move

                if self.cycle.is_empty() {
                    return false;
                }
                // ensure this mov exists in the square we'd like to put it in

                if !self.q.is(mov, sq) {
                    return false;
                }
                // if this mov is part of the cycle, it should exist in either
                // the next or previous square in the cycle

                let len = store_len(&self.cycle);
                let c_idx = self.cycle_index(sq);
                if c_idx >= len {
                    return false;
                }
                let sq_check_1 = wrap(c_idx as isize - 1, len);
                let sq_check_2 = wrap(c_idx as isize + 1, len);
                self.q.is(mov, store_get(&self.cycle, sq_check_1)) || self.q.is(
                    mov,
                    store_get(&self.cycle, sq_check_2),
                )
            },
        }
    }

    /// Whether the three boards agree.
    pub fn is_state_valid(&self) -> (r: bool)
        requires
            self.wf(),
        ensures
            r == consistent(self@),
    {
        // if a square is classical, its graph and quanta must be empty
        let mut i: u8 = 0;
        while i < 9
            invariant
                i <= 9,
                self.wf(),
                forall|sq: int|
                    0 <= sq < i && #[trigger] self@.classic[sq] != Mark::Empty ==> self@.quantum[sq]
                        == 0,
                forall|sq: int, j: int|
                    0 <= sq < i && 0 <= j < 9 && self@.classic[sq] != Mark::Empty
                        ==> #[trigger] self@.graph[sq][j] == 0,
            decreases 9 - i,
        {
            if !self.c.is_empty(i) {
                if self.q.mask_in(i) > 0 {
                    assert(self@.classic[i as int] != Mark::Empty);
                    return false;
                }
                let mut j: u8 = 0;
                while j < 9
                    invariant
                        i < 9,
                        j <= 9,
                        self.wf(),
                        self@.classic[i as int] != Mark::Empty,
                        forall|k: int| 0 <= k < j ==> #[trigger] self@.graph[i as int][k] == 0,
                    decreases 9 - j,
                {
                    if self.g.edges()[i as usize][j as usize] != 0 {
                        assert(!consistent(self@)) by {
                            assert(self@.graph[i as int][j as int] != 0);
                        }
                        return false;
                    }
                    j = j + 1;
                }
            }
            i = i + 1;
        }
        // ensure correspondence between graph and quantum states
        let mut sq1: u8 = 0;
        while sq1 < 9
            invariant
                sq1 <= 9,
                self.wf(),
                forall|sq: int|
                    0 <= sq < 9 && #[trigger] self@.classic[sq] != Mark::Empty ==> self@.quantum[sq]
                        == 0,
                forall|sq: int, j: int|
                    0 <= sq < 9 && 0 <= j < 9 && self@.classic[sq] != Mark::Empty
                        ==> #[trigger] self@.graph[sq][j] == 0,
                forall|u: int, v: int|
                    0 <= u < sq1 && 0 <= v < 9 && #[trigger] self@.graph[u][v] > 0
                        ==> self@.quantum[u] & self@.quantum[v] != 0,
            decreases 9 - sq1,
        {
            let mut sq2: u8 = 0;
            while sq2 < 9
                invariant
                    sq1 < 9,
                    sq2 <= 9,
                    self.wf(),
                    forall|v: int|
                        0 <= v < sq2 && #[trigger] self@.graph[sq1 as int][v] > 0
                            ==> self@.quantum[sq1 as int] & self@.quantum[v] != 0,
                decreases 9 - sq2,
            {
                if self.g.edges()[sq1 as usize][sq2 as usize] > 0 {
                    if self.q.mask_in(sq1) & self.q.mask_in(sq2) == 0 {
                        assert(!consistent(self@)) by {
                            assert(self@.graph[sq1 as int][sq2 as int] > 0);
                        }
                        return false;
                    }
                }
                sq2 = sq2 + 1;
            }
            sq1 = sq1 + 1;
        }
        true
    }
}

/// A move is in both of two masks, or in the first and the third, just when
/// its bit is in the union of the two intersections.
proof fn lemma_offered(a: u16, b: u16, c: u16, mov: u16)
    by (bit_vector)
    requires
        mov < 9,
    ensures
        (((a & b) | (a & c)) & (1u16 << mov) != 0) <==> (a & (1u16 << mov) != 0 && (b & (1u16
            << mov) != 0 || c & (1u16 << mov) != 0)),
{
}

} // verus!
