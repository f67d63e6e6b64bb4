//! The classical board: which squares hold a permanent X or O.

use vstd::prelude::*;

verus! {

/// What a square of the classical board holds.
#[derive(Clone, Copy, Debug, PartialEq, Eq, Structural)]
pub enum Mark {
    Empty,
    X,
    O,
}

/// The bit that records an X in square `sq`.
pub open spec fn x_bit(sq: u32) -> u32 {
    1u32 << ((2 * sq) as u32)
}

/// The bit that records an O in square `sq`.
pub open spec fn o_bit(sq: u32) -> u32 {
    1u32 << ((2 * sq + 1) as u32)
}

/// The mark that the packed word `bits` records for square `sq`.
pub open spec fn mark_of_bits(bits: u32, sq: int) -> Mark {
    if bits & x_bit(sq as u32) != 0 {
        Mark::X
    } else if bits & o_bit(sq as u32) != 0 {
        Mark::O
    } else {
        Mark::Empty
    }
}

/// The three squares of winning line `l`: rows first, then columns, then the
/// two diagonals.
pub open spec fn line(l: int) -> (int, int, int) {
    if l == 0 {
        (0, 1, 2)
    } else if l == 1 {
        (3, 4, 5)
    } else if l == 2 {
        (6, 7, 8)
    } else if l == 3 {
        (0, 3, 6)
    } else if l == 4 {
        (1, 4, 7)
    } else if l == 5 {
        (2, 5, 8)
    } else if l == 6 {
        (0, 4, 8)
    } else {
        (2, 4, 6)
    }
}

/// All three squares of line `l` hold mark `m`.
pub open spec fn holds_line(marks: Seq<Mark>, m: Mark, l: int) -> bool {
    marks[line(l).0] == m && marks[line(l).1] == m && marks[line(l).2] == m
}

/// Mark `m` fills at least one of the eight lines.
pub open spec fn wins(marks: Seq<Mark>, m: Mark) -> bool {
    exists|l: int| 0 <= l < 8 && #[trigger] holds_line(marks, m, l)
}

proof fn lemma_set_x(bits: u32, s: u32, t: u32)
    by (bit_vector)
    requires
        s < 9,
        t < 9,
    ensures
        ((bits | x_bit(s)) & !o_bit(s)) & x_bit(s) != 0,
        ((bits | x_bit(s)) & !o_bit(s)) & o_bit(s) == 0,
        t != s ==> ((bits | x_bit(s)) & !o_bit(s)) & x_bit(t) == bits & x_bit(t),
        t != s ==> ((bits | x_bit(s)) & !o_bit(s)) & o_bit(t) == bits & o_bit(t),
        bits < 0x40000 ==> ((bits | x_bit(s)) & !o_bit(s)) < 0x40000,
{
}

proof fn lemma_set_o(bits: u32, s: u32, t: u32)
    by (bit_vector)
    requires
        s < 9,
        t < 9,
    ensures
        ((bits | o_bit(s)) & !x_bit(s)) & o_bit(s) != 0,
        ((bits | o_bit(s)) & !x_bit(s)) & x_bit(s) == 0,
        t != s ==> ((bits | o_bit(s)) & !x_bit(s)) & x_bit(t) == bits & x_bit(t),
        t != s ==> ((bits | o_bit(s)) & !x_bit(s)) & o_bit(t) == bits & o_bit(t),
        bits < 0x40000 ==> ((bits | o_bit(s)) & !x_bit(s)) < 0x40000,
{
}

proof fn lemma_all_three(bits: u32, a: u32, b: u32, c: u32)
    by (bit_vector)
    requires
        a < 32,
        b < 32,
        c < 32,
    ensures
        (bits & ((1u32 << a) | (1u32 << b) | (1u32 << c)) == ((1u32 << a) | (1u32 << b) | (1u32
            << c))) == (bits & (1u32 << a) != 0 && bits & (1u32 << b) != 0 && bits & (1u32 << c)
            != 0),
{
}

proof fn lemma_no_marks(t: u32)
    by (bit_vector)
    requires
        t < 9,
    ensures
        0u32 & x_bit(t) == 0,
        0u32 & o_bit(t) == 0,
{
}

/// The squares of line `l`, for the executable win checks.
fn line_squares(l: u8) -> (r: (u8, u8, u8))
    requires
        l < 8,
    ensures
        r.0 == line(l as int).0,
        r.1 == line(l as int).1,
        r.2 == line(l as int).2,
        r.0 < 9,
        r.1 < 9,
        r.2 < 9,
{
    if l == 0 {
        (0, 1, 2)
    } else if l == 1 {
        (3, 4, 5)
    } else if l == 2 {
        (6, 7, 8)
    } else if l == 3 {
        (0, 3, 6)
    } else if l == 4 {
        (1, 4, 7)
    } else if l == 5 {
        (2, 5, 8)
    } else if l == 6 {
        (0, 4, 8)
    } else {
        (2, 4, 6)
    }
}

/// The permanent marks of the nine squares, two bits to a square.
#[derive(Clone, Copy, Debug)]
pub struct ClassicalBoardState(u32);

impl View for ClassicalBoardState {
    type V = Seq<Mark>;

    /// The nine marks, by square.
    open spec fn view(&self) -> Seq<Mark> {
        Seq::new(9, |sq: int| mark_of_bits(self.bits(), sq))
    }
}

impl ClassicalBoardState {
    /// The packed word.
    pub closed spec fn bits(self) -> u32 {
        self.0
    }

    /// No square holds both marks, and no bit beyond the nine squares is set;
    /// so two well-formed boards with the same view are the same board.
    pub open spec fn wf(self) -> bool {
        &&& self.bits() < 0x40000
        &&& forall|sq: int|
            0 <= sq < 9 ==> !(self.bits() & #[trigger] x_bit(sq as u32) != 0 && self.bits() & o_bit(
                sq as u32,
            ) != 0)
    }

    pub fn new() -> (r: Self)
        ensures
            r.wf(),
            r@ == Seq::new(9, |sq: int| Mark::Empty),
    {
        let r = Self(0);
        proof {
            assert forall|sq: int| 0 <= sq < 9 implies 0u32 & #[trigger] x_bit(sq as u32) == 0
                && 0u32 & o_bit(sq as u32) == 0 by {
                lemma_no_marks(sq as u32);
            }
            assert(r@ =~= Seq::new(9, |sq: int| Mark::Empty));
        }
        r
    }

    fn x_mask(sq: u8) -> (r: u32)
        requires
            sq < 9,
        ensures
            r == x_bit(sq as u32),
    {
        1u32 << (2 * sq)
    }

    fn o_mask(sq: u8) -> (r: u32)
        requires
            sq < 9,
        ensures
            r == o_bit(sq as u32),
    {
        1u32 << (2 * sq + 1)
    }

    /// Puts an X in `sq`, over whatever the square held.
    pub fn set_x(&mut self, sq: u8)
        requires
            old(self).wf(),
            sq < 9,
        ensures
            final(self).wf(),
            final(self)@ == old(self)@.update(sq as int, Mark::X),
    {
        let ghost before = self.0;
        self.0 = self.0 | Self::x_mask(sq);
        self.0 = self.0 & !Self::o_mask(sq);
        proof {
            assert forall|t: int| 0 <= t < 9 implies mark_of_bits(self.0, t) == (if t == sq {
                Mark::X
            } else {
                mark_of_bits(before, t)
            }) && !(self.0 & #[trigger] x_bit(t as u32) != 0 && self.0 & o_bit(t as u32) != 0) by {
                lemma_set_x(before, sq as u32, t as u32);
            }
            lemma_set_x(before, sq as u32, sq as u32);
            assert(self@ =~= old(self)@.update(sq as int, Mark::X));
        }
    }

    /// Puts an O in `sq`, over whatever the square held.
    pub fn set_o(&mut self, sq: u8)
        requires
            old(self).wf(),
            sq < 9,
        ensures
            final(self).wf(),
            final(self)@ == old(self)@.update(sq as int, Mark::O),
    {
        let ghost before = self.0;
        self.0 = self.0 | Self::o_mask(sq);
        self.0 = self.0 & !Self::x_mask(sq);
        proof {
            assert forall|t: int| 0 <= t < 9 implies mark_of_bits(self.0, t) == (if t == sq {
                Mark::O
            } else {
                mark_of_bits(before, t)
            }) && !(self.0 & #[trigger] x_bit(t as u32) != 0 && self.0 & o_bit(t as u32) != 0) by {
                lemma_set_o(before, sq as u32, t as u32);
            }
            lemma_set_o(before, sq as u32, sq as u32);
            assert(self@ =~= old(self)@.update(sq as int, Mark::O));
        }
    }

    pub fn is_x(&self, sq: u8) -> (r: bool)
        requires
            sq < 9,
        ensures
            r == (self@[sq as int] == Mark::X),
    {
        self.0 & Self::x_mask(sq) > 0
    }

    pub fn is_o(&self, sq: u8) -> (r: bool)
        requires
            self.wf(),
            sq < 9,
        ensures
            r == (self@[sq as int] == Mark::O),
    {
        assert(!(self.bits() & x_bit(sq as u32) != 0 && self.bits() & o_bit(sq as u32) != 0));
        self.0 & Self::o_mask(sq) > 0
    }

    pub fn is_empty(&self, sq: u8) -> (r: bool)
        requires
            self.wf(),
            sq < 9,
        ensures
            r == (self@[sq as int] == Mark::Empty),
    {
        !(self.is_o(sq) || self.is_x(sq))
    }

    /// Whether X fills one of the eight lines.
    pub fn x_wins(&self) -> (r: bool)
        requires
            self.wf(),
        ensures
            r == wins(self@, Mark::X),
    {
        let mut won = false;
        let mut l: u8 = 0;
        while l < 8
            invariant
                l <= 8,
                won == (exists|k: int| 0 <= k < l && #[trigger] holds_line(self@, Mark::X, k)),
            decreases 8 - l,
        {
            let (a, b, c) = line_squares(l);
            let mask = Self::x_mask(a) | Self::x_mask(b) | Self::x_mask(c);
            proof {
                lemma_all_three(self.0, (2 * a) as u32, (2 * b) as u32, (2 * c) as u32);
            }
            let here = self.0 & mask == mask;
            assert(here == holds_line(self@, Mark::X, l as int));
            won = won || here;
            l = l + 1;
        }
        won
    }

    /// Whether O fills one of the eight lines.
    pub fn o_wins(&self) -> (r: bool)
        requires
            self.wf(),
        ensures
            r == wins(self@, Mark::O),
    {
        let mut won = false;
        let mut l: u8 = 0;
        while l < 8
            invariant
                self.wf(),
                l <= 8,
                won == (exists|k: int| 0 <= k < l && #[trigger] holds_line(self@, Mark::O, k)),
            decreases 8 - l,
        {
            let (a, b, c) = line_squares(l);
            let mask = Self::o_mask(a) | Self::o_mask(b) | Self::o_mask(c);
            proof {
                lemma_all_three(
                    self.0,
                    (2 * a + 1) as u32,
                    (2 * b + 1) as u32,
                    (2 * c + 1) as u32,
                );
                assert(!(self.bits() & x_bit(a as u32) != 0 && self.bits() & o_bit(a as u32) != 0));
                assert(!(self.bits() & x_bit(b as u32) != 0 && self.bits() & o_bit(b as u32) != 0));
                assert(!(self.bits() & x_bit(c as u32) != 0 && self.bits() & o_bit(c as u32) != 0));
            }
            let here = self.0 & mask == mask;
            assert(here == holds_line(self@, Mark::O, l as int));
            won = won || here;
            l = l + 1;
        }
        won
    }

    /// Whether either mark fills a line.
    pub fn has_winner(&self) -> (r: bool)
        requires
            self.wf(),
        ensures
            r == (wins(self@, Mark::X) || wins(self@, Mark::O)),
    {
        self.x_wins() || self.o_wins()
    }
}

} // verus!
