//! The quantum board: which pending moves touch which square.

use vstd::prelude::*;

verus! {

/// The bit of move `mov` in a square's mask.
pub open spec fn mov_bit(mov: u16) -> u16 {
    1u16 << mov
}

/// Mask `mask` records move `mov`.
pub open spec fn holds(mask: u16, mov: int) -> bool {
    mask & mov_bit(mov as u16) != 0
}

/// In how many of the first `n` squares move `mov` is pending.
pub open spec fn count_upto(masks: Seq<u16>, mov: int, n: int) -> int
    decreases n,
{
    if n <= 0 {
        0
    } else {
        count_upto(masks, mov, n - 1) + if holds(masks[n - 1], mov) {
            1int
        } else {
            0int
        }
    }
}

/// Every move is pending in no square or in exactly two, and no mask has a
/// bit beyond the nine moves.
pub open spec fn sound(masks: Seq<u16>) -> bool {
    &&& forall|mov: int|
        0 <= mov < 9 ==> #[trigger] count_upto(masks, mov, 9) == 0 || count_upto(masks, mov, 9)
            == 2
    &&& forall|sq: int| 0 <= sq < 9 ==> #[trigger] masks[sq] <= 0x1ff
}

/// The masks after move `mov` is recorded in squares `sq` and `sq2`.
pub open spec fn with_move(masks: Seq<u16>, mov: int, sq: int, sq2: int) -> Seq<u16> {
    Seq::new(
        9,
        |t: int|
            if t == sq || t == sq2 {
                masks[t] | mov_bit(mov as u16)
            } else {
                masks[t]
            },
    )
}

/// Setting the bit of move `k` in a mask adds `k` to the moves it records and
/// changes nothing else.
pub proof fn lemma_holds_after_set(mask: u16, k: u16, j: u16)
    by (bit_vector)
    requires
        k < 16,
        j < 16,
    ensures
        (mask | mov_bit(k)) & mov_bit(j) != 0 <==> (mask & mov_bit(j) != 0 || j == k),
        (mask | mov_bit(k)) | mov_bit(k) == mask | mov_bit(k),
        0u16 & mov_bit(j) == 0,
{
}

/// Facts on masks: two masks that record the same move share a bit; the empty
/// mask shares none and records none; a bit set in one mask shows in what it
/// shares with another only if the other has it; two masks with the same bit
/// set share it; and a bit below the ninth keeps a mask within nine bits.
pub proof fn lemma_masks(a: u16, b: u16, m: u16)
    by (bit_vector)
    requires
        m < 16,
    ensures
        a & mov_bit(m) != 0 && b & mov_bit(m) != 0 ==> a & b != 0,
        0u16 & a == 0,
        a & 0u16 == 0,
        b & mov_bit(m) == 0 ==> (a | mov_bit(m)) & b == a & b,
        b & mov_bit(m) == 0 ==> b & (a | mov_bit(m)) == b & a,
        (a | mov_bit(m)) & (b | mov_bit(m)) != 0,
        a & b == b & a,
        m < 9 && a <= 0x1ff ==> (a | mov_bit(m)) <= 0x1ff,
{
}

/// How many of the moves below `n` mask `x` records.
pub open spec fn moves_upto(x: u16, n: int) -> int
    decreases n,
{
    if n <= 0 {
        0
    } else {
        moves_upto(x, n - 1) + if holds(x, n - 1) {
            1int
        } else {
            0int
        }
    }
}

/// What two masks share records just the moves that both record.
pub proof fn lemma_holds_both(a: u16, b: u16, m: u16)
    by (bit_vector)
    requires
        m < 16,
    ensures
        ((a & b) & mov_bit(m) != 0) == (a & mov_bit(m) != 0 && b & mov_bit(m) != 0),
{
}

/// Two masks that record the same moves below `n` record as many.
pub proof fn lemma_moves_same(x: u16, y: u16, n: int)
    requires
        forall|m: int| 0 <= m < n ==> #[trigger] holds(x, m) == holds(y, m),
    ensures
        moves_upto(x, n) == moves_upto(y, n),
    decreases n,
{
    if n > 0 {
        lemma_moves_same(x, y, n - 1);
    }
}

/// A mask that records the moves of another below `n` and one more records
/// one more.
pub proof fn lemma_moves_one_more(x: u16, y: u16, k: int, n: int)
    requires
        0 <= k,
        !holds(x, k),
        forall|m: int| 0 <= m < n ==> (#[trigger] holds(y, m) <==> holds(x, m) || m == k),
    ensures
        moves_upto(y, n) == moves_upto(x, n) + if k < n {
            1int
        } else {
            0int
        },
    decreases n,
{
    if n > 0 {
        lemma_moves_one_more(x, y, k, n - 1);
    }
}

/// A mask that records no move below `n` records none.
pub proof fn lemma_moves_none(x: u16, n: int)
    requires
        forall|m: int| 0 <= m < n ==> !#[trigger] holds(x, m),
    ensures
        moves_upto(x, n) == 0,
    decreases n,
{
    if n > 0 {
        lemma_moves_none(x, n - 1);
    }
}

/// The number of moves recorded is at least 0.
pub proof fn lemma_moves_not_negative(x: u16, n: int)
    ensures
        moves_upto(x, n) >= 0,
    decreases n,
{
    if n > 0 {
        lemma_moves_not_negative(x, n - 1);
    }
}

/// A mask that records no move below `n` by count records none of them.
pub proof fn lemma_no_move(x: u16, n: int)
    requires
        moves_upto(x, n) == 0,
    ensures
        forall|m: int| 0 <= m < n ==> !#[trigger] holds(x, m),
    decreases n,
{
    if n > 0 {
        lemma_moves_not_negative(x, n - 1);
        lemma_no_move(x, n - 1);
    }
}

/// A mask that records one move below `n` by count: the lemma hands it
/// back.
pub proof fn lemma_one_move(x: u16, n: int) -> (k: int)
    requires
        moves_upto(x, n) == 1,
    ensures
        0 <= k < n,
        forall|m: int| 0 <= m < n ==> (#[trigger] holds(x, m) <==> m == k),
    decreases n,
{
    if n <= 0 {
        0
    } else if holds(x, n - 1) {
        lemma_no_move(x, n - 1);
        n - 1
    } else {
        lemma_one_move(x, n - 1)
    }
}

/// A mask that records two moves below `n` by count: the lemma hands them
/// back.
pub proof fn lemma_two_moves(x: u16, n: int) -> (r: (int, int))
    requires
        moves_upto(x, n) == 2,
    ensures
        0 <= r.0 < r.1 < n,
        forall|m: int| 0 <= m < n ==> (#[trigger] holds(x, m) <==> m == r.0 || m == r.1),
    decreases n,
{
    if n <= 0 {
        (0, 0)
    } else if holds(x, n - 1) {
        let k = lemma_one_move(x, n - 1);
        (k, n - 1)
    } else {
        lemma_two_moves(x, n - 1)
    }
}

/// What two masks share, less one move, records just the moves that both
/// record, but for that one.
pub proof fn lemma_shared_but(a: u16, b: u16, k: u16, m: u16)
    by (bit_vector)
    requires
        k < 16,
        m < 16,
    ensures
        ((a & (b & !mov_bit(k))) & mov_bit(m) != 0) == (a & mov_bit(m) != 0 && b & mov_bit(m) != 0
            && m != k),
        (b & !(b & a) == b & !mov_bit(k)) <== (b & a == mov_bit(k)),
        (a & mov_bit(k) != 0) ==> (a & mov_bit(k) == mov_bit(k)),
{
}

/// A mask in which every bit but that of move `k` is clear, and that one is
/// set, is the bit of move `k`.
proof fn lemma_only_bit(x: u16, k: u16)
    by (bit_vector)
    requires
        k < 16,
        x & mov_bit(k) != 0,
        k == 0 || x & mov_bit(0) == 0,
        k == 1 || x & mov_bit(1) == 0,
        k == 2 || x & mov_bit(2) == 0,
        k == 3 || x & mov_bit(3) == 0,
        k == 4 || x & mov_bit(4) == 0,
        k == 5 || x & mov_bit(5) == 0,
        k == 6 || x & mov_bit(6) == 0,
        k == 7 || x & mov_bit(7) == 0,
        k == 8 || x & mov_bit(8) == 0,
        k == 9 || x & mov_bit(9) == 0,
        k == 10 || x & mov_bit(10) == 0,
        k == 11 || x & mov_bit(11) == 0,
        k == 12 || x & mov_bit(12) == 0,
        k == 13 || x & mov_bit(13) == 0,
        k == 14 || x & mov_bit(14) == 0,
        k == 15 || x & mov_bit(15) == 0,
    ensures
        x == mov_bit(k),
{
}

/// A mask that records move `k` and no other move is the bit of move `k`.
pub proof fn lemma_single_move(x: u16, k: int)
    requires
        0 <= k < 16,
        forall|m: int| 0 <= m < 16 ==> (#[trigger] holds(x, m) <==> m == k),
    ensures
        x == mov_bit(k as u16),
{
    assert(holds(x, k));
    assert(holds(x, 0) <==> 0 == k);
    assert(holds(x, 1) <==> 1 == k);
    assert(holds(x, 2) <==> 2 == k);
    assert(holds(x, 3) <==> 3 == k);
    assert(holds(x, 4) <==> 4 == k);
    assert(holds(x, 5) <==> 5 == k);
    assert(holds(x, 6) <==> 6 == k);
    assert(holds(x, 7) <==> 7 == k);
    assert(holds(x, 8) <==> 8 == k);
    assert(holds(x, 9) <==> 9 == k);
    assert(holds(x, 10) <==> 10 == k);
    assert(holds(x, 11) <==> 11 == k);
    assert(holds(x, 12) <==> 12 == k);
    assert(holds(x, 13) <==> 13 == k);
    assert(holds(x, 14) <==> 14 == k);
    assert(holds(x, 15) <==> 15 == k);
    lemma_only_bit(x, k as u16);
}

/// Two masks that share a bit both record one of the sixteen moves.
proof fn lemma_some_bit(a: u16, b: u16)
    by (bit_vector)
    requires
        a & b != 0,
    ensures
        (a & mov_bit(0) != 0 && b & mov_bit(0) != 0) || (a & mov_bit(1) != 0 && b & mov_bit(1) != 0)
            || (a & mov_bit(2) != 0 && b & mov_bit(2) != 0) || (a & mov_bit(3) != 0 && b & mov_bit(
            3,
        ) != 0) || (a & mov_bit(4) != 0 && b & mov_bit(4) != 0) || (a & mov_bit(5) != 0 && b
            & mov_bit(5) != 0) || (a & mov_bit(6) != 0 && b & mov_bit(6) != 0) || (a & mov_bit(7)
            != 0 && b & mov_bit(7) != 0) || (a & mov_bit(8) != 0 && b & mov_bit(8) != 0) || (a
            & mov_bit(9) != 0 && b & mov_bit(9) != 0) || (a & mov_bit(10) != 0 && b & mov_bit(10)
            != 0) || (a & mov_bit(11) != 0 && b & mov_bit(11) != 0) || (a & mov_bit(12) != 0 && b
            & mov_bit(12) != 0) || (a & mov_bit(13) != 0 && b & mov_bit(13) != 0) || (a & mov_bit(
            14,
        ) != 0 && b & mov_bit(14) != 0) || (a & mov_bit(15) != 0 && b & mov_bit(15) != 0),
{
}

/// Two masks that share a bit both record some move: the lemma hands one
/// back.
pub proof fn lemma_shared_move(a: u16, b: u16) -> (m: int)
    requires
        a & b != 0,
    ensures
        0 <= m < 16,
        holds(a, m),
        holds(b, m),
{
    lemma_some_bit(a, b);
    if holds(a, 0) && holds(b, 0) {
        0
    } else if holds(a, 1) && holds(b, 1) {
        1
    } else if holds(a, 2) && holds(b, 2) {
        2
    } else if holds(a, 3) && holds(b, 3) {
        3
    } else if holds(a, 4) && holds(b, 4) {
        4
    } else if holds(a, 5) && holds(b, 5) {
        5
    } else if holds(a, 6) && holds(b, 6) {
        6
    } else if holds(a, 7) && holds(b, 7) {
        7
    } else if holds(a, 8) && holds(b, 8) {
        8
    } else if holds(a, 9) && holds(b, 9) {
        9
    } else if holds(a, 10) && holds(b, 10) {
        10
    } else if holds(a, 11) && holds(b, 11) {
        11
    } else if holds(a, 12) && holds(b, 12) {
        12
    } else if holds(a, 13) && holds(b, 13) {
        13
    } else if holds(a, 14) && holds(b, 14) {
        14
    } else {
        15
    }
}

/// The bits of the nine moves.
pub proof fn lemma_nine_moves(k: u16)
    by (bit_vector)
    requires
        k < 9,
    ensures
        k == 0 ==> mov_bit(k) == 0x001,
        k == 1 ==> mov_bit(k) == 0x002,
        k == 2 ==> mov_bit(k) == 0x004,
        k == 3 ==> mov_bit(k) == 0x008,
        k == 4 ==> mov_bit(k) == 0x010,
        k == 5 ==> mov_bit(k) == 0x020,
        k == 6 ==> mov_bit(k) == 0x040,
        k == 7 ==> mov_bit(k) == 0x080,
        k == 8 ==> mov_bit(k) == 0x100,
{
}

/// Where no square below `n` records the move, the count is 0.
pub proof fn lemma_count_none(masks: Seq<u16>, mov: int, n: int)
    requires
        forall|t: int| 0 <= t < n ==> !holds(#[trigger] masks[t], mov),
    ensures
        count_upto(masks, mov, n) == 0,
    decreases n,
{
    if n > 0 {
        lemma_count_none(masks, mov, n - 1);
    }
}

/// Where squares `x` and `y` record the move and no other square does, the
/// count tells which of the two are below `n`.
pub proof fn lemma_count_two(masks: Seq<u16>, mov: int, x: int, y: int, n: int)
    requires
        0 <= x < y,
        forall|t: int| 0 <= t < n ==> (holds(#[trigger] masks[t], mov) <==> t == x || t == y),
    ensures
        count_upto(masks, mov, n) == (if x < n {
            1int
        } else {
            0int
        }) + (if y < n {
            1int
        } else {
            0int
        }),
    decreases n,
{
    if n > 0 {
        lemma_count_two(masks, mov, x, y, n - 1);
    }
}

/// The count is at least 0.
pub proof fn lemma_count_not_negative(masks: Seq<u16>, mov: int, n: int)
    ensures
        count_upto(masks, mov, n) >= 0,
    decreases n,
{
    if n > 0 {
        lemma_count_not_negative(masks, mov, n - 1);
    }
}

/// Where the count below `n` is 2, two squares below `n` record the move and
/// no other does: the lemma hands back the two.
pub proof fn lemma_two_holders(masks: Seq<u16>, mov: int, n: int) -> (r: (int, int))
    requires
        count_upto(masks, mov, n) == 2,
    ensures
        0 <= r.0 < r.1 < n,
        forall|t: int| 0 <= t < n ==> (holds(#[trigger] masks[t], mov) <==> t == r.0 || t == r.1),
    decreases n,
{
    if n <= 0 {
        (0, 0)
    } else if holds(masks[n - 1], mov) {
        let x = lemma_one_holder(masks, mov, n - 1);
        (x, n - 1)
    } else {
        lemma_two_holders(masks, mov, n - 1)
    }
}

/// Where the count below `n` is 1, one square below `n` records the move and
/// no other does: the lemma hands it back.
pub proof fn lemma_one_holder(masks: Seq<u16>, mov: int, n: int) -> (x: int)
    requires
        count_upto(masks, mov, n) == 1,
    ensures
        0 <= x < n,
        forall|t: int| 0 <= t < n ==> (holds(#[trigger] masks[t], mov) <==> t == x),
    decreases n,
{
    if n <= 0 {
        0
    } else if holds(masks[n - 1], mov) {
        lemma_no_holder(masks, mov, n - 1);
        n - 1
    } else {
        lemma_one_holder(masks, mov, n - 1)
    }
}

/// Where the count below `n` is 0, no square below `n` records the move.
pub proof fn lemma_no_holder(masks: Seq<u16>, mov: int, n: int)
    requires
        count_upto(masks, mov, n) == 0,
    ensures
        forall|t: int| 0 <= t < n ==> !holds(#[trigger] masks[t], mov),
    decreases n,
{
    if n > 0 {
        lemma_count_not_negative(masks, mov, n - 1);
        lemma_no_holder(masks, mov, n - 1);
    }
}

/// Two boards on which the same squares below `n` record the move count the
/// same.
pub proof fn lemma_count_same(a: Seq<u16>, b: Seq<u16>, mov: int, n: int)
    requires
        forall|t: int| 0 <= t < n ==> holds(#[trigger] a[t], mov) == holds(b[t], mov),
    ensures
        count_upto(a, mov, n) == count_upto(b, mov, n),
    decreases n,
{
    if n > 0 {
        lemma_count_same(a, b, mov, n - 1);
    }
}

/// The quantum board: for each square the mask of the moves pending in it.
#[derive(Debug)]
pub struct QuantumBoardState([u16; 9]);

impl Clone for QuantumBoardState {
    fn clone(&self) -> (r: Self)
        ensures
            r@ == self@,
    {
        Self(self.0)
    }
}

impl View for QuantumBoardState {
    type V = Seq<u16>;

    /// The nine masks, by square.
    closed spec fn view(&self) -> Seq<u16> {
        self.0@
    }
}

impl QuantumBoardState {
    /// The view always has nine masks.
    pub proof fn lemma_nine(self)
        ensures
            self@.len() == 9,
    {
    }

    pub fn new() -> (r: Self)
        ensures
            r@ == Seq::new(9, |sq: int| 0u16),
    {
        let r = Self([0u16;9]);
        assert(r@ =~= Seq::new(9, |sq: int| 0u16));
        r
    }

    /// The bit of move `mov`.
    pub(crate) fn mask(mov: u8) -> (r: u16)
        requires
            mov < 16,
        ensures
            r == mov_bit(mov as u16),
    {
        1u16 << mov
    }

    /// Whether move `mov` is pending in square `sq`.
    pub fn is(&self, mov: u8, sq: u8) -> (r: bool)
        requires
            mov < 16,
            sq < 9,
        ensures
            r == holds(self@[sq as int], mov as int),
    {
        self.0[sq as usize] & Self::mask(mov) > 0
    }

    /// Records move `mov` in both squares.
    pub fn add(&mut self, mov: u8, sq: u8, sq2: u8)
        requires
            mov < 16,
            sq < 9,
            sq2 < 9,
        ensures
            final(self)@ == with_move(old(self)@, mov as int, sq as int, sq2 as int),
    {
        let bit = Self::mask(mov);
        let first = self.0[sq as usize] | bit;
        self.0[sq as usize] = first;
        let second = self.0[sq2 as usize] | bit;
        self.0[sq2 as usize] = second;
        proof {
            lemma_holds_after_set(old(self)@[sq as int], mov as u16, mov as u16);
            assert(self@ =~= with_move(old(self)@, mov as int, sq as int, sq2 as int));
        }
    }

    /// Empties the mask of square `sq` and touches no other square.
    pub fn clear(&mut self, sq: u8)
        requires
            sq < 9,
        ensures
            final(self)@ == old(self)@.update(sq as int, 0u16),
    {
        self.0[sq as usize] = 0;
        assert(self@ =~= old(self)@.update(sq as int, 0u16));
    }

    /// The mask of square `sq`.
    pub fn mask_in(&self, sq: u8) -> (r: u16)
        requires
            sq < 9,
        ensures
            r == self@[sq as int],
    {
        self.0[sq as usize]
    }

    /// Whether the board is sound.
    pub fn is_sound(&self) -> (r: bool)
        ensures
            r == sound(self@),
    {
        let mut mov: u8 = 0;
        while mov < 9
            invariant
                mov <= 9,
                forall|m: int|
                    0 <= m < mov ==> #[trigger] count_upto(self@, m, 9) == 0 || count_upto(
                        self@,
                        m,
                        9,
                    ) == 2,
            decreases 9 - mov,
        {
            let mut count: u8 = 0;
            let mut sq: u8 = 0;
            while sq < 9
                invariant
                    mov < 9,
                    sq <= 9,
                    count == count_upto(self@, mov as int, sq as int),
                    count <= sq,
                decreases 9 - sq,
            {
                if self.is(mov, sq) {
                    count = count + 1;
                }
                sq = sq + 1;
            }
            if !(count == 2 || count == 0) {
                return false;
            }
            mov = mov + 1;
        }
        let mut sq: u8 = 0;
        while sq < 9
            invariant
                sq <= 9,
                forall|s: int| 0 <= s < sq ==> #[trigger] self@[s] <= 0x1ff,
            decreases 9 - sq,
        {
            if self.0[sq as usize] > 0x1ff {
                return false;
            }
            sq = sq + 1;
        }
        true
    }
}

} // verus!
