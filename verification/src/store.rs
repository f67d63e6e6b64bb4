//! The buffer that receives the squares of a cycle: a `SmallVec` that keeps up
//! to nine squares inline.

use vstd::prelude::*;

verus! {

/// A buffer of squares, kept in a `smallvec::SmallVec<[u8; 9]>`.
///
/// Verus does not look inside; what the buffer holds is `store_items`.
#[verifier::external_body]
#[derive(Debug)]
pub struct CycleStore {
    inner: smallvec::SmallVec<[u8; 9]>,
}

/// The squares that a buffer holds, first pushed first.
pub uninterp spec fn store_items(s: CycleStore) -> Seq<u8>;

/// A buffer longer than this is never pushed to. Below it, the capacity that
/// `SmallVec` computes when it grows (the next power of two) fits the
/// allocator's limit on every target, so that `push` cannot fail on it.
pub const STORE_LIMIT: usize = 0x4000_0000;

impl View for CycleStore {
    type V = Seq<u8>;

    open spec fn view(&self) -> Seq<u8> {
        store_items(*self)
    }
}

/// `SmallVec::new`: a buffer that holds nothing.
#[verifier::external_body]
pub(crate) fn store_new() -> (s: CycleStore)
    ensures
        store_items(s) == Seq::<u8>::empty(),
{
    CycleStore { inner: smallvec::SmallVec::new() }
}

/// `SmallVec::len`: the number of squares held.
#[verifier::external_body]
pub(crate) fn store_len(s: &CycleStore) -> (n: usize)
    ensures
        n == store_items(*s).len(),
{
    s.inner.len()
}

/// `SmallVec`'s `Index`: the square at position `i`, which must be in range
/// (out of range the index panics).
#[verifier::external_body]
pub(crate) fn store_get(s: &CycleStore, i: usize) -> (sq: u8)
    requires
        i < store_items(*s).len(),
    ensures
        sq == store_items(*s)[i as int],
{
    s.inner[i]
}

/// `SmallVec::push`: appends one square and keeps the others in place. Below
/// `STORE_LIMIT` its growth cannot overflow.
#[verifier::external_body]
pub(crate) fn store_push(s: &mut CycleStore, sq: u8)
    requires
        store_items(*old(s)).len() < STORE_LIMIT,
    ensures
        store_items(*final(s)) == store_items(*old(s)).push(sq),
{
    s.inner.push(sq)
}

/// `SmallVec::clear`: removes every square.
#[verifier::external_body]
pub(crate) fn store_clear(s: &mut CycleStore)
    ensures
        store_items(*final(s)) == Seq::<u8>::empty(),
{
    s.inner.clear()
}

/// `SmallVec::clone`: a buffer that holds the same squares in the same order.
#[verifier::external_body]
pub(crate) fn store_copy(s: &CycleStore) -> (r: CycleStore)
    ensures
        store_items(r) == store_items(*s),
{
    CycleStore { inner: s.inner.clone() }
}

impl Clone for CycleStore {
    fn clone(&self) -> (s: Self)
        ensures
            s@ == self@,
    {
        store_copy(self)
    }
}

impl CycleStore {
    /// An empty buffer.
    pub fn new() -> (s: Self)
        ensures
            s@ == Seq::<u8>::empty(),
    {
        store_new()
    }

    /// The number of squares held.
    pub fn len(&self) -> (n: usize)
        ensures
            n == self@.len(),
    {
        store_len(self)
    }

    /// Whether the buffer holds nothing.
    pub fn is_empty(&self) -> (r: bool)
        ensures
            r == (self@.len() == 0),
    {
        store_len(self) == 0
    }

    /// The squares held, in order, as a vector.
    pub fn to_vec(&self) -> (v: Vec<u8>)
        ensures
            v@ == self@,
    {
        let n = store_len(self);
        let mut v: Vec<u8> = Vec::new();
        let mut i: usize = 0;
        while i < n
            invariant
                n == self@.len(),
                i <= n,
                v@ == self@.subrange(0, i as int),
            decreases n - i,
        {
            v.push(store_get(self, i));
            assert(v@ =~= self@.subrange(0, i as int + 1));
            i = i + 1;
        }
        assert(v@ =~= self@);
        v
    }
}

} // verus!
