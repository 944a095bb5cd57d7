use bitvec::order::Msb0;
use bitvec::vec::BitVec;
use vstd::prelude::*;

verus! {

/// A vector of bits backed by `bitvec::vec::BitVec<u8, Msb0>`: bit `8 * k + j`
/// is bit `j` (counted from the most significant end) of byte `k`, as in the
/// wire format of the peer protocol's `bitfield` message.
#[verifier::external_body]
#[derive(Debug)]
pub struct BitField {
    bits: BitVec<u8, Msb0>,
}

/// The bits that a bit-vector holds, in index order.
pub uninterp spec fn bitfield_view(b: BitField) -> Seq<bool>;

/// The weight of bit `j` of a byte, counted from the most significant end.
pub open spec fn msb_weight(j: int) -> int {
    if j == 0 {
        128
    } else if j == 1 {
        64
    } else if j == 2 {
        32
    } else if j == 3 {
        16
    } else if j == 4 {
        8
    } else if j == 5 {
        4
    } else if j == 6 {
        2
    } else {
        1
    }
}

/// Whether bit `j` (counted from the most significant end) of `byte` is set.
pub open spec fn msb_bit(byte: u8, j: int) -> bool {
    (byte as int / msb_weight(j)) % 2 == 1
}

/// The bits of a byte sequence, most significant bit of each byte first.
pub open spec fn msb_bits(bytes: Seq<u8>) -> Seq<bool> {
    Seq::new(8 * bytes.len(), |i: int| msb_bit(bytes[i / 8], i % 8))
}

/// `idx` lists, in increasing order, exactly the positions at which `s` holds `true`.
pub open spec fn lists_set_positions(s: Seq<bool>, idx: Seq<usize>) -> bool {
    &&& forall|k: int| 0 <= k < idx.len() ==> #[trigger] idx[k] < s.len() && s[idx[k] as int]
    &&& forall|k1: int, k2: int| 0 <= k1 < k2 < idx.len() ==> idx[k1] < idx[k2]
    &&& forall|i: int| 0 <= i < s.len() && #[trigger] s[i] ==> exists|k: int| 0 <= k < idx.len() && idx[k] == i
}

/// The number of positions at which `s` holds `true`.
pub open spec fn count_true(s: Seq<bool>) -> nat
    decreases s.len(),
{
    if s.len() == 0 {
        0
    } else {
        count_true(s.drop_last()) + if s.last() { 1nat } else { 0nat }
    }
}

impl BitField {
    /// Calls `BitVec::from_vec`: the bit-vector spanning every bit of `bytes`.
    /// `from_vec` panics when the vector is too long to be viewed as bits,
    /// which the bound in `requires` rules out.
    #[verifier::external_body]
    pub fn from_bytes(bytes: Vec<u8>) -> (b: BitField)
        requires
            bytes@.len() <= usize::MAX / 64,
        ensures
            bitfield_view(b) == msb_bits(bytes@),
    {
        BitField { bits: BitVec::from_vec(bytes) }
    }

    /// Calls `BitVec::repeat(false, n)`: `n` cleared bits.  `repeat` panics
    /// above `BitSlice::MAX_BITS` (`usize::MAX >> 3`), ruled out by `requires`.
    #[verifier::external_body]
    pub(crate) fn zeroed(n: usize) -> (b: BitField)
        requires
            n <= usize::MAX / 8,
        ensures
            bitfield_view(b) == Seq::new(n as nat, |i: int| false),
    {
        BitField { bits: BitVec::repeat(false, n) }
    }

    /// Calls `BitSlice::len`: the number of live bits.
    #[verifier::external_body]
    pub fn len(&self) -> (n: usize)
        ensures
            n == bitfield_view(*self).len(),
    {
        self.bits.len()
    }

    /// Calls `BitSlice::get`: the bit at `index`, or `None` past the end.
    #[verifier::external_body]
    pub fn get(&self, index: usize) -> (r: Option<bool>)
        ensures
            index < bitfield_view(*self).len() ==> r == Some(bitfield_view(*self)[index as int]),
            index >= bitfield_view(*self).len() ==> r is None,
    {
        self.bits.get(index).map(|bit| *bit)
    }

    /// Calls `BitSlice::set`, which panics out of bounds (ruled out by `requires`).
    #[verifier::external_body]
    pub(crate) fn set(&mut self, index: usize, value: bool)
        requires
            index < bitfield_view(*old(self)).len(),
        ensures
            bitfield_view(*final(self)) == bitfield_view(*old(self)).update(index as int, value),
    {
        self.bits.set(index, value)
    }

    /// Calls `BitSlice::fill`: every live bit becomes `value`.
    #[verifier::external_body]
    pub(crate) fn fill(&mut self, value: bool)
        ensures
            bitfield_view(*final(self)) == Seq::new(
                bitfield_view(*old(self)).len(),
                |i: int| value,
            ),
    {
        self.bits.fill(value)
    }

    /// Calls `BitSlice::all`: whether every bit is set (`true` when empty).
    #[verifier::external_body]
    pub(crate) fn all(&self) -> (r: bool)
        ensures
            r == (forall|i: int| 0 <= i < bitfield_view(*self).len() ==> bitfield_view(*self)[i]),
    {
        self.bits.all()
    }

    /// Calls `BitSlice::count_ones`: the number of set bits.
    #[verifier::external_body]
    pub(crate) fn count_ones(&self) -> (r: usize)
        ensures
            r == count_true(bitfield_view(*self)),
    {
        self.bits.count_ones()
    }

    /// Calls `BitSlice::iter_ones` and collects the indices of the set bits,
    /// which it yields in increasing order.
    #[verifier::external_body]
    pub fn ones(&self) -> (r: Vec<usize>)
        ensures
            lists_set_positions(bitfield_view(*self), r@),
    {
        self.bits.iter_ones().collect()
    }

    /// Calls `Clone::clone` of `BitVec`: the same bits.
    #[verifier::external_body]
    pub(crate) fn duplicate(&self) -> (r: BitField)
        ensures
            bitfield_view(r) == bitfield_view(*self),
    {
        BitField { bits: self.bits.clone() }
    }

    /// Calls `Not::not` of `BitVec`: every live bit inverted.
    #[verifier::external_body]
    pub(crate) fn inverted(self) -> (r: BitField)
        ensures
            bitfield_view(r) == Seq::new(
                bitfield_view(self).len(),
                |i: int| !bitfield_view(self)[i],
            ),
    {
        BitField { bits: !self.bits }
    }

    /// Calls `BitAnd::bitand` of `BitVec`: `self` keeps its length; each of its
    /// bits is and-ed with the bit of `other` at the same index, and bits past
    /// the end of `other` are cleared.
    #[verifier::external_body]
    pub(crate) fn and(self, other: BitField) -> (r: BitField)
        ensures
            bitfield_view(r) == Seq::new(
                bitfield_view(self).len(),
                |i: int|
                    bitfield_view(self)[i] && i < bitfield_view(other).len()
                        && bitfield_view(other)[i],
            ),
    {
        BitField { bits: self.bits & other.bits }
    }
}

} // verus!
