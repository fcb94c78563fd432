//! A stack of booleans, packed one per bit.

use bitvec::vec::BitVec;
use vstd::prelude::*;

verus! {

/// A `bitvec::vec::BitVec` used as a stack. Its bits are reached through the functions
/// below only.
#[verifier::external_body]
pub struct BitStack {
    bits: BitVec,
}

/// The bits that a bit vector holds, oldest first.
pub uninterp spec fn bits_of(v: BitStack) -> Seq<bool>;

/// The length up to which a bit vector takes another bit on every machine.
pub const MAX_BITS: usize = 0x1fff_ffff;

/// A bit vector without bits.
///
/// Wraps `BitVec::new`.
#[verifier::external_body]
pub(crate) fn bits_new() -> (v: BitStack)
    ensures
        bits_of(v) == Seq::<bool>::empty(),
{
    BitStack { bits: BitVec::new() }
}

/// Puts `bit` on top.
///
/// Wraps `BitVec::push`, which appends one bit and panics only when the vector already
/// holds as many bits as its length can encode.
#[verifier::external_body]
pub(crate) fn bits_push(v: &mut BitStack, bit: bool)
    requires
        bits_of(*old(v)).len() < MAX_BITS,
    ensures
        bits_of(*final(v)) == bits_of(*old(v)).push(bit),
{
    v.bits.push(bit)
}

/// Takes the top bit off, if there is one.
///
/// Wraps `BitVec::pop`, which removes and returns the last bit and returns `None` on an
/// empty vector, leaving it empty.
#[verifier::external_body]
pub(crate) fn bits_pop(v: &mut BitStack) -> (r: Option<bool>)
    ensures
        bits_of(*old(v)).len() == 0 ==> r is None && bits_of(*final(v)) == bits_of(*old(v)),
        bits_of(*old(v)).len() > 0 ==> r == Some(bits_of(*old(v)).last()) && bits_of(*final(v))
            == bits_of(*old(v)).drop_last(),
{
    v.bits.pop()
}

/// The top bit, if there is one.
///
/// Wraps `BitSlice::last`, which refers to the last bit or gives `None` on an empty
/// vector; the wrapper copies the bit out.
#[verifier::external_body]
pub(crate) fn bits_last(v: &BitStack) -> (r: Option<bool>)
    ensures
        bits_of(*v).len() == 0 ==> r is None,
        bits_of(*v).len() > 0 ==> r == Some(bits_of(*v).last()),
{
    v.bits.last().map(|bit| *bit)
}

} // verus!
