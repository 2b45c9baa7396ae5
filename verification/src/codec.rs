//! Share encoding: the canonical fixed-width big-endian byte form of a field
//! element, and random generation of fresh plain-integer elements.

use vstd::prelude::*;
use crate::field::{FieldElement, fe_val};

verus! {

/// Byte `i` (big-endian, eight bytes) of a 64-bit value.
pub open spec fn be_byte(x: u64, i: int) -> u8
    recommends
        0 <= i < 8,
{
    ((x >> (((7 - i) * 8) as u64)) & 0xff) as u8
}

/// The eight big-endian bytes of a 64-bit value.
pub open spec fn u64_be_bytes(x: u64) -> Seq<u8> {
    Seq::new(8, |i: int| be_byte(x, i))
}

/// The big-endian encoding of the canonical value of an element, eight bytes.
pub fn fe_to_be_bytes(e: &FieldElement) -> (r: Vec<u8>)
    ensures
        r@ == u64_be_bytes((fe_val(*e) as u64)),
        r@.len() == 8,
{
    let x = e.retrieve();
    u64_to_be_bytes(x)
}

/// The big-endian encoding of a 64-bit value, eight bytes.
pub fn u64_to_be_bytes(x: u64) -> (r: Vec<u8>)
    ensures
        r@ == u64_be_bytes(x),
{
    let mut out: Vec<u8> = Vec::new();
    let mut i: usize = 0;
    while i < 8
        invariant
            i <= 8,
            out@.len() == i,
            forall|k: int| 0 <= k < i ==> out@[k] == be_byte(x, k),
        decreases 8 - i,
    {
        let shift: u64 = (7 - i as u64) * 8;
        let b: u8 = ((x >> shift) & 0xff) as u8;
        proof {
            assert(b == be_byte(x, i as int));
        }
        out.push(b);
        i = i + 1;
    }
    proof {
        assert(out@ =~= u64_be_bytes(x));
    }
    out
}

/// Relies on `rand::random::<u64>()`: a fresh value from the thread-local
/// cryptographically secure generator. Nothing can be promised of it.
#[verifier::external_body]
pub(crate) fn random_u64() -> u64 {
    rand::random::<u64>()
}

/// A freshly sampled plain-integer element, uniform over the full bit width.
/// The caller lifts it into a modulus before field use.
pub fn fe_random() -> (r: FieldElement)
    ensures
        r is Integer,
{
    FieldElement::Integer(random_u64())
}

} // verus!
