//! The first form of the tracker request, which wrote the info hash as
//! text: each byte as `\x` followed by its decimal value.
pub use crate::protocols::tracker::TrackerRequestErr;
use crate::text::{decimal, push_decimal};
use vstd::prelude::*;

verus! {

/// Each byte of `hash` as `\x` and its decimal value.
pub open spec fn escaped_spec(hash: Seq<u8>) -> Seq<char>
    decreases hash.len(),
{
    if hash.len() == 0 {
        Seq::empty()
    } else {
        escaped_spec(hash.drop_last()) + seq!['\\', 'x'] + decimal(hash.last() as nat)
    }
}

/// The info hash as this request form wrote it: each byte as `\x` and its
/// decimal value.
pub fn escaped_info_hash(hash: &[u8]) -> (r: String)
    ensures
        r@ == escaped_spec(hash@),
{
    let mut out = String::new();
    let mut i: usize = 0;
    while i < hash.len()
        invariant
            i <= hash@.len(),
            out@ == escaped_spec(hash@.subrange(0, i as int)),
        decreases hash@.len() - i,
    {
        out.append("\\x");
        push_decimal(&mut out, hash[i] as u64);
        proof {
            reveal_strlit("\\x");
            assert(hash@.subrange(0, i + 1).drop_last() =~= hash@.subrange(0, i as int));
            assert(out@ =~= escaped_spec(hash@.subrange(0, i + 1)));
        }
        i = i + 1;
    }
    proof {
        assert(hash@.subrange(0, i as int) =~= hash@);
    }
    out
}

} // verus!
