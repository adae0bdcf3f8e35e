use vstd::prelude::*;
use crate::hash256::Hash256;

verus! {

/// The genetic splice rule: the child takes parent 1's byte at each position,
/// except where the corresponding byte of the random draw is even, where it
/// takes parent 2's byte.
pub open spec fn splice(dna1: Seq<u8>, dna2: Seq<u8>, draw: Seq<u8>) -> Seq<u8> {
    Seq::new(dna1.len(), |i: int| if draw[i] % 2 == 0 { dna2[i] } else { dna1[i] })
}

/// Mixes two parents' genetic codes under a random draw, byte for byte.
pub fn splice_dna(dna1: &Hash256, dna2: &Hash256, draw: &Hash256) -> (r: Hash256)
    requires
        dna1.wf(),
        dna2.wf(),
        draw.wf(),
    ensures
        r@ == splice(dna1@, dna2@, draw@),
        r.wf(),
{
    let mut out: Vec<u8> = Vec::new();
    let mut i: usize = 0;
    while i < 32
        invariant
            dna1.wf(),
            dna2.wf(),
            draw.wf(),
            i <= 32,
            out@.len() == i,
            forall|j: int| 0 <= j < i ==> out@[j] == splice(dna1@, dna2@, draw@)[j],
        decreases 32 - i,
    {
        let b = if draw.bytes[i] % 2 == 0 {
            dna2.bytes[i]
        } else {
            dna1.bytes[i]
        };
        out.push(b);
        i += 1;
    }
    proof {
        assert(out@ =~= splice(dna1@, dna2@, draw@));
    }
    Hash256 { bytes: out }
}

/// Breeding determinism: for fixed parent DNA and a fixed random draw, the
/// child DNA is determined byte for byte by the even/odd splice rule: byte
/// `i` of the child is parent 2's byte where byte `i` of the draw is even,
/// and parent 1's byte where it is odd.
pub proof fn lemma_breeding_deterministic(dna1: Seq<u8>, dna2: Seq<u8>, draw: Seq<u8>)
    requires
        dna1.len() == 32,
        dna2.len() == 32,
        draw.len() == 32,
    ensures
        splice(dna1, dna2, draw).len() == 32,
        forall|i: int|
            0 <= i < 32 ==> splice(dna1, dna2, draw)[i] == (if draw[i] % 2 == 0 {
                dna2[i]
            } else {
                dna1[i]
            }),
{
}

} // verus!
