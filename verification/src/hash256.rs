use vstd::prelude::*;

verus! {

/// A 256-bit value: the identifier and genetic code of a kitty.
///
/// Held as 32 raw bytes; `wf` states the length invariant.
#[derive(Debug)]
pub struct Hash256 {
    pub bytes: Vec<u8>,
}

impl View for Hash256 {
    type V = Seq<u8>;

    open spec fn view(&self) -> Seq<u8> {
        self.bytes@
    }
}

impl Hash256 {
    pub open spec fn wf(&self) -> bool {
        self@.len() == 32
    }

    /// Wraps 32 bytes as a 256-bit value; rejects any other length.
    pub fn from_bytes(bytes: Vec<u8>) -> (r: Option<Hash256>)
        ensures
            match r {
                Some(h) => bytes@.len() == 32 && h@ == bytes@,
                None => bytes@.len() != 32,
            },
    {
        if bytes.len() == 32 {
            Some(Hash256 { bytes })
        } else {
            None
        }
    }
}

impl Clone for Hash256 {
    fn clone(&self) -> (r: Self)
        ensures
            r@ == self@,
    {
        Hash256 { bytes: self.bytes.clone() }
    }
}

impl PartialEq for Hash256 {
    fn eq(&self, other: &Hash256) -> (r: bool) {
        let r = self.bytes == other.bytes;
        proof {
            if r {
                assert(self.bytes@ =~= other.bytes@);
            }
        }
        r
    }
}

impl Eq for Hash256 {}

impl vstd::std_specs::cmp::PartialEqSpecImpl for Hash256 {
    open spec fn obeys_eq_spec() -> bool {
        true
    }

    open spec fn eq_spec(&self, other: &Hash256) -> bool {
        self@ == other@
    }
}

} // verus!
