use vstd::prelude::*;

verus! {

/// Opaque 32-byte identifier of a token or a pool (an on-chain address).
#[derive(Debug, Clone, Copy)]
pub struct Token {
    pub bytes: [u8; 32],
}

impl View for Token {
    type V = Seq<u8>;

    open spec fn view(&self) -> Seq<u8> {
        self.bytes@
    }
}

impl Token {
    pub fn new(bytes: [u8; 32]) -> (r: Token)
        ensures
            r@ == bytes@,
    {
        Token { bytes }
    }

    /// Byte-wise equality of two identifiers.
    pub fn same(&self, other: &Token) -> (r: bool)
        ensures
            r == (self@ == other@),
    {
        let mut i: usize = 0;
        while i < 32
            invariant
                0 <= i <= 32,
                self@.len() == 32,
                other@.len() == 32,
                forall|j: int| 0 <= j < i ==> self@[j] == other@[j],
            decreases 32 - i,
        {
            if self.bytes[i] != other.bytes[i] {
                return false;
            }
            i = i + 1;
        }
        proof {
            assert(self@ =~= other@);
        }
        true
    }
}

} // verus!
