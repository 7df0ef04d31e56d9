//! Account addresses and their hexadecimal rendering.

use vstd::prelude::*;
use crate::encoding::hex_ascii;

verus! {

/// A 20-byte account address.
#[derive(Clone, Copy, Debug)]
pub struct Address {
    pub bytes: [u8; 20],
}

impl View for Address {
    type V = Seq<u8>;

    open spec fn view(&self) -> Seq<u8> {
        self.bytes@
    }
}

impl Address {
    /// Whether two addresses hold the same bytes.
    pub fn same_as(&self, other: &Address) -> (r: bool)
        ensures
            r == (self@ == other@),
    {
        let mut i: usize = 0;
        while i < 20
            invariant
                i <= 20,
                self@.len() == 20,
                other@.len() == 20,
                forall|j: int| 0 <= j < i ==> self@[j] == other@[j],
            decreases 20 - i,
        {
            if self.bytes[i] != other.bytes[i] {
                return false;
            }
            i = i + 1;
        }
        assert(self@ =~= other@);
        true
    }
}

/// Relies on hex::encode: two lowercase hexadecimal digits per byte, high
/// nibble first, with no prefix.
#[verifier::external_body]
pub(crate) fn hex_encode(a: &Address) -> (r: Vec<u8>)
    ensures
        r@ == hex_ascii(a@),
{
    hex::encode(a.bytes).into_bytes()
}

} // verus!
