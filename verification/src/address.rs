//! Account address validation over the address's bytes.

use vstd::prelude::*;

verus! {

/// A digit or an ASCII letter.
pub open spec fn address_char_ok(c: u8) -> bool {
    (0x30 <= c <= 0x39) || (0x41 <= c <= 0x5a) || (0x61 <= c <= 0x7a)
}

/// A public account address: 56 bytes, starting with `G`, alphanumeric
/// throughout.
pub open spec fn spec_valid_address(b: Seq<u8>) -> bool {
    &&& b.len() == 56
    &&& b[0] == 0x47
    &&& forall|i: int| 0 <= i < b.len() ==> address_char_ok(#[trigger] b[i])
}

/// Validates an account address given as bytes.
pub fn validate_address(address: &[u8]) -> (r: bool)
    ensures
        r <==> spec_valid_address(address@),
{
    if address.len() != 56 {
        return false;
    }
    if address[0] != 0x47 {
        return false;
    }
    let mut i: usize = 0;
    while i < 56
        invariant
            i <= 56,
            address@.len() == 56,
            forall|k: int| 0 <= k < i ==> address_char_ok(#[trigger] address@[k]),
        decreases 56 - i,
    {
        let c = address[i];
        let ok = (0x30 <= c && c <= 0x39) || (0x41 <= c && c <= 0x5a) || (0x61 <= c && c <= 0x7a);
        if !ok {
            return false;
        }
        i = i + 1;
    }
    true
}

} // verus!
