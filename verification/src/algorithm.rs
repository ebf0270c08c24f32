//! The description of a CRC32 variant.

use vstd::prelude::*;

verus! {

/// Describes a CRC32 variant. Plain data: nothing is checked, and the caller
/// is trusted to name a polynomial that generates the code they want.
#[derive(Clone, Copy, Debug, PartialEq, Eq)]
pub struct Algorithm32 {
    /// Label of the variant, for diagnostics only.
    pub name: &'static str,
    /// Generator polynomial without its top bit, most significant bit first,
    /// whatever `reflect_in` says.
    pub polynomial: u32,
    /// Value of the register before any input.
    pub init: u32,
    /// Mask XORed into the register, after the optional reflection, to give the checksum.
    pub xor_out: u32,
    /// Whether input bytes are taken least significant bit first.
    pub reflect_in: bool,
    /// Whether the checksum is read in reflected bit order. With `reflect_in` the register
    /// already holds that order, so it is reversed at the end only where the two flags differ.
    pub reflect_out: bool,
}

impl Algorithm32 {
    /// A description with exactly the given fields.
    pub fn new(
        name: &'static str,
        polynomial: u32,
        init: u32,
        xor_out: u32,
        reflect_in: bool,
        reflect_out: bool,
    ) -> (params: Self)
        ensures
            params == (Algorithm32 { name, polynomial, init, xor_out, reflect_in, reflect_out }),
    {
        Algorithm32 { name, polynomial, init, xor_out, reflect_in, reflect_out }
    }
}

} // verus!
