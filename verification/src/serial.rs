//! The register worked bit by bit, with no table.
//!
//! This is the shift register that the lookup table stands for: each input
//! byte is XORed into the end of the register that shifts out first, and the
//! register then runs eight rounds. The table-driven engine computes exactly
//! this.

use crate::algorithm::Algorithm32;
use crate::bits::reflect_bits_spec;
use crate::engine::absorb_spec;
use crate::table::{
    lemma_reflected_lookup, lemma_standard_lookup, shift_left_rounds, shift_right_rounds,
};
use vstd::prelude::*;

verus! {

/// The register after one byte, worked bit by bit with no table: the byte is
/// XORed into the end of the register that shifts out first, then the register
/// runs eight rounds.
pub open spec fn serial_byte_step(params: Algorithm32, state: u32, byte: u8) -> u32 {
    if params.reflect_in {
        shift_right_rounds(state ^ (byte as u32), reflect_bits_spec(params.polynomial, 32), 8)
    } else {
        shift_left_rounds(state ^ ((byte as u32) << 24), params.polynomial, 8)
    }
}

/// The register after the bytes of `data`, worked bit by bit with no table.
pub open spec fn serial_absorb(params: Algorithm32, state: u32, data: Seq<u8>) -> u32
    decreases data.len(),
{
    if data.len() == 0 {
        state
    } else {
        serial_byte_step(params, serial_absorb(params, state, data.drop_last()), data.last())
    }
}

/// The table-driven register is the bit-serial register: on every input the
/// lookups give what eight rounds per byte give.
pub proof fn lemma_absorb_is_serial(params: Algorithm32, state: u32, data: Seq<u8>)
    ensures
        absorb_spec(params, state, data) == serial_absorb(params, state, data),
    decreases data.len(),
{
    if data.len() > 0 {
        let before = data.drop_last();
        lemma_absorb_is_serial(params, state, before);
        let register = serial_absorb(params, state, before);
        if params.reflect_in {
            lemma_reflected_lookup(params.polynomial, register, data.last());
        } else {
            lemma_standard_lookup(params.polynomial, register, data.last());
        }
    }
}

} // verus!
