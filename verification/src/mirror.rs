//! The reflected engine is the standard engine seen in a mirror.
//!
//! A reflected variant shifts its register to the right and takes each byte
//! least significant bit first. Bit for bit, that is the left-shifting register
//! fed with every byte reversed: the two registers are mirror images of each
//! other at every step. This gives the checksum of every variant, whatever its
//! two flags, in terms of the one left-shifting register.

use crate::algorithm::Algorithm32;
use crate::bits::{
    bit_at, lemma_bit_ops, lemma_equal_by_bits, lemma_reflect_bit, lemma_reflect_low_byte,
    lemma_reflect_word_involution, lemma_reflect_word_xor, reflect_bits_spec, reflect_byte,
};
use crate::engine::{absorb_spec, checksum_spec};
use crate::serial::{lemma_absorb_is_serial, serial_absorb};
use crate::table::{shift_left_rounds, shift_left_step, shift_right_rounds, shift_right_step};
use vstd::prelude::*;

verus! {

/// The variant `params` with its input taken most significant bit first.
pub open spec fn msb_first(params: Algorithm32) -> Algorithm32 {
    Algorithm32 { reflect_in: false, ..params }
}

/// The bytes of `data`, each with its bits reversed.
pub open spec fn reflect_bytes(data: Seq<u8>) -> Seq<u8> {
    data.map_values(|byte: u8| reflect_byte(byte))
}

/// One round to the right with the reflected polynomial is, in the mirror, one
/// round to the left with the polynomial.
pub proof fn lemma_step_mirror(register: u32, polynomial: u32)
    ensures
        reflect_bits_spec(shift_right_step(register, reflect_bits_spec(polynomial, 32)), 32)
            == shift_left_step(reflect_bits_spec(register, 32), polynomial),
{
    let reflected = reflect_bits_spec(polynomial, 32);
    let image = reflect_bits_spec(register, 32);
    let left = reflect_bits_spec(shift_right_step(register, reflected), 32);
    let right = shift_left_step(image, polynomial);
    lemma_bit_ops(register, 0, 0);
    lemma_bit_ops(image, 0, 31);
    lemma_reflect_bit(register, 32, 31);
    assert forall|index: u32| index < 32 implies bit_at(left, index) == bit_at(right, index) by {
        let mirror = (31 - index) as u32;
        lemma_reflect_bit(shift_right_step(register, reflected), 32, index);
        lemma_reflect_bit(polynomial, 32, mirror);
        lemma_bit_ops(register >> 1, reflected, mirror);
        lemma_bit_ops(register, 0, mirror);
        lemma_bit_ops(image << 1, polynomial, index);
        lemma_bit_ops(image, 0, index);
        if index >= 1 {
            lemma_reflect_bit(register, 32, (index - 1) as u32);
        }
    }
    lemma_equal_by_bits(left, right);
}

/// Any number of rounds to the right with the reflected polynomial is, in the
/// mirror, as many rounds to the left with the polynomial.
pub proof fn lemma_rounds_mirror(register: u32, polynomial: u32, rounds: nat)
    ensures
        reflect_bits_spec(
            shift_right_rounds(register, reflect_bits_spec(polynomial, 32), rounds),
            32,
        ) == shift_left_rounds(reflect_bits_spec(register, 32), polynomial, rounds),
    decreases rounds,
{
    if rounds > 0 {
        let fewer = (rounds - 1) as nat;
        lemma_rounds_mirror(register, polynomial, fewer);
        lemma_step_mirror(
            shift_right_rounds(register, reflect_bits_spec(polynomial, 32), fewer),
            polynomial,
        );
    }
}

/// The register of a reflected variant is the mirror image of the register
/// that the same variant, with input taken most significant bit first, holds
/// after the same bytes with their bits reversed, started from the mirrored state.
pub proof fn lemma_absorb_mirror(params: Algorithm32, state: u32, data: Seq<u8>)
    requires
        params.reflect_in,
    ensures
        reflect_bits_spec(absorb_spec(params, state, data), 32) == absorb_spec(
            msb_first(params),
            reflect_bits_spec(state, 32),
            reflect_bytes(data),
        ),
    decreases data.len(),
{
    let plain = msb_first(params);
    let image = reflect_bits_spec(state, 32);
    lemma_absorb_is_serial(params, state, data);
    lemma_absorb_is_serial(plain, image, reflect_bytes(data));
    if data.len() > 0 {
        let before = data.drop_last();
        let byte = data.last();
        lemma_absorb_mirror(params, state, before);
        lemma_absorb_is_serial(params, state, before);
        lemma_absorb_is_serial(plain, image, reflect_bytes(before));
        assert(reflect_bytes(data).drop_last() =~= reflect_bytes(before));
        let register = serial_absorb(params, state, before);
        lemma_rounds_mirror(register ^ (byte as u32), params.polynomial, 8);
        lemma_reflect_word_xor(register, byte as u32);
        lemma_reflect_low_byte(byte);
    }
}

/// The checksum of every variant in terms of the left-shifting register alone.
///
/// With `reflect_in` the register starts from the mirror image of `init` and
/// takes each byte with its bits reversed; with `reflect_out` the final register
/// is mirrored; then `xor_out` is applied. So the two flags act independently,
/// also where they differ.
pub proof fn lemma_checksum_by_left_register(params: Algorithm32, data: Seq<u8>)
    ensures
        checksum_spec(params, data) == ({
            let start = if params.reflect_in {
                reflect_bits_spec(params.init, 32)
            } else {
                params.init
            };
            let input = if params.reflect_in {
                reflect_bytes(data)
            } else {
                data
            };
            let register = absorb_spec(msb_first(params), start, input);
            if params.reflect_out {
                reflect_bits_spec(register, 32) ^ params.xor_out
            } else {
                register ^ params.xor_out
            }
        }),
{
    if params.reflect_in {
        lemma_absorb_mirror(params, params.init, data);
        lemma_reflect_word_involution(absorb_spec(params, params.init, data));
    } else {
        assert(msb_first(params) == params);
    }
}

} // verus!
