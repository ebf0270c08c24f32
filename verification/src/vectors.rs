//! Known answers, proved rather than run.
//!
//! The catalogue of CRC variants gives for each one the checksum of the nine
//! digits `123456789`. Here the two variants that ship are held to theirs.

use crate::algorithm::Algorithm32;
use crate::bits::{bit_at, lemma_equal_by_bits, lemma_reflect_bit, reflect_bits_spec};
use crate::crc32::ieee;
use crate::crc32c::castagnoli;
use crate::engine::checksum_spec;
use crate::serial::{lemma_absorb_is_serial, serial_absorb};
use crate::table::{shift_right_rounds, shift_right_step};
use vstd::prelude::*;

verus! {

/// The digits `1` to `9` as bytes.
pub open spec fn digits() -> Seq<u8> {
    seq![0x31u8, 0x32u8, 0x33u8, 0x34u8, 0x35u8, 0x36u8, 0x37u8, 0x38u8, 0x39u8]
}

/// Eight rounds of the right-shifting register, written out.
pub open spec fn eight_right_steps(register: u32, reflected_polynomial: u32) -> u32 {
    let one = shift_right_step(register, reflected_polynomial);
    let two = shift_right_step(one, reflected_polynomial);
    let three = shift_right_step(two, reflected_polynomial);
    let four = shift_right_step(three, reflected_polynomial);
    let five = shift_right_step(four, reflected_polynomial);
    let six = shift_right_step(five, reflected_polynomial);
    let seven = shift_right_step(six, reflected_polynomial);
    shift_right_step(seven, reflected_polynomial)
}

/// A word whose bits are those of `polynomial` in reverse order is its mirror image.
pub proof fn lemma_mirror_image(polynomial: u32, image: u32)
    requires
        forall|index: u32|
            index < 32 ==> bit_at(image, index) == bit_at(polynomial, (31 - index) as u32),
    ensures
        reflect_bits_spec(polynomial, 32) == image,
{
    let reflected = reflect_bits_spec(polynomial, 32);
    assert forall|index: u32| index < 32 implies bit_at(reflected, index) == bit_at(
        image,
        index,
    ) by {
        lemma_reflect_bit(polynomial, 32, index);
    }
    lemma_equal_by_bits(reflected, image);
}

/// One more byte of a reflected variant: if the first `done` bytes of `data`
/// leave `register`, the first `done + 1` leave eight rounds on `register`
/// with the next byte XORed in.
pub proof fn lemma_serial_next(
    params: Algorithm32,
    state: u32,
    data: Seq<u8>,
    done: int,
    register: u32,
)
    requires
        params.reflect_in,
        0 <= done < data.len(),
        serial_absorb(params, state, data.take(done)) == register,
    ensures
        serial_absorb(params, state, data.take(done + 1)) == eight_right_steps(
            register ^ (data[done] as u32),
            reflect_bits_spec(params.polynomial, 32),
        ),
{
    reveal_with_fuel(shift_right_rounds, 9);
    assert(data.take(done + 1).drop_last() =~= data.take(done));
}

/// The IEEE CRC32 of the nine digits `123456789` is `0xCBF43926`.
pub proof fn lemma_crc32_of_digits()
    ensures
        checksum_spec(ieee(), digits()) == 0xCBF4_3926,
{
    let params = ieee();
    let message = digits();
    assert forall|index: u32| index < 32 implies bit_at(0xEDB8_8320, index) == bit_at(
        0x04C1_1DB7,
        (31 - index) as u32,
    ) by {
        assert(bit_at(0xEDB8_8320u32, index) == bit_at(0x04C1_1DB7u32, (31 - index) as u32))
            by (bit_vector)
            requires
                index < 32,
        ;
    }
    lemma_mirror_image(0x04C1_1DB7, 0xEDB8_8320);
    assert({
        &&& eight_right_steps(0xFFFF_FFFFu32 ^ 0x31, 0xEDB8_8320) == 0x7C23_1048
        &&& eight_right_steps(0x7C23_1048u32 ^ 0x32, 0xEDB8_8320) == 0xB0AC_BB32
        &&& eight_right_steps(0xB0AC_BB32u32 ^ 0x33, 0xEDB8_8320) == 0x77B7_9C2D
        &&& eight_right_steps(0x77B7_9C2Du32 ^ 0x34, 0xEDB8_8320) == 0x641C_1F5C
        &&& eight_right_steps(0x641C_1F5Cu32 ^ 0x35, 0xEDB8_8320) == 0x340A_C5E3
        &&& eight_right_steps(0x340A_C5E3u32 ^ 0x36, 0xEDB8_8320) == 0xF68D_2C9E
        &&& eight_right_steps(0xF68D_2C9Eu32 ^ 0x37, 0xEDB8_8320) == 0xAFFC_9660
        &&& eight_right_steps(0xAFFC_9660u32 ^ 0x38, 0xEDB8_8320) == 0x651F_2550
        &&& eight_right_steps(0x651F_2550u32 ^ 0x39, 0xEDB8_8320) == 0x340B_C6D9
        &&& 0x340B_C6D9u32 ^ 0xFFFF_FFFF == 0xCBF4_3926
    }) by (bit_vector);
    lemma_serial_next(params, 0xFFFF_FFFF, message, 0, 0xFFFF_FFFF);
    lemma_serial_next(params, 0xFFFF_FFFF, message, 1, 0x7C23_1048);
    lemma_serial_next(params, 0xFFFF_FFFF, message, 2, 0xB0AC_BB32);
    lemma_serial_next(params, 0xFFFF_FFFF, message, 3, 0x77B7_9C2D);
    lemma_serial_next(params, 0xFFFF_FFFF, message, 4, 0x641C_1F5C);
    lemma_serial_next(params, 0xFFFF_FFFF, message, 5, 0x340A_C5E3);
    lemma_serial_next(params, 0xFFFF_FFFF, message, 6, 0xF68D_2C9E);
    lemma_serial_next(params, 0xFFFF_FFFF, message, 7, 0xAFFC_9660);
    lemma_serial_next(params, 0xFFFF_FFFF, message, 8, 0x651F_2550);
    assert(message.take(9) =~= message);
    lemma_absorb_is_serial(params, 0xFFFF_FFFF, message);
}

/// The Castagnoli CRC32 of the nine digits `123456789` is `0xE3069283`.
pub proof fn lemma_crc32c_of_digits()
    ensures
        checksum_spec(castagnoli(), digits()) == 0xE306_9283,
{
    let params = castagnoli();
    let message = digits();
    assert forall|index: u32| index < 32 implies bit_at(0x82F6_3B78, index) == bit_at(
        0x1EDC_6F41,
        (31 - index) as u32,
    ) by {
        assert(bit_at(0x82F6_3B78u32, index) == bit_at(0x1EDC_6F41u32, (31 - index) as u32))
            by (bit_vector)
            requires
                index < 32,
        ;
    }
    lemma_mirror_image(0x1EDC_6F41, 0x82F6_3B78);
    assert({
        &&& eight_right_steps(0xFFFF_FFFFu32 ^ 0x31, 0x82F6_3B78) == 0x6F0A_661C
        &&& eight_right_steps(0x6F0A_661Cu32 ^ 0x32, 0x82F6_3B78) == 0x8CAA_3B9F
        &&& eight_right_steps(0x8CAA_3B9Fu32 ^ 0x33, 0x82F6_3B78) == 0xEF84_D04D
        &&& eight_right_steps(0xEF84_D04Du32 ^ 0x34, 0x82F6_3B78) == 0x09C5_0B11
        &&& eight_right_steps(0x09C5_0B11u32 ^ 0x35, 0x82F6_3B78) == 0xE72E_DCCA
        &&& eight_right_steps(0xE72E_DCCAu32 ^ 0x36, 0x82F6_3B78) == 0xBECA_8E79
        &&& eight_right_steps(0xBECA_8E79u32 ^ 0x37, 0x82F6_3B78) == 0xEDBD_6815
        &&& eight_right_steps(0xEDBD_6815u32 ^ 0x38, 0x82F6_3B78) == 0x9F78_7F65
        &&& eight_right_steps(0x9F78_7F65u32 ^ 0x39, 0x82F6_3B78) == 0x1CF9_6D7C
        &&& 0x1CF9_6D7Cu32 ^ 0xFFFF_FFFF == 0xE306_9283
    }) by (bit_vector);
    lemma_serial_next(params, 0xFFFF_FFFF, message, 0, 0xFFFF_FFFF);
    lemma_serial_next(params, 0xFFFF_FFFF, message, 1, 0x6F0A_661C);
    lemma_serial_next(params, 0xFFFF_FFFF, message, 2, 0x8CAA_3B9F);
    lemma_serial_next(params, 0xFFFF_FFFF, message, 3, 0xEF84_D04D);
    lemma_serial_next(params, 0xFFFF_FFFF, message, 4, 0x09C5_0B11);
    lemma_serial_next(params, 0xFFFF_FFFF, message, 5, 0xE72E_DCCA);
    lemma_serial_next(params, 0xFFFF_FFFF, message, 6, 0xBECA_8E79);
    lemma_serial_next(params, 0xFFFF_FFFF, message, 7, 0xEDBD_6815);
    lemma_serial_next(params, 0xFFFF_FFFF, message, 8, 0x9F78_7F65);
    assert(message.take(9) =~= message);
    lemma_absorb_is_serial(params, 0xFFFF_FFFF, message);
}

/// The Castagnoli CRC32 of the empty message is zero, and so is the IEEE CRC32.
pub proof fn lemma_checksum_of_nothing()
    ensures
        checksum_spec(castagnoli(), Seq::empty()) == 0,
        checksum_spec(ieee(), Seq::empty()) == 0,
{
    assert(0xFFFF_FFFFu32 ^ 0xFFFF_FFFF == 0) by (bit_vector);
}

} // verus!
