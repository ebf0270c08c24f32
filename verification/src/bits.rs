//! Bit reversal of the low bits of a 32-bit word, and what it does to single bits.

use vstd::prelude::*;

verus! {

/// Bit `index` of `value`, counted from the least significant bit.
/// Indices of 32 and above name bits that a `u32` does not have: they read as unset.
pub open spec fn bit_at(value: u32, index: u32) -> bool {
    (value >> index) & 1 == 1
}

/// The word made of the lowest `width` bits of `value` in reverse order:
/// bit 0 of `value` lands on bit `width - 1`, bit `width - 1` on bit 0.
/// Built one bit at a time: the first `width - 1` bits move up by one place
/// and bit `width - 1` of `value` enters at the bottom. With a width above 32
/// the bits that would land above bit 31 are lost.
pub open spec fn reflect_bits_spec(value: u32, width: u8) -> u32
    decreases width,
{
    if width == 0 {
        0
    } else {
        let lower = (width - 1) as u8;
        (reflect_bits_spec(value, lower) << 1) | ((value >> lower) & 1)
    }
}

/// The word whose lowest `width` bits are set and whose other bits are clear.
pub open spec fn low_mask(width: u32) -> u32 {
    !(0xffff_ffffu32 << width)
}

/// The byte with the bits of `byte` in reverse order.
pub open spec fn reflect_byte(byte: u8) -> u8 {
    reflect_bits_spec(byte as u32, 8) as u8
}

/// Reverses the lowest `width` bits of `value`.
pub fn reflect_bits(value: u32, width: u8) -> (reversed: u32)
    ensures
        reversed == reflect_bits_spec(value, width),
        forall|index: u32|
            index < 32 ==> #[trigger] bit_at(reversed, index) == (index < width && bit_at(
                value,
                (width - 1 - index) as u32,
            )),
{
    let mut rest = value;
    let mut reversed = 0u32;
    let mut i: u8 = 0;
    assert(value >> 0u8 == value) by (bit_vector);
    while i < width
        invariant
            i <= width,
            reversed == reflect_bits_spec(value, i),
            rest == value >> i,
        decreases width - i,
    {
        let ghost before = reversed;
        reversed <<= 1;
        if (rest & 1) != 0 {
            reversed |= 1;
        }
        assert(reversed == (before << 1) | (rest & 1)) by (bit_vector)
            requires
                reversed == (if (rest & 1) != 0 { (before << 1) | 1 } else { before << 1 }),
        ;
        assert((value >> i) >> 1 == value >> ((i + 1) as u8)) by (bit_vector)
            requires
                i < 255,
        ;
        rest >>= 1;
        i += 1;
    }
    proof {
        assert forall|index: u32| index < 32 implies #[trigger] bit_at(reversed, index) == (index
            < width && bit_at(value, (width - 1 - index) as u32)) by {
            lemma_reflect_bit(value, width, index);
        }
    }
    reversed
}

/// How single bits pass through one step of the construction of a reflected word.
proof fn lemma_bit_facts(upper: u32, value: u32, shift: u8, index: u32)
    by (bit_vector)
    requires
        index < 32,
    ensures
        !bit_at(0, index),
        bit_at((upper << 1) | ((value >> shift) & 1), 0) == bit_at(value, shift as u32),
        index >= 1 ==> bit_at((upper << 1) | ((value >> shift) & 1), index) == bit_at(
            upper,
            (index - 1) as u32,
        ),
{
}

/// Bit `index` of a reflected word is bit `width - 1 - index` of the word it was made from,
/// and every bit from `width` upwards is clear.
pub proof fn lemma_reflect_bit(value: u32, width: u8, index: u32)
    requires
        index < 32,
    ensures
        bit_at(reflect_bits_spec(value, width), index) == (index < width && bit_at(
            value,
            (width - 1 - index) as u32,
        )),
    decreases width,
{
    if width == 0 {
        lemma_bit_facts(0, value, 0, index);
    } else {
        let lower = (width - 1) as u8;
        lemma_bit_facts(reflect_bits_spec(value, lower), value, lower, index);
        if index >= 1 {
            lemma_reflect_bit(value, lower, (index - 1) as u32);
        }
    }
}

/// Masking keeps the bits below `width`; two words that agree below `index`
/// and at `index` agree below `index + 1`.
proof fn lemma_mask_facts(a: u32, b: u32, width: u32, index: u32)
    by (bit_vector)
    requires
        index < 32,
        width <= 32,
    ensures
        bit_at(a & low_mask(width), index) == (index < width && bit_at(a, index)),
        a & low_mask(0) == b & low_mask(0),
        a & low_mask(32) == a,
        a & low_mask(index) == b & low_mask(index) && bit_at(a, index) == bit_at(b, index) ==> a
            & low_mask((index + 1) as u32) == b & low_mask((index + 1) as u32),
{
}

/// Two words with the same bits in the lowest `width` places agree under the mask
/// of that width.
proof fn lemma_agree_below(a: u32, b: u32, width: u32)
    requires
        width <= 32,
        forall|index: u32| index < width ==> bit_at(a, index) == bit_at(b, index),
    ensures
        a & low_mask(width) == b & low_mask(width),
    decreases width,
{
    if width == 0 {
        lemma_mask_facts(a, b, 0, 0);
    } else {
        let index = (width - 1) as u32;
        lemma_agree_below(a, b, index);
        lemma_mask_facts(a, b, width, index);
    }
}

/// A 32-bit word is determined by its 32 bits.
pub proof fn lemma_equal_by_bits(a: u32, b: u32)
    requires
        forall|index: u32| index < 32 ==> bit_at(a, index) == bit_at(b, index),
    ensures
        a == b,
{
    lemma_agree_below(a, b, 32);
    lemma_mask_facts(a, b, 32, 0);
    lemma_mask_facts(b, a, 32, 0);
}

/// Reflecting twice over the same width gives back the bits below that width:
/// a value that fits in `width` bits comes back unchanged.
pub proof fn lemma_reflect_involution(value: u32, width: u8)
    requires
        width <= 32,
    ensures
        reflect_bits_spec(reflect_bits_spec(value, width), width) == value & low_mask(width as u32),
        value & low_mask(width as u32) == value ==> reflect_bits_spec(
            reflect_bits_spec(value, width),
            width,
        ) == value,
{
    let once = reflect_bits_spec(value, width);
    let twice = reflect_bits_spec(once, width);
    let kept = value & low_mask(width as u32);
    assert forall|index: u32| index < 32 implies bit_at(twice, index) == bit_at(kept, index) by {
        lemma_reflect_bit(once, width, index);
        lemma_mask_facts(value, value, width as u32, index);
        if index < width {
            let mirror = (width - 1 - index) as u32;
            lemma_reflect_bit(value, width, mirror);
        }
    }
    lemma_equal_by_bits(twice, kept);
}

/// A value below `2^width` comes back unchanged from two reflections over
/// `width` bits: every 4-bit value from two reflections over 4 bits, every
/// byte from two over 8.
pub proof fn lemma_reflect_twice(value: u32, width: u8)
    requires
        width <= 32,
        (value as u64) < (1u64 << width),
    ensures
        reflect_bits_spec(reflect_bits_spec(value, width), width) == value,
{
    lemma_reflect_involution(value, width);
    assert(value & low_mask(width as u32) == value) by (bit_vector)
        requires
            width <= 32,
            (value as u64) < (1u64 << width),
    ;
}

/// Reflecting over all 32 bits twice gives back the word.
pub proof fn lemma_reflect_word_involution(value: u32)
    ensures
        reflect_bits_spec(reflect_bits_spec(value, 32), 32) == value,
{
    lemma_reflect_involution(value, 32);
    lemma_mask_facts(value, value, 32, 0);
}

/// A word reflected over `width` bits fits in `width` bits.
pub proof fn lemma_reflect_fits(value: u32, width: u8)
    requires
        width <= 32,
    ensures
        reflect_bits_spec(value, width) & low_mask(width as u32) == reflect_bits_spec(value, width),
{
    let reflected = reflect_bits_spec(value, width);
    let kept = reflected & low_mask(width as u32);
    assert forall|index: u32| index < 32 implies bit_at(kept, index) == bit_at(reflected, index) by {
        lemma_reflect_bit(value, width, index);
        lemma_mask_facts(reflected, reflected, width as u32, index);
    }
    lemma_equal_by_bits(kept, reflected);
}

/// How single bits pass through XOR and through a shift by one place, and
/// which bits the two ends of a word are.
pub proof fn lemma_bit_ops(a: u32, b: u32, index: u32)
    by (bit_vector)
    requires
        index < 32,
    ensures
        bit_at(a ^ b, index) == (bit_at(a, index) != bit_at(b, index)),
        bit_at(a >> 1, index) == (index < 31 && bit_at(a, (index + 1) as u32)),
        bit_at(a << 1, index) == (index >= 1 && bit_at(a, (index - 1) as u32)),
        (a & 1 != 0) == bit_at(a, 0),
        (a & 0x8000_0000 != 0) == bit_at(a, 31),
{
}

/// The word of 32 set bits is its own mirror image.
pub proof fn lemma_reflect_all_ones()
    ensures
        reflect_bits_spec(0xffff_ffff, 32) == 0xffff_ffff,
{
    let ones = 0xffff_ffffu32;
    let image = reflect_bits_spec(ones, 32);
    assert forall|index: u32| index < 32 implies bit_at(image, index) == bit_at(ones, index) by {
        let mirror = (31 - index) as u32;
        lemma_reflect_bit(ones, 32, index);
        assert(bit_at(0xffff_ffffu32, index) && bit_at(0xffff_ffffu32, mirror)) by (bit_vector)
            requires
                index < 32,
                mirror < 32,
        ;
    }
    lemma_equal_by_bits(image, ones);
}

/// Reflection over all 32 bits is linear over XOR.
pub proof fn lemma_reflect_word_xor(a: u32, b: u32)
    ensures
        reflect_bits_spec(a ^ b, 32) == reflect_bits_spec(a, 32) ^ reflect_bits_spec(b, 32),
{
    let left = reflect_bits_spec(a ^ b, 32);
    let right = reflect_bits_spec(a, 32) ^ reflect_bits_spec(b, 32);
    assert forall|index: u32| index < 32 implies bit_at(left, index) == bit_at(right, index) by {
        let mirror = (31 - index) as u32;
        lemma_reflect_bit(a ^ b, 32, index);
        lemma_reflect_bit(a, 32, index);
        lemma_reflect_bit(b, 32, index);
        lemma_bit_ops(a, b, mirror);
        lemma_bit_ops(reflect_bits_spec(a, 32), reflect_bits_spec(b, 32), index);
    }
    lemma_equal_by_bits(left, right);
}

/// What a byte placed in the top or the bottom of a word looks like bit by bit.
pub proof fn lemma_byte_facts(byte: u8, word: u32, index: u32)
    by (bit_vector)
    requires
        index < 32,
    ensures
        bit_at((byte as u32) << 24, index) == (index >= 24 && bit_at(
            byte as u32,
            (index - 24) as u32,
        )),
        index >= 8 ==> !bit_at(byte as u32, index),
        word & low_mask(8) == word ==> (word as u8) as u32 == word,
        (byte as u32) & low_mask(8) == byte as u32,
{
}

/// Different bytes have different mirror images.
pub proof fn lemma_reflect_byte_injective(first: u8, second: u8)
    requires
        reflect_byte(first) == reflect_byte(second),
    ensures
        first == second,
{
    lemma_reflect_fits(first as u32, 8);
    lemma_reflect_fits(second as u32, 8);
    lemma_byte_facts(first, reflect_bits_spec(first as u32, 8), 0);
    lemma_byte_facts(second, reflect_bits_spec(second as u32, 8), 0);
    lemma_reflect_involution(first as u32, 8);
    lemma_reflect_involution(second as u32, 8);
}

/// A byte at the bottom of a word, reflected over all 32 bits, is the reflected
/// byte at the top of the word.
pub proof fn lemma_reflect_low_byte(byte: u8)
    ensures
        reflect_bits_spec(byte as u32, 32) == (reflect_byte(byte) as u32) << 24,
{
    let narrow = reflect_bits_spec(byte as u32, 8);
    let left = reflect_bits_spec(byte as u32, 32);
    let right = (reflect_byte(byte) as u32) << 24;
    lemma_reflect_fits(byte as u32, 8);
    lemma_byte_facts(byte, narrow, 0);
    assert forall|index: u32| index < 32 implies bit_at(left, index) == bit_at(right, index) by {
        let mirror = (31 - index) as u32;
        lemma_reflect_bit(byte as u32, 32, index);
        lemma_byte_facts(byte, narrow, mirror);
        lemma_byte_facts(reflect_byte(byte), narrow, index);
        if index >= 24 {
            lemma_reflect_bit(byte as u32, 8, (index - 24) as u32);
        }
    }
    lemma_equal_by_bits(left, right);
}

} // verus!
