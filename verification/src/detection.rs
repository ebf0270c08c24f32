//! What the checksum is sure to catch.
//!
//! With a polynomial whose constant term is set, the register never loses a
//! difference once it holds one, and a difference that fits in four
//! consecutive bytes always reaches it. So two messages of one length that
//! differ only within four consecutive bytes never share a checksum: every
//! flipped bit and every damaged byte shows.

use crate::algorithm::Algorithm32;
use crate::bits::{
    bit_at, lemma_reflect_byte_injective, lemma_reflect_word_involution, low_mask,
    reflect_bits_spec,
};
use crate::engine::{absorb_spec, checksum_spec};
use crate::mirror::{lemma_checksum_by_left_register, msb_first, reflect_bytes};
use crate::serial::lemma_absorb_is_serial;
use crate::streaming::lemma_absorb_concat;
use crate::table::{
    lemma_shift_left_clear, lemma_shift_left_linear, lemma_shift_right_linear, shift_left_rounds,
    shift_left_step,
};
use vstd::prelude::*;

verus! {

/// The bytes of `first` and `second` XORed place by place.
pub open spec fn xor_bytes(first: Seq<u8>, second: Seq<u8>) -> Seq<u8> {
    Seq::new(first.len(), |place: int| first[place] ^ second[place])
}

/// Whether every byte of `data` is zero.
pub open spec fn all_zero(data: Seq<u8>) -> bool {
    forall|place: int| 0 <= place < data.len() ==> data[place] == 0
}

/// Up to four bytes as one word, the first byte at the top.
pub open spec fn pack(window: Seq<u8>) -> u32
    decreases window.len(),
{
    if window.len() == 0 {
        0
    } else {
        pack(window.drop_last()) ^ ((window.last() as u32) << ((32 - 8 * window.len()) as u32))
    }
}

/// XOR cancels itself, and one round of the left-shifting register with a
/// polynomial whose constant term is set sends only zero to zero.
proof fn lemma_kernel_facts(a: u32, b: u32, c: u32, d: u32, polynomial: u32, x: u8, y: u8)
    by (bit_vector)
    ensures
        shift_left_step(0, polynomial) == 0,
        bit_at(polynomial, 0) && shift_left_step(a, polynomial) == 0 ==> a == 0,
        a ^ a == 0,
        a ^ 0 == a,
        a ^ b == 0 ==> a == b,
        x ^ y == 0 ==> x == y,
        x ^ x == 0,
        a ^ c == b ^ c ==> a == b,
        (a ^ b) ^ (c ^ d) == (a ^ c) ^ (b ^ d),
        (x ^ y) as u32 == (x as u32) ^ (y as u32),
        ((x ^ y) as u32) << 24 == ((x as u32) << 24) ^ ((y as u32) << 24),
        (0u8 as u32) << 24 == 0,
{
}

/// Where a byte of a packed window sits, and what it takes for the word to be zero.
proof fn lemma_pack_facts(word: u32, byte: u8, shift: u32)
    by (bit_vector)
    requires
        shift == 0 || shift == 8 || shift == 16 || shift == 24,
    ensures
        ((byte as u32) << shift) & !low_mask((8 + shift) as u32) == 0,
        ((byte as u32) << shift) << ((24 - shift) as u32) == (byte as u32) << 24,
        word & low_mask((shift + 8) as u32) == 0 ==> (word ^ ((byte as u32) << shift)) & low_mask(
            shift,
        ) == 0,
        word & low_mask((shift + 8) as u32) == 0 && word ^ ((byte as u32) << shift) == 0 ==> word
            == 0 && byte == 0,
        0u32 & low_mask(32) == 0,
{
}

/// Rounds of the left-shifting register add up.
pub proof fn lemma_rounds_add(register: u32, polynomial: u32, first: nat, second: nat)
    ensures
        shift_left_rounds(shift_left_rounds(register, polynomial, first), polynomial, second)
            == shift_left_rounds(register, polynomial, first + second),
    decreases second,
{
    if second > 0 {
        lemma_rounds_add(register, polynomial, first, (second - 1) as nat);
    }
}

/// With a polynomial whose constant term is set, only the zero register
/// reaches zero, after any number of rounds; and zero stays zero.
pub proof fn lemma_rounds_kernel(register: u32, polynomial: u32, rounds: nat)
    ensures
        shift_left_rounds(0, polynomial, rounds) == 0,
        bit_at(polynomial, 0) && shift_left_rounds(register, polynomial, rounds) == 0 ==> register
            == 0,
    decreases rounds,
{
    if rounds > 0 {
        let fewer = (rounds - 1) as nat;
        lemma_rounds_kernel(register, polynomial, fewer);
        lemma_kernel_facts(shift_left_rounds(register, polynomial, fewer), 0, 0, 0, polynomial, 0, 0);
    }
}

/// The register of every variant is linear in its start and its input
/// together: the XOR of two runs over inputs of one length is the run from the
/// XOR of the starts over the XOR of the inputs.
pub proof fn lemma_absorb_xor(
    params: Algorithm32,
    first_state: u32,
    second_state: u32,
    first: Seq<u8>,
    second: Seq<u8>,
)
    requires
        first.len() == second.len(),
    ensures
        absorb_spec(params, first_state ^ second_state, xor_bytes(first, second)) == absorb_spec(
            params,
            first_state,
            first,
        ) ^ absorb_spec(params, second_state, second),
    decreases first.len(),
{
    let both = xor_bytes(first, second);
    lemma_absorb_is_serial(params, first_state ^ second_state, both);
    lemma_absorb_is_serial(params, first_state, first);
    lemma_absorb_is_serial(params, second_state, second);
    if first.len() > 0 {
        let a = first.drop_last();
        let b = second.drop_last();
        lemma_absorb_xor(params, first_state, second_state, a, b);
        lemma_absorb_is_serial(params, first_state ^ second_state, xor_bytes(a, b));
        lemma_absorb_is_serial(params, first_state, a);
        lemma_absorb_is_serial(params, second_state, b);
        assert(both.drop_last() =~= xor_bytes(a, b));
        let ra = absorb_spec(params, first_state, a);
        let rb = absorb_spec(params, second_state, b);
        let x = first.last();
        let y = second.last();
        if params.reflect_in {
            lemma_kernel_facts(ra, rb, x as u32, y as u32, params.polynomial, x, y);
            lemma_shift_right_linear(
                ra ^ (x as u32),
                rb ^ (y as u32),
                reflect_bits_spec(params.polynomial, 32),
                8,
            );
        } else {
            lemma_kernel_facts(ra, rb, (x as u32) << 24, (y as u32) << 24, params.polynomial, x, y);
            lemma_shift_left_linear(
                ra ^ ((x as u32) << 24),
                rb ^ ((y as u32) << 24),
                params.polynomial,
                8,
            );
        }
    } else {
        lemma_kernel_facts(first_state, second_state, 0, 0, params.polynomial, 0, 0);
    }
}

/// Over zero bytes a zero register stays zero, and with a polynomial whose
/// constant term is set a register that is not zero never becomes zero.
pub proof fn lemma_absorb_zeros(params: Algorithm32, state: u32, data: Seq<u8>)
    requires
        !params.reflect_in,
        all_zero(data),
    ensures
        state == 0 ==> absorb_spec(params, state, data) == 0,
        bit_at(params.polynomial, 0) && state != 0 ==> absorb_spec(params, state, data) != 0,
    decreases data.len(),
{
    lemma_absorb_is_serial(params, state, data);
    if data.len() > 0 {
        let before = data.drop_last();
        lemma_absorb_zeros(params, state, before);
        lemma_absorb_is_serial(params, state, before);
        let register = absorb_spec(params, state, before);
        assert(data.last() == 0);
        lemma_kernel_facts(register, 0, 0, 0, params.polynomial, 0, 0);
        lemma_rounds_kernel(register, params.polynomial, 8);
    }
}

/// A window of up to four bytes that is not all zero packs into a word that is
/// not zero, and the packed word is clear below its last byte.
pub proof fn lemma_pack_nonzero(window: Seq<u8>)
    requires
        window.len() <= 4,
    ensures
        pack(window) & low_mask((32 - 8 * window.len()) as u32) == 0,
        pack(window) == 0 ==> all_zero(window),
    decreases window.len(),
{
    if window.len() == 0 {
        lemma_pack_facts(0, 0, 0);
    } else {
        let before = window.drop_last();
        lemma_pack_nonzero(before);
        let shift = (32 - 8 * window.len()) as u32;
        lemma_pack_facts(pack(before), window.last(), shift);
        if pack(window) == 0 {
            assert forall|place: int| 0 <= place < window.len() implies window[place] == 0 by {
                if place < before.len() {
                    assert(before[place] == window[place]);
                }
            }
        }
    }
}

/// From a zero register, a window of up to four bytes leaves the packed
/// window after eight rounds per byte.
pub proof fn lemma_window_register(params: Algorithm32, window: Seq<u8>)
    requires
        !params.reflect_in,
        window.len() <= 4,
    ensures
        absorb_spec(params, 0, window) == shift_left_rounds(
            pack(window),
            params.polynomial,
            8 * window.len(),
        ),
    decreases window.len(),
{
    lemma_absorb_is_serial(params, 0, window);
    if window.len() > 0 {
        let before = window.drop_last();
        let byte = window.last();
        let done = 8 * before.len();
        let shift = (32 - 8 * window.len()) as u32;
        let placed = (byte as u32) << shift;
        lemma_window_register(params, before);
        lemma_absorb_is_serial(params, 0, before);
        lemma_pack_facts(0, byte, shift);
        lemma_shift_left_clear(placed, params.polynomial, (24 - shift) as u32);
        lemma_shift_left_linear(pack(before), placed, params.polynomial, done);
        lemma_rounds_add(pack(before) ^ placed, params.polynomial, done, 8);
    }
}

/// Whether `first` and `second` have one length and agree at every place outside
/// the four places that begin at `start`.
pub open spec fn differ_within_window(first: Seq<u8>, second: Seq<u8>, start: int) -> bool {
    &&& first.len() == second.len()
    &&& forall|place: int|
        0 <= place < first.len() && !(start <= place < start + 4) ==> first[place]
            == second[place]
}

/// With a polynomial whose constant term is set, two different inputs of one
/// length that differ only within four consecutive bytes leave different
/// registers, whatever the register was before.
pub proof fn lemma_register_differs(
    params: Algorithm32,
    state: u32,
    first: Seq<u8>,
    second: Seq<u8>,
    start: int,
)
    requires
        !params.reflect_in,
        bit_at(params.polynomial, 0),
        differ_within_window(first, second, start),
        first != second,
    ensures
        absorb_spec(params, state, first) != absorb_spec(params, state, second),
{
    let length = first.len() as int;
    let error = xor_bytes(first, second);
    let low = if start < 0 {
        0
    } else if start > length {
        length
    } else {
        start
    };
    let high = if start + 4 < low {
        low
    } else if start + 4 > length {
        length
    } else {
        start + 4
    };
    let before = error.subrange(0, low);
    let window = error.subrange(low, high);
    let after = error.subrange(high, length);
    if forall|place: int| 0 <= place < length ==> first[place] == second[place] {
        assert(first =~= second);
    }
    let damaged = choose|place: int| 0 <= place < length && first[place] != second[place];
    assert(low <= damaged < high);
    assert(window[damaged - low] == error[damaged]);
    lemma_kernel_facts(0, 0, 0, 0, 0, first[damaged], second[damaged]);
    assert(!all_zero(window));
    assert forall|place: int| 0 <= place < before.len() implies before[place] == 0 by {
        lemma_kernel_facts(0, 0, 0, 0, 0, first[place], second[place]);
    }
    assert forall|place: int| 0 <= place < after.len() implies after[place] == 0 by {
        lemma_kernel_facts(0, 0, 0, 0, 0, first[place + high], second[place + high]);
    }
    lemma_absorb_zeros(params, 0, before);
    lemma_window_register(params, window);
    lemma_pack_nonzero(window);
    lemma_rounds_kernel(pack(window), params.polynomial, 8 * window.len());
    let reached = absorb_spec(params, 0, before + window);
    lemma_absorb_concat(params, 0, before, window);
    assert(reached != 0);
    lemma_absorb_zeros(params, reached, after);
    lemma_absorb_concat(params, 0, before + window, after);
    assert(error =~= before + window + after);
    lemma_absorb_xor(params, state, state, first, second);
    lemma_kernel_facts(
        absorb_spec(params, state, first),
        absorb_spec(params, state, second),
        state,
        0,
        0,
        0,
        0,
    );
    lemma_kernel_facts(state, 0, 0, 0, 0, 0, 0);
}

/// Every variant whose polynomial has its constant term set tells apart any
/// two different messages of one length that differ only within four
/// consecutive bytes: one flipped bit, one damaged byte, any burst of damage
/// that four bytes hold.
pub proof fn lemma_short_burst_detected(
    params: Algorithm32,
    first: Seq<u8>,
    second: Seq<u8>,
    start: int,
)
    requires
        bit_at(params.polynomial, 0),
        differ_within_window(first, second, start),
        first != second,
    ensures
        checksum_spec(params, first) != checksum_spec(params, second),
{
    let plain = msb_first(params);
    lemma_checksum_by_left_register(params, first);
    lemma_checksum_by_left_register(params, second);
    let state = if params.reflect_in {
        reflect_bits_spec(params.init, 32)
    } else {
        params.init
    };
    let first_input = if params.reflect_in {
        reflect_bytes(first)
    } else {
        first
    };
    let second_input = if params.reflect_in {
        reflect_bytes(second)
    } else {
        second
    };
    if params.reflect_in {
        assert forall|place: int|
            0 <= place < first.len() && first_input[place] == second_input[place] implies first[place]
            == second[place] by {
            lemma_reflect_byte_injective(first[place], second[place]);
        }
        if first_input == second_input {
            assert(first =~= second);
        }
    }
    lemma_register_differs(plain, state, first_input, second_input, start);
    let first_register = absorb_spec(plain, state, first_input);
    let second_register = absorb_spec(plain, state, second_input);
    lemma_reflect_word_involution(first_register);
    lemma_reflect_word_involution(second_register);
    lemma_kernel_facts(first_register, second_register, params.xor_out, 0, 0, 0, 0);
    lemma_kernel_facts(
        reflect_bits_spec(first_register, 32),
        reflect_bits_spec(second_register, 32),
        params.xor_out,
        0,
        0,
        0,
        0,
    );
}

} // verus!
