//! The shift register behind a CRC and the 256-entry table that advances it a byte at a time.

use crate::bits::{low_mask, reflect_bits, reflect_bits_spec};
use vstd::prelude::*;

verus! {

/// One round of the right-shifting register: the bit that leaves at the bottom
/// decides whether the reflected polynomial is folded in.
pub open spec fn shift_right_step(register: u32, reflected_polynomial: u32) -> u32 {
    if register & 1 != 0 {
        (register >> 1) ^ reflected_polynomial
    } else {
        register >> 1
    }
}

/// One round of the left-shifting register: the bit that leaves at the top
/// decides whether the polynomial is folded in.
pub open spec fn shift_left_step(register: u32, polynomial: u32) -> u32 {
    if register & 0x8000_0000 != 0 {
        (register << 1) ^ polynomial
    } else {
        register << 1
    }
}

/// `rounds` rounds of the right-shifting register.
pub open spec fn shift_right_rounds(register: u32, reflected_polynomial: u32, rounds: nat) -> u32
    decreases rounds,
{
    if rounds == 0 {
        register
    } else {
        shift_right_step(
            shift_right_rounds(register, reflected_polynomial, (rounds - 1) as nat),
            reflected_polynomial,
        )
    }
}

/// `rounds` rounds of the left-shifting register.
pub open spec fn shift_left_rounds(register: u32, polynomial: u32, rounds: nat) -> u32
    decreases rounds,
{
    if rounds == 0 {
        register
    } else {
        shift_left_step(shift_left_rounds(register, polynomial, (rounds - 1) as nat), polynomial)
    }
}

/// Entry `index` of the table for `polynomial`.
///
/// Reflected: eight right-shifting rounds on `index` itself, with the polynomial
/// reversed over all 32 bits. Otherwise: eight left-shifting rounds on `index`
/// placed in the top byte.
pub open spec fn table_entry(polynomial: u32, reflect: bool, index: u8) -> u32 {
    if reflect {
        shift_right_rounds(index as u32, reflect_bits_spec(polynomial, 32), 8)
    } else {
        shift_left_rounds((index as u32) << 24, polynomial, 8)
    }
}

/// The whole table: 256 entries, entry `i` being `table_entry(polynomial, reflect, i)`.
pub open spec fn table_spec(polynomial: u32, reflect: bool) -> Seq<u32> {
    Seq::new(256, |index: int| table_entry(polynomial, reflect, index as u8))
}

/// The index that reflected mode looks up: the low byte of the register XOR the input byte.
pub open spec fn reflected_index(state: u32, byte: u8) -> u8 {
    (state as u8) ^ byte
}

/// The index that standard mode looks up: the high byte of the register XOR the input byte.
pub open spec fn standard_index(state: u32, byte: u8) -> u8 {
    ((state >> 24) as u8) ^ byte
}

/// Builds the lookup table for `polynomial`, in the reflected or the plain form.
pub fn build_table(polynomial: u32, reflect: bool) -> (table: [u32; 256])
    ensures
        table@ == table_spec(polynomial, reflect),
{
    let mut table = [0u32; 256];
    if reflect {
        let reflected = reflect_bits(polynomial, 32);
        for i in 0usize..256
            invariant
                reflected == reflect_bits_spec(polynomial, 32),
                forall|k: int| 0 <= k < i ==> table@[k] == table_entry(polynomial, true, k as u8),
        {
            let mut crc = i as u32;
            for round in 0u8..8
                invariant
                    crc == shift_right_rounds(i as u32, reflected, round as nat),
            {
                if (crc & 1) != 0 {
                    crc = (crc >> 1) ^ reflected;
                } else {
                    crc >>= 1;
                }
            }
            table[i] = crc;
        }
    } else {
        for i in 0usize..256
            invariant
                forall|k: int| 0 <= k < i ==> table@[k] == table_entry(polynomial, false, k as u8),
        {
            let mut crc = (i as u32) << 24;
            for round in 0u8..8
                invariant
                    crc == shift_left_rounds((i as u32) << 24, polynomial, round as nat),
            {
                if (crc & 0x8000_0000) != 0 {
                    crc = (crc << 1) ^ polynomial;
                } else {
                    crc <<= 1;
                }
            }
            table[i] = crc;
        }
    }
    table
}

/// One round of either register is linear over XOR, and on a word whose next
/// outgoing bit is clear it is a plain shift.
proof fn lemma_step_facts(a: u32, b: u32, polynomial: u32, rounds: u32)
    by (bit_vector)
    requires
        1 <= rounds <= 32,
    ensures
        shift_right_step(a ^ b, polynomial) == shift_right_step(a, polynomial) ^ shift_right_step(
            b,
            polynomial,
        ),
        shift_left_step(a ^ b, polynomial) == shift_left_step(a, polynomial) ^ shift_left_step(
            b,
            polynomial,
        ),
        a & low_mask(rounds) == 0 ==> a & low_mask((rounds - 1) as u32) == 0 && shift_right_step(
            a >> ((rounds - 1) as u32),
            polynomial,
        ) == a >> rounds,
        a & !low_mask((32 - rounds) as u32) == 0 ==> a & !low_mask((33 - rounds) as u32) == 0
            && shift_left_step(a << ((rounds - 1) as u32), polynomial) == a << rounds,
        a >> 0u32 == a,
        a << 0u32 == a,
{
}

/// Any number of rounds of the right-shifting register is linear over XOR.
pub proof fn lemma_shift_right_linear(a: u32, b: u32, reflected_polynomial: u32, rounds: nat)
    ensures
        shift_right_rounds(a ^ b, reflected_polynomial, rounds) == shift_right_rounds(
            a,
            reflected_polynomial,
            rounds,
        ) ^ shift_right_rounds(b, reflected_polynomial, rounds),
    decreases rounds,
{
    if rounds > 0 {
        let fewer = (rounds - 1) as nat;
        lemma_shift_right_linear(a, b, reflected_polynomial, fewer);
        lemma_step_facts(
            shift_right_rounds(a, reflected_polynomial, fewer),
            shift_right_rounds(b, reflected_polynomial, fewer),
            reflected_polynomial,
            1,
        );
    }
}

/// Any number of rounds of the left-shifting register is linear over XOR.
pub proof fn lemma_shift_left_linear(a: u32, b: u32, polynomial: u32, rounds: nat)
    ensures
        shift_left_rounds(a ^ b, polynomial, rounds) == shift_left_rounds(a, polynomial, rounds)
            ^ shift_left_rounds(b, polynomial, rounds),
    decreases rounds,
{
    if rounds > 0 {
        let fewer = (rounds - 1) as nat;
        lemma_shift_left_linear(a, b, polynomial, fewer);
        lemma_step_facts(
            shift_left_rounds(a, polynomial, fewer),
            shift_left_rounds(b, polynomial, fewer),
            polynomial,
            1,
        );
    }
}

/// A word whose lowest `rounds` bits are clear only shifts: the polynomial never enters.
pub proof fn lemma_shift_right_clear(register: u32, reflected_polynomial: u32, rounds: u32)
    requires
        rounds <= 32,
        register & low_mask(rounds) == 0,
    ensures
        shift_right_rounds(register, reflected_polynomial, rounds as nat) == register >> rounds,
    decreases rounds,
{
    lemma_step_facts(register, 0, reflected_polynomial, if rounds == 0 { 1 } else { rounds });
    if rounds > 0 {
        lemma_shift_right_clear(register, reflected_polynomial, (rounds - 1) as u32);
    }
}

/// A word whose highest `rounds` bits are clear only shifts: the polynomial never enters.
pub proof fn lemma_shift_left_clear(register: u32, polynomial: u32, rounds: u32)
    requires
        rounds <= 32,
        register & !low_mask((32 - rounds) as u32) == 0,
    ensures
        shift_left_rounds(register, polynomial, rounds as nat) == register << rounds,
    decreases rounds,
{
    lemma_step_facts(register, 0, polynomial, if rounds == 0 { 1 } else { rounds });
    if rounds > 0 {
        lemma_shift_left_clear(register, polynomial, (rounds - 1) as u32);
    }
}

/// How the register and an input byte split into the part that a lookup replaces
/// and the part that only shifts.
proof fn lemma_split_facts(state: u32, byte: u8)
    by (bit_vector)
    ensures
        state ^ (byte as u32) == (state & 0xffff_ff00) ^ (reflected_index(state, byte) as u32),
        (state & 0xffff_ff00) & low_mask(8) == 0,
        (state & 0xffff_ff00) >> 8u32 == state >> 8,
        state ^ ((byte as u32) << 24) == (state & 0x00ff_ffff) ^ ((standard_index(state, byte) as u32)
            << 24),
        (state & 0x00ff_ffff) & !low_mask(24) == 0,
        (state & 0x00ff_ffff) << 8u32 == state << 8,
{
}

/// In reflected mode one table lookup does the work of eight rounds of the
/// register on the state with the input byte XORed into its low byte.
pub proof fn lemma_reflected_lookup(polynomial: u32, state: u32, byte: u8)
    ensures
        (state >> 8) ^ table_entry(polynomial, true, reflected_index(state, byte))
            == shift_right_rounds(state ^ (byte as u32), reflect_bits_spec(polynomial, 32), 8),
{
    let reflected = reflect_bits_spec(polynomial, 32);
    let kept = state & 0xffff_ff00;
    let index = reflected_index(state, byte) as u32;
    lemma_split_facts(state, byte);
    lemma_shift_right_linear(kept, index, reflected, 8);
    lemma_shift_right_clear(kept, reflected, 8);
}

/// In standard mode one table lookup does the work of eight rounds of the
/// register on the state with the input byte XORed into its high byte.
pub proof fn lemma_standard_lookup(polynomial: u32, state: u32, byte: u8)
    ensures
        (state << 8) ^ table_entry(polynomial, false, standard_index(state, byte))
            == shift_left_rounds(state ^ ((byte as u32) << 24), polynomial, 8),
{
    let kept = state & 0x00ff_ffff;
    let index = (standard_index(state, byte) as u32) << 24;
    lemma_split_facts(state, byte);
    lemma_shift_left_linear(kept, index, polynomial, 8);
    lemma_shift_left_clear(kept, polynomial, 8);
}

/// Two tables that both hold what `build_table` promises for the same polynomial
/// and direction are the same table, entry by entry.
pub proof fn lemma_table_deterministic(
    first: [u32; 256],
    second: [u32; 256],
    polynomial: u32,
    reflect: bool,
)
    requires
        first@ == table_spec(polynomial, reflect),
        second@ == table_spec(polynomial, reflect),
    ensures
        forall|index: int| 0 <= index < 256 ==> first[index] == second[index],
        first == second,
{
    assert(first =~= second);
}

} // verus!
