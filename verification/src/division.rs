//! What the register holds: the remainder of a polynomial division over GF(2).
//!
//! A polynomial over GF(2) is written as the sequence of its coefficients,
//! entry `i` being the coefficient of `x^i`; entries past the end are zero.
//! The generator of a variant is `x^32` plus the polynomial of its description.

use crate::algorithm::Algorithm32;
use crate::bits::{
    bit_at, lemma_bit_ops, lemma_byte_facts, lemma_equal_by_bits, reflect_bits_spec,
};
use crate::engine::{absorb_spec, checksum_spec};
use crate::mirror::{lemma_checksum_by_left_register, msb_first, reflect_bytes};
use crate::serial::{lemma_absorb_is_serial, serial_absorb};
use crate::table::{shift_left_rounds, shift_left_step};
use vstd::prelude::*;

verus! {

/// The coefficient of `x^degree` in `p`.
pub open spec fn coefficient(p: Seq<bool>, degree: int) -> bool {
    0 <= degree < p.len() && p[degree]
}

/// Whether `p` and `q` are the same polynomial: trailing zero coefficients do not count.
pub open spec fn same_polynomial(p: Seq<bool>, q: Seq<bool>) -> bool {
    forall|degree: int| #[trigger] coefficient(p, degree) == coefficient(q, degree)
}

/// Whether `p` and `q` have the same coefficients from `x^from` upwards.
pub open spec fn same_from(p: Seq<bool>, q: Seq<bool>, from: int) -> bool {
    forall|degree: int| degree >= from ==> #[trigger] coefficient(p, degree) == coefficient(q, degree)
}

/// The polynomial of degree below 32 whose coefficients are the bits of `word`.
pub open spec fn word_polynomial(word: u32) -> Seq<bool> {
    Seq::new(32, |degree: int| bit_at(word, degree as u32))
}

/// The generator `x^32 + polynomial`.
pub open spec fn generator(polynomial: u32) -> Seq<bool> {
    word_polynomial(polynomial).push(true)
}

/// The sum of `p` and `q`: coefficients add modulo 2.
pub open spec fn plus(p: Seq<bool>, q: Seq<bool>) -> Seq<bool> {
    Seq::new(
        if p.len() >= q.len() {
            p.len()
        } else {
            q.len()
        },
        |degree: int| coefficient(p, degree) != coefficient(q, degree),
    )
}

/// The product of `p` and `x^power`.
pub open spec fn times_power_of_x(p: Seq<bool>, power: nat) -> Seq<bool> {
    Seq::new(power, |degree: int| false) + p
}

/// The product of `q` and `g`: `g` once for the constant term of `q`, plus `x`
/// times the product of the rest of `q` and `g`.
pub open spec fn times(q: Seq<bool>, g: Seq<bool>) -> Seq<bool>
    decreases q.len(),
{
    if q.len() == 0 {
        Seq::empty()
    } else {
        plus(
            if q[0] {
                g
            } else {
                Seq::empty()
            },
            times_power_of_x(times(q.drop_first(), g), 1),
        )
    }
}

/// Whether `remainder` is what division of `dividend` by the generator of
/// `polynomial` leaves: the two differ by a multiple of the generator.
pub open spec fn is_remainder(dividend: Seq<bool>, polynomial: u32, remainder: u32) -> bool {
    exists|quotient: Seq<bool>| #[trigger]
        same_polynomial(
            plus(dividend, word_polynomial(remainder)),
            times(quotient, generator(polynomial)),
        )
}

/// The message as a polynomial: the first byte holds the highest coefficients,
/// and within a byte the most significant bit is the highest.
pub open spec fn message_polynomial(data: Seq<u8>) -> Seq<bool> {
    Seq::new(
        8 * data.len(),
        |degree: int| bit_at(data[data.len() - 1 - degree / 8] as u32, (degree % 8) as u32),
    )
}

/// The polynomial that a left-shifting register divides when it starts from
/// `state` and takes in `data`: the message times `x^32`, plus the starting
/// register times `x` to the number of message bits.
pub open spec fn dividend(state: u32, data: Seq<u8>) -> Seq<bool> {
    plus(
        times_power_of_x(word_polynomial(state), 8 * data.len()),
        times_power_of_x(message_polynomial(data), 32),
    )
}

/// The coefficients of sums, of products with a power of `x`, of words and of the generator.
pub proof fn lemma_coefficients(p: Seq<bool>, q: Seq<bool>, power: nat, word: u32, degree: int)
    ensures
        coefficient(plus(p, q), degree) == (coefficient(p, degree) != coefficient(q, degree)),
        coefficient(times_power_of_x(p, power), degree) == coefficient(p, degree - power),
        coefficient(word_polynomial(word), degree) == (0 <= degree < 32 && bit_at(
            word,
            degree as u32,
        )),
        coefficient(generator(word), degree) == (degree == 32 || (0 <= degree < 32 && bit_at(
            word,
            degree as u32,
        ))),
{
}

/// The coefficients of a product, from the constant term of `q` and the product with the rest.
pub proof fn lemma_times_coefficient(q: Seq<bool>, g: Seq<bool>, degree: int)
    ensures
        coefficient(times(q, g), degree) == (if q.len() == 0 {
            false
        } else {
            (q[0] && coefficient(g, degree)) != coefficient(times(q.drop_first(), g), degree - 1)
        }),
{
    if q.len() > 0 {
        let head = if q[0] {
            g
        } else {
            Seq::empty()
        };
        let rest = times(q.drop_first(), g);
        lemma_coefficients(head, times_power_of_x(rest, 1), 0, 0, degree);
        lemma_coefficients(rest, rest, 1, 0, degree);
    }
}

/// Two multiples of the generator that agree from `x^32` upwards are the same polynomial.
pub proof fn lemma_multiples_agree(first: Seq<bool>, second: Seq<bool>, polynomial: u32)
    requires
        same_from(
            times(first, generator(polynomial)),
            times(second, generator(polynomial)),
            32,
        ),
    ensures
        same_polynomial(
            times(first, generator(polynomial)),
            times(second, generator(polynomial)),
        ),
    decreases first.len() + second.len(),
{
    let g = generator(polynomial);
    if first.len() + second.len() > 0 {
        let first_rest = if first.len() == 0 {
            first
        } else {
            first.drop_first()
        };
        let second_rest = if second.len() == 0 {
            second
        } else {
            second.drop_first()
        };
        assert forall|degree: int| degree >= 32 implies #[trigger] coefficient(
            times(first_rest, g),
            degree,
        ) == coefficient(times(second_rest, g), degree) by {
            lemma_times_coefficient(first, g, degree + 1);
            lemma_times_coefficient(second, g, degree + 1);
            lemma_times_coefficient(first_rest, g, degree);
            lemma_times_coefficient(second_rest, g, degree);
            lemma_coefficients(g, g, 0, polynomial, degree + 1);
            assert(coefficient(times(first, g), degree + 1) == coefficient(
                times(second, g),
                degree + 1,
            ));
        }
        lemma_multiples_agree(first_rest, second_rest, polynomial);
        assert forall|degree: int| #[trigger]
            coefficient(times(first, g), degree) == coefficient(times(second, g), degree) by {
            lemma_times_coefficient(first, g, degree);
            lemma_times_coefficient(second, g, degree);
            lemma_times_coefficient(first, g, 32);
            lemma_times_coefficient(second, g, 32);
            lemma_times_coefficient(first_rest, g, degree - 1);
            lemma_times_coefficient(second_rest, g, degree - 1);
            lemma_coefficients(g, g, 0, polynomial, 32);
            assert(coefficient(times(first, g), 32) == coefficient(times(second, g), 32));
            assert(coefficient(times(first_rest, g), 31) == coefficient(times(second_rest, g), 31));
            assert(coefficient(times(first_rest, g), degree - 1) == coefficient(
                times(second_rest, g),
                degree - 1,
            ));
        }
    }
}

/// A dividend has one remainder only.
pub proof fn lemma_remainder_unique(dividend: Seq<bool>, polynomial: u32, first: u32, second: u32)
    requires
        is_remainder(dividend, polynomial, first),
        is_remainder(dividend, polynomial, second),
    ensures
        first == second,
{
    let g = generator(polynomial);
    let first_quotient = choose|quotient: Seq<bool>| #[trigger]
        same_polynomial(plus(dividend, word_polynomial(first)), times(quotient, g));
    let second_quotient = choose|quotient: Seq<bool>| #[trigger]
        same_polynomial(plus(dividend, word_polynomial(second)), times(quotient, g));
    let first_sum = plus(dividend, word_polynomial(first));
    let second_sum = plus(dividend, word_polynomial(second));
    assert forall|degree: int| degree >= 32 implies #[trigger] coefficient(
        times(first_quotient, g),
        degree,
    ) == coefficient(times(second_quotient, g), degree) by {
        lemma_coefficients(dividend, word_polynomial(first), 0, first, degree);
        lemma_coefficients(dividend, word_polynomial(second), 0, second, degree);
        assert(coefficient(first_sum, degree) == coefficient(times(first_quotient, g), degree));
        assert(coefficient(second_sum, degree) == coefficient(times(second_quotient, g), degree));
    }
    lemma_multiples_agree(first_quotient, second_quotient, polynomial);
    assert forall|index: u32| index < 32 implies bit_at(first, index) == bit_at(second, index) by {
        let degree = index as int;
        lemma_coefficients(dividend, word_polynomial(first), 0, first, degree);
        lemma_coefficients(dividend, word_polynomial(second), 0, second, degree);
        assert(coefficient(first_sum, degree) == coefficient(times(first_quotient, g), degree));
        assert(coefficient(second_sum, degree) == coefficient(times(second_quotient, g), degree));
        assert(coefficient(times(first_quotient, g), degree) == coefficient(
            times(second_quotient, g),
            degree,
        ));
    }
    lemma_equal_by_bits(first, second);
}

/// One round of the left-shifting register multiplies by `x` under the
/// generator: if `remainder` is left by `dividend`, the register after one
/// round is left by `x` times `dividend`.
pub proof fn lemma_round_is_times_x(dividend: Seq<bool>, polynomial: u32, remainder: u32)
    requires
        is_remainder(dividend, polynomial, remainder),
    ensures
        is_remainder(
            times_power_of_x(dividend, 1),
            polynomial,
            shift_left_step(remainder, polynomial),
        ),
{
    let g = generator(polynomial);
    let quotient = choose|quotient: Seq<bool>| #[trigger]
        same_polynomial(plus(dividend, word_polynomial(remainder)), times(quotient, g));
    let before = plus(dividend, word_polynomial(remainder));
    let next = shift_left_step(remainder, polynomial);
    let carry = bit_at(remainder, 31);
    let grown = seq![carry] + quotient;
    let after = plus(times_power_of_x(dividend, 1), word_polynomial(next));
    assert(grown.drop_first() =~= quotient);
    assert forall|degree: int| #[trigger]
        coefficient(after, degree) == coefficient(times(grown, g), degree) by {
        lemma_times_coefficient(grown, g, degree);
        lemma_coefficients(times_power_of_x(dividend, 1), word_polynomial(next), 0, next, degree);
        lemma_coefficients(dividend, dividend, 1, polynomial, degree);
        lemma_coefficients(dividend, word_polynomial(remainder), 0, remainder, degree - 1);
        assert(coefficient(before, degree - 1) == coefficient(times(quotient, g), degree - 1));
        lemma_bit_ops(remainder, 0, 31);
        if 0 <= degree < 32 {
            lemma_bit_ops(remainder << 1, polynomial, degree as u32);
            lemma_bit_ops(remainder, 0, degree as u32);
        }
    }
    assert(same_polynomial(after, times(grown, g)));
}

/// `rounds` rounds of the left-shifting register multiply by `x^rounds` under the generator.
pub proof fn lemma_rounds_are_times_power(
    dividend: Seq<bool>,
    polynomial: u32,
    remainder: u32,
    rounds: nat,
)
    requires
        is_remainder(dividend, polynomial, remainder),
    ensures
        is_remainder(
            times_power_of_x(dividend, rounds),
            polynomial,
            shift_left_rounds(remainder, polynomial, rounds),
        ),
    decreases rounds,
{
    if rounds == 0 {
        assert(times_power_of_x(dividend, 0) =~= dividend);
    } else {
        let fewer = (rounds - 1) as nat;
        lemma_rounds_are_times_power(dividend, polynomial, remainder, fewer);
        lemma_round_is_times_x(
            times_power_of_x(dividend, fewer),
            polynomial,
            shift_left_rounds(remainder, polynomial, fewer),
        );
        assert(times_power_of_x(times_power_of_x(dividend, fewer), 1) =~= times_power_of_x(
            dividend,
            rounds,
        ));
    }
}

/// Adding a polynomial of degree below 32 to the dividend adds it to the remainder.
pub proof fn lemma_add_word(dividend: Seq<bool>, polynomial: u32, remainder: u32, word: u32)
    requires
        is_remainder(dividend, polynomial, remainder),
    ensures
        is_remainder(plus(dividend, word_polynomial(word)), polynomial, remainder ^ word),
{
    let g = generator(polynomial);
    let quotient = choose|quotient: Seq<bool>| #[trigger]
        same_polynomial(plus(dividend, word_polynomial(remainder)), times(quotient, g));
    let before = plus(dividend, word_polynomial(remainder));
    let after = plus(plus(dividend, word_polynomial(word)), word_polynomial(remainder ^ word));
    assert forall|degree: int| #[trigger]
        coefficient(after, degree) == coefficient(times(quotient, g), degree) by {
        lemma_coefficients(dividend, word_polynomial(remainder), 0, remainder, degree);
        lemma_coefficients(dividend, word_polynomial(word), 0, word, degree);
        lemma_coefficients(
            plus(dividend, word_polynomial(word)),
            word_polynomial(remainder ^ word),
            0,
            remainder ^ word,
            degree,
        );
        assert(coefficient(before, degree) == coefficient(times(quotient, g), degree));
        if 0 <= degree < 32 {
            lemma_bit_ops(remainder, word, degree as u32);
        }
    }
    assert(same_polynomial(after, times(quotient, g)));
}

/// A remainder of one polynomial is a remainder of every way of writing that polynomial.
pub proof fn lemma_same_dividend(
    first: Seq<bool>,
    second: Seq<bool>,
    polynomial: u32,
    remainder: u32,
)
    requires
        same_polynomial(first, second),
        is_remainder(first, polynomial, remainder),
    ensures
        is_remainder(second, polynomial, remainder),
{
    let g = generator(polynomial);
    let quotient = choose|quotient: Seq<bool>| #[trigger]
        same_polynomial(plus(first, word_polynomial(remainder)), times(quotient, g));
    let before = plus(first, word_polynomial(remainder));
    let after = plus(second, word_polynomial(remainder));
    assert forall|degree: int| #[trigger]
        coefficient(after, degree) == coefficient(times(quotient, g), degree) by {
        lemma_coefficients(first, word_polynomial(remainder), 0, remainder, degree);
        lemma_coefficients(second, word_polynomial(remainder), 0, remainder, degree);
        assert(coefficient(first, degree) == coefficient(second, degree));
        assert(coefficient(before, degree) == coefficient(times(quotient, g), degree));
    }
    assert(same_polynomial(after, times(quotient, g)));
}

/// Taking in one more byte turns the dividend into `x^8` times the sum of the
/// old dividend and the byte at the top of a word.
pub proof fn lemma_dividend_grows(state: u32, data: Seq<u8>)
    requires
        data.len() > 0,
    ensures
        same_polynomial(
            times_power_of_x(
                plus(
                    dividend(state, data.drop_last()),
                    word_polynomial((data.last() as u32) << 24),
                ),
                8,
            ),
            dividend(state, data),
        ),
{
    let before = data.drop_last();
    let byte = data.last();
    let top = (byte as u32) << 24;
    let inner = plus(dividend(state, before), word_polynomial(top));
    let left = times_power_of_x(inner, 8);
    let right = dividend(state, data);
    assert forall|degree: int| #[trigger] coefficient(left, degree) == coefficient(right, degree) by {
        let old_start = times_power_of_x(word_polynomial(state), 8 * before.len());
        let old_message = times_power_of_x(message_polynomial(before), 32);
        let new_start = times_power_of_x(word_polynomial(state), 8 * data.len());
        let new_message = times_power_of_x(message_polynomial(data), 32);
        lemma_coefficients(inner, inner, 8, 0, degree);
        lemma_coefficients(dividend(state, before), word_polynomial(top), 0, top, degree - 8);
        lemma_coefficients(old_start, old_message, 0, 0, degree - 8);
        lemma_coefficients(word_polynomial(state), old_start, 8 * before.len(), 0, degree - 8);
        lemma_coefficients(message_polynomial(before), old_start, 32, 0, degree - 8);
        lemma_coefficients(new_start, new_message, 0, 0, degree);
        lemma_coefficients(word_polynomial(state), new_start, 8 * data.len(), 0, degree);
        lemma_coefficients(message_polynomial(data), new_start, 32, 0, degree);
        let place = degree - 32;
        if 0 <= place < 8 {
            lemma_byte_facts(byte, 0, (degree - 8) as u32);
        } else if 0 <= degree - 8 < 32 {
            lemma_byte_facts(byte, 0, (degree - 8) as u32);
        }
        if 8 <= place < 8 * data.len() {
            assert(data[data.len() - 1 - place / 8] == before[before.len() - 1 - (place - 8) / 8]);
        }
    }
}

/// The register of a variant that takes its input most significant bit first
/// is the remainder of `dividend(state, data)` under the variant's generator.
pub proof fn lemma_register_is_remainder(params: Algorithm32, state: u32, data: Seq<u8>)
    requires
        !params.reflect_in,
    ensures
        is_remainder(dividend(state, data), params.polynomial, absorb_spec(params, state, data)),
    decreases data.len(),
{
    let g = generator(params.polynomial);
    lemma_absorb_is_serial(params, state, data);
    if data.len() == 0 {
        let sum = plus(dividend(state, data), word_polynomial(state));
        let nothing = Seq::<bool>::empty();
        assert forall|degree: int| #[trigger]
            coefficient(sum, degree) == coefficient(times(nothing, g), degree) by {
            let start = times_power_of_x(word_polynomial(state), 8 * data.len());
            let message = times_power_of_x(message_polynomial(data), 32);
            lemma_coefficients(dividend(state, data), word_polynomial(state), 0, state, degree);
            lemma_coefficients(start, message, 0, 0, degree);
            lemma_coefficients(word_polynomial(state), start, 0, 0, degree);
            lemma_coefficients(message_polynomial(data), start, 32, 0, degree);
        }
        assert(same_polynomial(sum, times(nothing, g)));
    } else {
        let before = data.drop_last();
        let top = (data.last() as u32) << 24;
        lemma_register_is_remainder(params, state, before);
        lemma_absorb_is_serial(params, state, before);
        let register = serial_absorb(params, state, before);
        lemma_add_word(dividend(state, before), params.polynomial, register, top);
        lemma_rounds_are_times_power(
            plus(dividend(state, before), word_polynomial(top)),
            params.polynomial,
            register ^ top,
            8,
        );
        lemma_dividend_grows(state, data);
        lemma_same_dividend(
            times_power_of_x(plus(dividend(state, before), word_polynomial(top)), 8),
            dividend(state, data),
            params.polynomial,
            shift_left_rounds(register ^ top, params.polynomial, 8),
        );
    }
}

/// The polynomial that the variant `params` divides for the message `data`:
/// with `reflect_in`, every byte and the initial register enter mirrored.
pub open spec fn checksum_dividend(params: Algorithm32, data: Seq<u8>) -> Seq<bool> {
    if params.reflect_in {
        dividend(reflect_bits_spec(params.init, 32), reflect_bytes(data))
    } else {
        dividend(params.init, data)
    }
}

/// The checksum that the variant `params` makes of a remainder: mirrored with
/// `reflect_out`, then masked with `xor_out`.
pub open spec fn checksum_of_remainder(params: Algorithm32, remainder: u32) -> u32 {
    if params.reflect_out {
        reflect_bits_spec(remainder, 32) ^ params.xor_out
    } else {
        remainder ^ params.xor_out
    }
}

/// The checksum of every variant is made of the one remainder that the
/// division of its dividend by its generator leaves.
pub proof fn lemma_checksum_is_remainder(params: Algorithm32, data: Seq<u8>)
    ensures
        exists|remainder: u32| #[trigger]
            is_remainder(checksum_dividend(params, data), params.polynomial, remainder),
        forall|remainder: u32| #[trigger]
            is_remainder(checksum_dividend(params, data), params.polynomial, remainder)
                ==> checksum_spec(params, data) == checksum_of_remainder(params, remainder),
{
    let start = if params.reflect_in {
        reflect_bits_spec(params.init, 32)
    } else {
        params.init
    };
    let input = if params.reflect_in {
        reflect_bytes(data)
    } else {
        data
    };
    let register = absorb_spec(msb_first(params), start, input);
    lemma_checksum_by_left_register(params, data);
    lemma_register_is_remainder(msb_first(params), start, input);
    assert(is_remainder(checksum_dividend(params, data), params.polynomial, register));
    assert forall|remainder: u32| #[trigger]
        is_remainder(
            checksum_dividend(params, data),
            params.polynomial,
            remainder,
        ) implies checksum_spec(params, data) == checksum_of_remainder(params, remainder) by {
        lemma_remainder_unique(
            checksum_dividend(params, data),
            params.polynomial,
            register,
            remainder,
        );
    }
}

} // verus!
