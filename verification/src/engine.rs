//! The streaming CRC32 engine: a register advanced a byte at a time through a lookup table.

use crate::algorithm::Algorithm32;
use crate::bits::{reflect_bits, reflect_bits_spec};
use crate::table::{build_table, reflected_index, standard_index, table_spec};
use vstd::prelude::*;

verus! {

/// The register after one byte in reflected mode: the low byte of the register,
/// XORed with the input byte, picks the table entry that is folded into the
/// register shifted right by a byte.
pub open spec fn reflected_byte_step(state: u32, table: Seq<u32>, byte: u8) -> u32 {
    (state >> 8) ^ table[reflected_index(state, byte) as int]
}

/// The register after one byte in standard mode: the high byte of the register,
/// XORed with the input byte, picks the table entry that is folded into the
/// register shifted left by a byte.
pub open spec fn standard_byte_step(state: u32, table: Seq<u32>, byte: u8) -> u32 {
    (state << 8) ^ table[standard_index(state, byte) as int]
}

/// The register after the bytes of `data`, in order, in reflected mode.
pub open spec fn absorb_reflected(state: u32, table: Seq<u32>, data: Seq<u8>) -> u32
    decreases data.len(),
{
    if data.len() == 0 {
        state
    } else {
        reflected_byte_step(absorb_reflected(state, table, data.drop_last()), table, data.last())
    }
}

/// The register after the bytes of `data`, in order, in standard mode.
pub open spec fn absorb_standard(state: u32, table: Seq<u32>, data: Seq<u8>) -> u32
    decreases data.len(),
{
    if data.len() == 0 {
        state
    } else {
        standard_byte_step(absorb_standard(state, table, data.drop_last()), table, data.last())
    }
}

/// The register of the variant `params` after the bytes of `data`, starting from `state`.
pub open spec fn absorb_spec(params: Algorithm32, state: u32, data: Seq<u8>) -> u32 {
    if params.reflect_in {
        absorb_reflected(state, table_spec(params.polynomial, true), data)
    } else {
        absorb_standard(state, table_spec(params.polynomial, false), data)
    }
}

/// The checksum that the variant `params` reads off the register `state`:
/// the register, bit-reversed over all 32 bits when the two reflection flags
/// differ, XORed with `xor_out`.
pub open spec fn finalize_spec(state: u32, params: Algorithm32) -> u32 {
    if params.reflect_in != params.reflect_out {
        reflect_bits_spec(state, 32) ^ params.xor_out
    } else {
        state ^ params.xor_out
    }
}

/// The checksum of the whole message `data` under the variant `params`.
pub open spec fn checksum_spec(params: Algorithm32, data: Seq<u8>) -> u32 {
    finalize_spec(absorb_spec(params, params.init, data), params)
}

/// Turns the register into the checksum of the variant `params`.
pub fn finalize_value(state: u32, params: Algorithm32) -> (checksum: u32)
    ensures
        checksum == finalize_spec(state, params),
{
    let mut crc = state;
    if params.reflect_in ^ params.reflect_out {
        crc = reflect_bits(crc, 32);
    }
    crc ^ params.xor_out
}

/// Advances the register over `data` in reflected mode.
pub fn update_reflected(state: u32, table: &[u32; 256], data: &[u8]) -> (next: u32)
    ensures
        next == absorb_reflected(state, table@, data@),
{
    let mut register = state;
    for i in 0..data.len()
        invariant
            register == absorb_reflected(state, table@, data@.take(i as int)),
    {
        let byte = data[i];
        let idx = ((register as u8) ^ byte) as usize;
        register = (register >> 8) ^ table[idx];
        assert(data@.take(i + 1).drop_last() == data@.take(i as int));
    }
    assert(data@.take(data.len() as int) == data@);
    register
}

/// Advances the register over `data` in standard mode.
pub fn update_standard(state: u32, table: &[u32; 256], data: &[u8]) -> (next: u32)
    ensures
        next == absorb_standard(state, table@, data@),
{
    let mut register = state;
    for i in 0..data.len()
        invariant
            register == absorb_standard(state, table@, data@.take(i as int)),
    {
        let byte = data[i];
        let idx = (((register >> 24) as u8) ^ byte) as usize;
        register = (register << 8) ^ table[idx];
        assert(data@.take(i + 1).drop_last() == data@.take(i as int));
    }
    assert(data@.take(data.len() as int) == data@);
    register
}

/// What an engine is to its callers: the variant it computes and the register it holds.
pub struct EngineView {
    /// The variant the engine was built for.
    pub params: Algorithm32,
    /// The running register.
    pub state: u32,
}

impl EngineView {
    /// An engine of the variant `params` that has seen no input.
    pub open spec fn fresh(params: Algorithm32) -> EngineView {
        EngineView { params, state: params.init }
    }

    /// The engine after the bytes of `data`.
    pub open spec fn absorb(self, data: Seq<u8>) -> EngineView {
        EngineView { params: self.params, state: absorb_spec(self.params, self.state, data) }
    }

    /// The engine after each chunk of `chunks` was absorbed in turn.
    pub open spec fn absorb_all(self, chunks: Seq<Seq<u8>>) -> EngineView
        decreases chunks.len(),
    {
        if chunks.len() == 0 {
            self
        } else {
            self.absorb_all(chunks.drop_last()).absorb(chunks.last())
        }
    }

    /// The engine put back to its initial register.
    pub open spec fn reset(self) -> EngineView {
        EngineView::fresh(self.params)
    }

    /// The checksum that the engine reports.
    pub open spec fn checksum(self) -> u32 {
        finalize_spec(self.state, self.params)
    }
}

/// The four bytes of `value`, most significant first.
pub open spec fn be_bytes_spec(value: u32) -> Seq<u8> {
    seq![(value >> 24) as u8, (value >> 16) as u8, (value >> 8) as u8, value as u8]
}

/// The big-endian bytes are the base-256 digits of the value.
pub proof fn lemma_be_bytes_value(value: u32)
    ensures
        be_bytes_spec(value).len() == 4,
        value == be_bytes_spec(value)[0] * 0x100_0000 + be_bytes_spec(value)[1] * 0x1_0000
            + be_bytes_spec(value)[2] * 0x100 + be_bytes_spec(value)[3],
{
    assert(value == ((value >> 24) as u8) * 0x100_0000 + ((value >> 16) as u8) * 0x1_0000 + ((value
        >> 8) as u8) * 0x100 + (value as u8)) by (bit_vector);
}

/// Writes `value` to `out`, most significant byte first.
fn store_be_bytes(value: u32, out: &mut [u8; 4])
    ensures
        final(out)@ == be_bytes_spec(value),
{
    out[0] = (value >> 24) as u8;
    out[1] = (value >> 16) as u8;
    out[2] = (value >> 8) as u8;
    out[3] = value as u8;
}

/// Streaming CRC32 engine for any [`Algorithm32`].
///
/// The table is built once, from the polynomial and `reflect_in`, and never
/// changes; only the register moves.
pub struct Crc32Engine {
    params: Algorithm32,
    table: [u32; 256],
    state: u32,
}

impl View for Crc32Engine {
    type V = EngineView;

    closed spec fn view(&self) -> EngineView {
        EngineView { params: self.params, state: self.state }
    }
}

impl Clone for Crc32Engine {
    fn clone(&self) -> (copy: Self)
        ensures
            copy == *self,
    {
        proof {
            use_type_invariant(self);
        }
        Crc32Engine { params: self.params, table: self.table, state: self.state }
    }
}

impl Crc32Engine {
    #[verifier::type_invariant]
    spec fn table_is_built(self) -> bool {
        self.table@ == table_spec(self.params.polynomial, self.params.reflect_in)
    }

    /// Builds an engine for `params`, its register at `params.init`.
    pub fn new(params: Algorithm32) -> (engine: Self)
        ensures
            engine@ == EngineView::fresh(params),
    {
        Crc32Engine {
            params,
            table: build_table(params.polynomial, params.reflect_in),
            state: params.init,
        }
    }

    /// The variant this engine computes.
    pub fn params(&self) -> (params: Algorithm32)
        ensures
            params == self@.params,
    {
        self.params
    }

    /// The running register, before reflection and before `xor_out`.
    pub fn state(&self) -> (state: u32)
        ensures
            state == self@.state,
    {
        self.state
    }

    /// Advances the register over `data`, in the direction that `reflect_in` names.
    pub fn absorb(&mut self, data: &[u8])
        ensures
            final(self)@ == old(self)@.absorb(data@),
            data@.len() == 0 ==> final(self)@ == old(self)@,
    {
        proof {
            use_type_invariant(&*self);
        }
        self.state = if self.params.reflect_in {
            update_reflected(self.state, &self.table, data)
        } else {
            update_standard(self.state, &self.table, data)
        };
    }

    /// Absorbs more input. An empty `data` leaves the engine as it is.
    pub fn update(&mut self, data: &[u8])
        ensures
            final(self)@ == old(self)@.absorb(data@),
            data@.len() == 0 ==> final(self)@ == old(self)@,
    {
        self.absorb(data);
    }

    /// Puts the register back to `init`. The table is kept.
    pub fn reset(&mut self)
        ensures
            final(self)@ == old(self)@.reset(),
            final(self)@ == EngineView::fresh(old(self)@.params),
    {
        proof {
            use_type_invariant(&*self);
        }
        self.state = self.params.init;
    }

    /// Reads the checksum off the register, which stays as it is.
    pub fn finalize_u32(&self) -> (checksum: u32)
        ensures
            checksum == self@.checksum(),
    {
        finalize_value(self.state, self.params)
    }

    /// Writes the checksum to `out`, most significant byte first.
    pub fn finalize_into(self, out: &mut [u8; 4])
        ensures
            final(out)@ == be_bytes_spec(self@.checksum()),
    {
        store_be_bytes(self.finalize_u32(), out);
    }

    /// Writes the checksum to `out`, most significant byte first, then resets the engine.
    pub fn finalize_into_reset(&mut self, out: &mut [u8; 4])
        ensures
            final(out)@ == be_bytes_spec(old(self)@.checksum()),
            final(self)@ == old(self)@.reset(),
    {
        store_be_bytes(self.finalize_u32(), out);
        self.reset();
    }
}

} // verus!
