//! Classic CRC32 (IEEE 802.3, ISO-HDLC).

use crate::algorithm::Algorithm32;
use crate::bits::{bit_at, lemma_reflect_all_ones, reflect_bits_spec};
use crate::detection::{differ_within_window, lemma_short_burst_detected};
use crate::division::{dividend, is_remainder, lemma_checksum_is_remainder};
use crate::engine::{be_bytes_spec, checksum_spec, Crc32Engine, EngineView};
use crate::mirror::reflect_bytes;
use vstd::prelude::*;

verus! {

/// The IEEE variant: polynomial `0x04C11DB7`, register and output mask all ones,
/// input and output reflected.
pub open spec fn ieee_spec() -> Algorithm32 {
    Algorithm32 {
        name: "crc32",
        polynomial: 0x04C1_1DB7,
        init: 0xFFFF_FFFF,
        xor_out: 0xFFFF_FFFF,
        reflect_in: true,
        reflect_out: true,
    }
}

/// The description of the IEEE variant, as a value.
#[verifier::when_used_as_spec(ieee_spec)]
pub fn ieee() -> (params: Algorithm32)
    ensures
        params == ieee_spec(),
{
    Algorithm32::new("crc32", 0x04C1_1DB7, 0xFFFF_FFFF, 0xFFFF_FFFF, true, true)
}

/// Streaming CRC32 (IEEE) digest: an engine that is built for [`ieee`] and keeps
/// that variant through every call.
pub struct Crc32 {
    inner: Crc32Engine,
}

impl View for Crc32 {
    type V = EngineView;

    closed spec fn view(&self) -> EngineView {
        self.inner@
    }
}

impl Clone for Crc32 {
    fn clone(&self) -> (copy: Self)
        ensures
            copy@ == self@,
    {
        Crc32 { inner: self.inner.clone() }
    }
}

impl Default for Crc32 {
    fn default() -> (digest: Self)
        ensures
            digest@ == EngineView::fresh(ieee()),
    {
        Crc32::new()
    }
}

impl Crc32 {
    /// A digest that has seen no input.
    pub fn new() -> (digest: Self)
        ensures
            digest@ == EngineView::fresh(ieee()),
    {
        Crc32 { inner: Crc32Engine::new(ieee()) }
    }

    /// Absorbs more input. An empty `data` leaves the digest as it is.
    pub fn update(&mut self, data: &[u8])
        ensures
            final(self)@ == old(self)@.absorb(data@),
            data@.len() == 0 ==> final(self)@ == old(self)@,
    {
        self.inner.update(data);
    }

    /// Returns the digest to the state of a new one.
    pub fn reset(&mut self)
        ensures
            final(self)@ == old(self)@.reset(),
    {
        self.inner.reset();
    }

    /// The checksum of the input absorbed so far, as a plain number.
    pub fn finalize_u32(self) -> (checksum: u32)
        ensures
            checksum == self@.checksum(),
    {
        self.inner.finalize_u32()
    }

    /// Writes the checksum to `out`, most significant byte first.
    pub fn finalize_into(self, out: &mut [u8; 4])
        ensures
            final(out)@ == be_bytes_spec(self@.checksum()),
    {
        self.inner.finalize_into(out);
    }

    /// Writes the checksum to `out`, most significant byte first, then resets the digest.
    pub fn finalize_into_reset(&mut self, out: &mut [u8; 4])
        ensures
            final(out)@ == be_bytes_spec(old(self)@.checksum()),
            final(self)@ == old(self)@.reset(),
    {
        self.inner.finalize_into_reset(out);
    }
}

/// The IEEE CRC32 of `data`, in one call.
pub fn crc32(data: &[u8]) -> (checksum: u32)
    ensures
        checksum == checksum_spec(ieee(), data@),
{
    let mut digest = Crc32::new();
    digest.update(data);
    digest.finalize_u32()
}

/// The IEEE CRC32 of a message is made of a remainder: that of the message,
/// each byte mirrored, times `x^32`, plus 32 set bits times `x` to the number of
/// message bits, under the generator `x^32 + 0x04C11DB7`. The checksum is the
/// mirror image of that remainder with every bit inverted.
pub proof fn lemma_crc32_is_remainder(data: Seq<u8>, remainder: u32)
    requires
        is_remainder(dividend(0xFFFF_FFFF, reflect_bytes(data)), 0x04C1_1DB7, remainder),
    ensures
        checksum_spec(ieee(), data) == reflect_bits_spec(remainder, 32) ^ 0xFFFF_FFFF,
{
    lemma_reflect_all_ones();
    lemma_checksum_is_remainder(ieee(), data);
}

/// The IEEE CRC32 tells apart any two different messages of one length that
/// differ only within four consecutive bytes.
pub proof fn lemma_crc32_detects_short_bursts(first: Seq<u8>, second: Seq<u8>, start: int)
    requires
        differ_within_window(first, second, start),
        first != second,
    ensures
        checksum_spec(ieee(), first) != checksum_spec(ieee(), second),
{
    assert(bit_at(0x04C1_1DB7u32, 0)) by (bit_vector);
    lemma_short_burst_detected(ieee(), first, second, start);
}

} // verus!
