//! Laws of the streaming engine: where the input is cut does not matter, a
//! reset starts over, and reading the checksum changes nothing.

use crate::algorithm::Algorithm32;
use crate::engine::{
    absorb_reflected, absorb_spec, absorb_standard, checksum_spec, EngineView,
};
use crate::table::table_spec;
use vstd::prelude::*;

verus! {

/// Absorbing `first` and then `second` in reflected mode leaves the register
/// that absorbing their concatenation leaves.
pub proof fn lemma_absorb_reflected_concat(
    state: u32,
    table: Seq<u32>,
    first: Seq<u8>,
    second: Seq<u8>,
)
    ensures
        absorb_reflected(absorb_reflected(state, table, first), table, second) == absorb_reflected(
            state,
            table,
            first + second,
        ),
    decreases second.len(),
{
    if second.len() == 0 {
        assert(first + second =~= first);
    } else {
        lemma_absorb_reflected_concat(state, table, first, second.drop_last());
        assert((first + second).drop_last() =~= first + second.drop_last());
    }
}

/// Absorbing `first` and then `second` in standard mode leaves the register
/// that absorbing their concatenation leaves.
pub proof fn lemma_absorb_standard_concat(
    state: u32,
    table: Seq<u32>,
    first: Seq<u8>,
    second: Seq<u8>,
)
    ensures
        absorb_standard(absorb_standard(state, table, first), table, second) == absorb_standard(
            state,
            table,
            first + second,
        ),
    decreases second.len(),
{
    if second.len() == 0 {
        assert(first + second =~= first);
    } else {
        lemma_absorb_standard_concat(state, table, first, second.drop_last());
        assert((first + second).drop_last() =~= first + second.drop_last());
    }
}

/// Where the input is cut makes no difference to the register: absorbing
/// `first` and then `second` is absorbing `first + second`.
pub proof fn lemma_absorb_concat(params: Algorithm32, state: u32, first: Seq<u8>, second: Seq<u8>)
    ensures
        absorb_spec(params, absorb_spec(params, state, first), second) == absorb_spec(
            params,
            state,
            first + second,
        ),
{
    if params.reflect_in {
        lemma_absorb_reflected_concat(state, table_spec(params.polynomial, true), first, second);
    } else {
        lemma_absorb_standard_concat(state, table_spec(params.polynomial, false), first, second);
    }
}

impl EngineView {
    /// An empty input leaves the engine as it is.
    pub proof fn lemma_absorb_nothing(self)
        ensures
            self.absorb(Seq::empty()) == self,
    {
    }

    /// Reading the checksum is repeatable: it is a function of the engine alone,
    /// so two reads with no update or reset between them give the same value.
    pub proof fn lemma_checksum_repeatable(self, first: u32, second: u32)
        requires
            first == self.checksum(),
            second == self.checksum(),
        ensures
            first == second,
    {
    }

    /// Two updates in a row are one update with the concatenated input.
    pub proof fn lemma_absorb_twice(self, first: Seq<u8>, second: Seq<u8>)
        ensures
            self.absorb(first).absorb(second) == self.absorb(first + second),
    {
        lemma_absorb_concat(self.params, self.state, first, second);
    }

    /// Streaming equals one shot: however a message is split into chunks, and
    /// whatever the engine held before, one update per chunk leaves the engine,
    /// and so the checksum, that a single update over the whole message leaves.
    pub proof fn lemma_chunks_equal_whole(self, chunks: Seq<Seq<u8>>)
        ensures
            self.absorb_all(chunks) == self.absorb(chunks.flatten()),
            self.absorb_all(chunks).checksum() == self.absorb(chunks.flatten()).checksum(),
        decreases chunks.len(),
    {
        chunks.lemma_flatten_and_flatten_alt_are_equivalent();
        if chunks.len() > 0 {
            let before = chunks.drop_last();
            self.lemma_chunks_equal_whole(before);
            before.lemma_flatten_and_flatten_alt_are_equivalent();
            self.lemma_absorb_twice(before.flatten(), chunks.last());
        }
    }

    /// For a new engine, one update per chunk gives the checksum of the whole message.
    pub proof fn lemma_streamed_checksum(params: Algorithm32, chunks: Seq<Seq<u8>>)
        ensures
            EngineView::fresh(params).absorb_all(chunks).checksum() == checksum_spec(
                params,
                chunks.flatten(),
            ),
    {
        EngineView::fresh(params).lemma_chunks_equal_whole(chunks);
    }

    /// Updates never change the variant of an engine.
    pub proof fn lemma_params_kept(self, chunks: Seq<Seq<u8>>)
        ensures
            self.absorb_all(chunks).params == self.params,
        decreases chunks.len(),
    {
        if chunks.len() > 0 {
            self.lemma_params_kept(chunks.drop_last());
        }
    }

    /// A reset after any run of updates gives the engine that `new` gives, so
    /// whatever is absorbed afterwards yields the checksum that a new engine
    /// would yield for it.
    pub proof fn lemma_reset_is_fresh(self, chunks: Seq<Seq<u8>>, later: Seq<u8>)
        ensures
            self.absorb_all(chunks).reset() == EngineView::fresh(self.params),
            self.absorb_all(chunks).reset().absorb(later).checksum() == checksum_spec(
                self.params,
                later,
            ),
    {
        self.lemma_params_kept(chunks);
    }
}

} // verus!
