//! A verified van Emde Boas set: an ordered set of integers drawn from a
//! bounded universe `0..U`, where `U` is a power of two. Insert, delete,
//! membership, minimum, maximum, successor and predecessor all run in
//! O(log log U) time through recursive universe decomposition.

mod laws;
mod split;
mod veb;

pub use laws::{
    is_next, is_prev, lemma_enumeration_from_min, lemma_insert_idempotent,
    lemma_pred_chain_enumerates, lemma_round_trip, lemma_succ_chain_enumerates, pred_chain,
    succ_chain,
};
pub use split::{
    log2, lower_sqrt, spec_high, spec_index, spec_low, upper_sqrt, valid_universe,
};
pub use veb::vEB;
pub use veb::VebError;
