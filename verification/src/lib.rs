//! A minimal inference server core: a paged key/value cache, continuous
//! batching and speculative decoding over a swappable model.
use vstd::prelude::*;

pub mod arith;
pub mod batch_laws;
pub mod bench;
pub mod cache_laws;
pub mod capacity_laws;
pub mod engine;
pub mod engine_laws;
pub mod hash_laws;
pub mod logit_laws;
pub mod model;
pub mod model_laws;
pub mod paged_cache;
pub mod policy;
pub mod round_laws;
pub mod run_laws;
pub mod scheduler;
pub mod scheduler_laws;
pub mod server;
pub mod speculative;
pub mod speculative_laws;
pub mod tokeniser;

use crate::model::TinyTransformer;
#[allow(unused_imports)]
use crate::model::{Model, TinyView, TokenId};
use crate::server::AppState;
use std::sync::Arc;

verus! {

/// Build the standard server state: a deterministic model sized to the
/// tokeniser vocabulary, with sensible cache and batch limits.
pub fn default_state() -> (r: AppState<TinyTransformer>)
    ensures
        r.wf(),
        r.model@ == (TinyView {
            vocab: tokeniser::VOCAB_SIZE as nat,
            layers: 6,
            eos: tokeniser::EOS_TOKEN,
            seed: model::SEED,
            divergence: None,
            pins: Map::empty(),
        }),
        r.blocks == 512,
        r.block_size == 16,
        r.max_batch_size == 16,
        forall|context: Seq<TokenId>| #[trigger] model::serves(&*r.model, context),
{
    let model = TinyTransformer::new(tokeniser::VOCAB_SIZE, 6).with_eos(tokeniser::EOS_TOKEN);
    AppState { model: Arc::new(model), blocks: 512, block_size: 16, max_batch_size: 16 }
}

} // verus!
