//! What the HTTP endpoints answer.
//!
//! Each request is served by a fresh engine over a shared model: the prompt is
//! submitted, and the tokens are drained. The transport and the JSON encoding
//! stand around this module.
use std::sync::Arc;
use vstd::prelude::*;

use crate::engine::Engine;
use crate::model::{Model, TokenId};
use crate::paged_cache::{CacheView, PagedKVCache};
use crate::policy::{SchedView, SeqView};
use crate::scheduler::SchedulerConfig;
#[allow(unused_imports)]
use crate::scheduler::SeqState;
use crate::tokeniser;
#[allow(unused_imports)]
use crate::{arith, engine, engine_laws, model, paged_cache};

verus! {

/// Shared server state: the model and the default serving limits.
pub struct AppState<M: Model + ?Sized> {
    pub model: Arc<M>,
    pub blocks: usize,
    pub block_size: usize,
    pub max_batch_size: usize,
}

/// Calls `Arc::clone`. Trusted: the clone is a handle to the same value.
#[verifier::external_body]
pub(crate) fn share<M: ?Sized>(model: &Arc<M>) -> (r: Arc<M>)
    ensures
        r == *model,
{
    Arc::clone(model)
}

impl<M: Model + ?Sized> Clone for AppState<M> {
    fn clone(&self) -> (r: Self)
        ensures
            r == *self,
    {
        AppState {
            model: share(&self.model),
            blocks: self.blocks,
            block_size: self.block_size,
            max_batch_size: self.max_batch_size,
        }
    }
}

impl<M: Model + ?Sized> AppState<M> {
    /// Whether a cache can be built to the limits.
    pub open spec fn wf(&self) -> bool {
        self.block_size > 0 && self.blocks * self.block_size <= usize::MAX
    }

    /// The scheduler of a fresh engine.
    pub open spec fn idle(&self) -> SchedView {
        SchedView {
            max_batch: self.max_batch_size as nat,
            cache: CacheView::fresh(self.blocks as nat, self.block_size as nat),
            waiting: Seq::empty(),
            running: Seq::empty(),
        }
    }

    /// The tokens generated for a prompt: the output of a fresh engine that is
    /// given this request alone.
    pub open spec fn generated(&self, prompt: Seq<char>, max_tokens: nat) -> Seq<TokenId> {
        engine::first_output(
            engine::run_emits(
                &*self.model,
                self.idle().submit(SeqView::fresh(1, tokeniser::encoded(prompt), max_tokens)),
                engine::MAX_STEPS as nat,
            ),
        )
    }

    /// Whether the model can continue a prompt.
    pub open spec fn serves(&self, prompt: Seq<char>) -> bool {
        model::serves(&*self.model, tokeniser::encoded(prompt))
    }

    /// An engine with an empty cache, sharing the model.
    pub fn new_engine(&self) -> (r: Engine<M>)
        requires
            self.wf(),
        ensures
            r.wf(),
            r.model() == self.model,
            r@ == self.idle(),
    {
        Engine::new(
            share(&self.model),
            SchedulerConfig { max_batch_size: self.max_batch_size },
            PagedKVCache::new(self.blocks, self.block_size),
        )
    }

    /// Run a prompt through a fresh engine and return its tokens.
    fn generate_tokens(&self, prompt_ids: Vec<TokenId>, max_tokens: usize, Ghost(prompt): Ghost<
        Seq<char>,
    >) -> (r: Vec<TokenId>)
        requires
            self.wf(),
            self.serves(prompt),
            prompt_ids@ == tokeniser::encoded(prompt),
        ensures
            r@ == self.generated(prompt, max_tokens as nat),
    {
        let mut engine = self.new_engine();
        engine.submit(1, prompt_ids, max_tokens);
        engine.run_one()
    }
}

/// Run a prompt through a fresh engine and return the decoded completion, the
/// number of prompt tokens and the number of completion tokens.
pub fn run_prompt<M: Model + ?Sized>(
    state: &AppState<M>,
    prompt: &str,
    max_tokens: usize,
) -> (r: (String, usize, usize))
    requires
        state.wf(),
        state.serves(prompt@),
    ensures
        r.0@ == tokeniser::decoded(state.generated(prompt@, max_tokens as nat)),
        r.1 == tokeniser::encoded(prompt@).len(),
        r.2 == state.generated(prompt@, max_tokens as nat).len(),
{
    let prompt_ids = tokeniser::encode(prompt);
    let prompt_len: usize = prompt_ids.len();
    let outputs = state.generate_tokens(prompt_ids, max_tokens, Ghost(prompt@));
    let text = tokeniser::decode(outputs.as_slice());
    (text, prompt_len, outputs.len())
}

/// The completion length of a request that names none.
pub fn default_max_tokens() -> (r: usize)
    ensures
        r == 32,
{
    32
}

/// The model name of a request that names none.
pub fn default_model_name() -> (r: String)
    ensures
        r@ == "forge-infer"@,
{
    "forge-infer".to_owned()
}

/// A request to the native endpoint.
#[derive(Debug, Clone)]
pub struct GenerateRequest {
    pub prompt: String,
    pub max_tokens: usize,
}

/// The answer of the native endpoint.
#[derive(Debug, Clone, PartialEq, Eq)]
pub struct GenerateResponse {
    pub text: String,
    pub prompt_tokens: usize,
    pub completion_tokens: usize,
}

/// Answer a request to the native endpoint.
pub fn generate<M: Model + ?Sized>(state: &AppState<M>, req: &GenerateRequest) -> (r:
    GenerateResponse)
    requires
        state.wf(),
        state.serves(req.prompt@),
    ensures
        r.text@ == tokeniser::decoded(state.generated(req.prompt@, req.max_tokens as nat)),
        r.prompt_tokens == tokeniser::encoded(req.prompt@).len(),
        r.completion_tokens == state.generated(req.prompt@, req.max_tokens as nat).len(),
{
    let (text, prompt_tokens, completion_tokens) = run_prompt(
        state,
        req.prompt.as_str(),
        req.max_tokens,
    );
    GenerateResponse { text, prompt_tokens, completion_tokens }
}

/// A request to the completions endpoint.
#[derive(Debug, Clone)]
pub struct CompletionRequest {
    pub prompt: String,
    pub max_tokens: usize,
    pub stream: bool,
    pub model: String,
}

/// One choice of a completion.
#[derive(Debug, Clone, PartialEq, Eq)]
pub struct CompletionChoice {
    pub text: String,
    pub index: usize,
    pub finish_reason: Option<String>,
}

/// A completion, or one chunk of a streamed completion.
#[derive(Debug, Clone, PartialEq, Eq)]
pub struct CompletionResponse {
    pub id: String,
    pub object: String,
    pub model: String,
    pub choices: Vec<CompletionChoice>,
}

impl CompletionResponse {
    /// Whether this is a text completion under a model name, with one choice
    /// that has a text and, if finished, the reason `stop`.
    pub open spec fn says(&self, model: Seq<char>, text: Seq<char>, finished: bool) -> bool {
        &&& self.id@ == "cmpl-forge"@
        &&& self.object@ == "text_completion"@
        &&& self.model@ == model
        &&& self.choices@.len() == 1
        &&& self.choices@[0].text@ == text
        &&& self.choices@[0].index == 0
        &&& match self.choices@[0].finish_reason {
            Some(reason) => finished && reason@ == "stop"@,
            None => !finished,
        }
    }
}

fn completion_response(model: &str, text: String, finished: bool) -> (r: CompletionResponse)
    ensures
        r.says(model@, text@, finished),
{
    let finish_reason = if finished {
        Some("stop".to_owned())
    } else {
        None
    };
    let mut choices: Vec<CompletionChoice> = Vec::new();
    choices.push(CompletionChoice { text, index: 0, finish_reason });
    CompletionResponse {
        id: "cmpl-forge".to_owned(),
        object: "text_completion".to_owned(),
        model: model.to_owned(),
        choices,
    }
}

/// Answer a completion request in one piece.
pub fn complete<M: Model + ?Sized>(state: &AppState<M>, req: &CompletionRequest) -> (r:
    CompletionResponse)
    requires
        state.wf(),
        state.serves(req.prompt@),
    ensures
        r.says(
            req.model@,
            tokeniser::decoded(state.generated(req.prompt@, req.max_tokens as nat)),
            true,
        ),
{
    let (text, _prompt_tokens, _completion_tokens) = run_prompt(
        state,
        req.prompt.as_str(),
        req.max_tokens,
    );
    completion_response(req.model.as_str(), text, true)
}

/// One event of a streamed completion.
#[derive(Debug, Clone, PartialEq, Eq)]
pub enum StreamEvent {
    /// The text of one token.
    Chunk(CompletionResponse),
    /// The end of the stream.
    Done,
}

/// Whether events stream tokens under a model name: one unfinished chunk for
/// each token, in order, and then the end.
pub open spec fn streams(
    events: Seq<StreamEvent>,
    model: Seq<char>,
    tokens: Seq<TokenId>,
) -> bool {
    &&& events.len() == tokens.len() + 1
    &&& forall|i: int|
        0 <= i < tokens.len() ==> match #[trigger] events[i] {
            StreamEvent::Chunk(chunk) => chunk.says(
                model,
                tokeniser::fragment(tokens[i]),
                false,
            ),
            StreamEvent::Done => false,
        }
    &&& events.last() is Done
}

/// Answer a completion request as a stream of events. The whole completion is
/// generated up front.
pub fn stream_completion<M: Model + ?Sized>(state: &AppState<M>, req: &CompletionRequest) -> (r:
    Vec<StreamEvent>)
    requires
        state.wf(),
        state.serves(req.prompt@),
    ensures
        streams(r@, req.model@, state.generated(req.prompt@, req.max_tokens as nat)),
{
    let prompt_ids = tokeniser::encode(req.prompt.as_str());
    let tokens = state.generate_tokens(prompt_ids, req.max_tokens, Ghost(req.prompt@));
    let mut events: Vec<StreamEvent> = Vec::new();
    let mut i: usize = 0;
    while i < tokens.len()
        invariant
            i <= tokens@.len(),
            events@.len() == i,
            forall|j: int|
                0 <= j < i ==> match #[trigger] events@[j] {
                    StreamEvent::Chunk(chunk) => chunk.says(
                        req.model@,
                        tokeniser::fragment(tokens@[j]),
                        false,
                    ),
                    StreamEvent::Done => false,
                },
        decreases tokens@.len() - i,
    {
        let frag = tokeniser::decode_one(tokens[i]);
        events.push(StreamEvent::Chunk(completion_response(req.model.as_str(), frag, false)));
        i = i + 1;
    }
    events.push(StreamEvent::Done);
    events
}

/// The answer of the completions endpoint.
#[derive(Debug, Clone, PartialEq, Eq)]
pub enum CompletionReply {
    /// A completion in one piece.
    Full(CompletionResponse),
    /// A streamed completion.
    Stream(Vec<StreamEvent>),
}

/// Answer a request to the completions endpoint: in one piece, or as a stream
/// if the request asks for one.
pub fn completions<M: Model + ?Sized>(state: &AppState<M>, req: &CompletionRequest) -> (r:
    CompletionReply)
    requires
        state.wf(),
        state.serves(req.prompt@),
    ensures
        match r {
            CompletionReply::Full(response) => !req.stream && response.says(
                req.model@,
                tokeniser::decoded(state.generated(req.prompt@, req.max_tokens as nat)),
                true,
            ),
            CompletionReply::Stream(events) => req.stream && streams(
                events@,
                req.model@,
                state.generated(req.prompt@, req.max_tokens as nat),
            ),
        },
{
    if req.stream {
        CompletionReply::Stream(stream_completion(state, req))
    } else {
        CompletionReply::Full(complete(state, req))
    }
}

/// A request is served by an engine that nothing was submitted to before: a
/// batch and a cache of the configured sizes, all blocks free, and the prompt's
/// tokens as its one request. What was generated is the output of that run.
pub proof fn law_prompt_runs_alone<M: Model + ?Sized>(
    state: &AppState<M>,
    prompt: Seq<char>,
    max_tokens: nat,
)
    ensures
        state.idle().max_batch == state.max_batch_size,
        state.idle().cache.num_blocks == state.blocks,
        state.idle().cache.block_size == state.block_size,
        state.idle().cache.free.len() == state.blocks,
        forall|s: u64| !(#[trigger] state.idle().cache.tables.contains_key(s)),
        state.idle().cache.peak == 0,
        state.idle().waiting.len() == 0,
        state.idle().running.len() == 0,
        state.generated(prompt, max_tokens) == engine::first_output(
            engine::run_emits(
                &*state.model,
                SchedView {
                    waiting: seq![
                        SeqView {
                            id: 1,
                            prompt: tokeniser::encoded(prompt),
                            output: Seq::empty(),
                            limit: max_tokens,
                            state: SeqState::Waiting,
                        },
                    ],
                    ..state.idle()
                },
                1_000_000,
            ),
        ),
{
    let q = SeqView::fresh(1, tokeniser::encoded(prompt), max_tokens);
    assert(state.idle().submit(q).waiting =~= seq![q]);
}

/// A completion has one form: under a given model name, text and state there is
/// one answer, and it names all three. It has one choice, at index zero, whose
/// reason to stop is given exactly if it is finished.
pub proof fn law_completions_name_what_they_say(
    a: &CompletionResponse,
    b: &CompletionResponse,
    model: Seq<char>,
    text: Seq<char>,
    finished: bool,
    model2: Seq<char>,
    text2: Seq<char>,
    finished2: bool,
)
    requires
        a.says(model, text, finished),
        b.says(model2, text2, finished2),
    ensures
        a.id@ == "cmpl-forge"@,
        a.object@ == "text_completion"@,
        a.model@ == model,
        a.choices@.len() == 1,
        a.choices@[0].text@ == text,
        a.choices@[0].index == 0,
        a.choices@[0].finish_reason is Some <==> finished,
        a.choices@[0].finish_reason matches Some(reason) ==> reason@ == "stop"@,
        a.id@ == b.id@,
        a.object@ == b.object@,
        a.model@ == b.model@ <==> model == model2,
        a.choices@[0].text@ == b.choices@[0].text@ <==> text == text2,
        a.choices@[0].finish_reason is Some == b.choices@[0].finish_reason is Some <==> finished
            == finished2,
{
}

/// The texts of the chunks of some events, one after the other.
pub open spec fn streamed_text(events: Seq<StreamEvent>) -> Seq<char>
    decreases events.len(),
{
    if events.len() == 0 {
        Seq::empty()
    } else {
        streamed_text(events.drop_last()) + match events.last() {
            StreamEvent::Chunk(chunk) => chunk.choices@[0].text@,
            StreamEvent::Done => Seq::empty(),
        }
    }
}

/// A stream carries each token once, in order, as the text that the token has
/// alone, and then ends. Its chunks together are the texts of the tokens, one
/// after the other. If these are ASCII, that is the text of the whole.
pub proof fn law_stream_carries_every_token(
    events: Seq<StreamEvent>,
    model: Seq<char>,
    tokens: Seq<TokenId>,
)
    requires
        streams(events, model, tokens),
    ensures
        events.len() == tokens.len() + 1,
        events.last() is Done,
        forall|i: int|
            0 <= i < tokens.len() ==> (#[trigger] events[i] matches StreamEvent::Chunk(chunk)
                && chunk.model@ == model && chunk.choices@.len() == 1 && chunk.choices@[0].text@
                == tokeniser::decoded(seq![tokens[i]]) && chunk.choices@[0].finish_reason is None),
        streamed_text(events) == tokeniser::fragments(tokens),
        tokeniser::is_ascii_tokens(tokens) ==> streamed_text(events) == tokeniser::decoded(
            tokens,
        ),
{
    assert forall|i: int| 0 <= i < tokens.len() implies tokeniser::fragment(tokens[i])
        == tokeniser::decoded(seq![#[trigger] tokens[i]]) by {
        tokeniser::law_fragment_is_the_text_of_one_token(tokens, tokens[i]);
    }
    assert forall|i: int| 0 <= i < tokens.len() implies (
    #[trigger] events[i] matches StreamEvent::Chunk(chunk) && chunk.model@ == model
        && chunk.choices@.len() == 1 && chunk.choices@[0].text@ == tokeniser::decoded(
        seq![tokens[i]],
    ) && chunk.choices@[0].finish_reason is None) by {
        assert(tokeniser::fragment(tokens[i]) == tokeniser::decoded(seq![tokens[i]]));
    }
    let n = tokens.len() as int;
    lemma_streamed(events, model, tokens, n);
    assert(events.take(n) =~= events.drop_last());
    assert(tokens.take(n) =~= tokens);
    assert(streamed_text(events) =~= streamed_text(events.drop_last()));
    if tokeniser::is_ascii_tokens(tokens) {
        tokeniser::law_streaming_matches_decoding(tokens);
    }
}

proof fn lemma_streamed(
    events: Seq<StreamEvent>,
    model: Seq<char>,
    tokens: Seq<TokenId>,
    n: int,
)
    requires
        streams(events, model, tokens),
        0 <= n <= tokens.len(),
    ensures
        streamed_text(events.take(n)) == tokeniser::fragments(tokens.take(n)),
    decreases n,
{
    if n > 0 {
        lemma_streamed(events, model, tokens, n - 1);
        assert(events.take(n).drop_last() =~= events.take(n - 1));
        assert(tokens.take(n).drop_last() =~= tokens.take(n - 1));
        assert(events.take(n).last() == events[n - 1]);
        assert(tokens.take(n).last() == tokens[n - 1]);
    } else {
        assert(streamed_text(events.take(0)) =~= tokeniser::fragments(tokens.take(0)));
    }
}

/// A prompt is answered with its completion: if the prompt and the completion fit
/// the cache, and the iterations suffice, the tokens generated are those of
/// decoding the prompt greedily up to the limit or the end of the sequence.
pub proof fn law_prompt_gets_its_completion<M: Model + ?Sized>(
    state: &AppState<M>,
    prompt: Seq<char>,
    max_tokens: nat,
)
    requires
        state.wf(),
        0 < state.max_batch_size,
        arith::ceil_div(
            tokeniser::encoded(prompt).len() + model::completion(
                &*state.model,
                tokeniser::encoded(prompt),
                max_tokens,
            ).len(),
            state.block_size as nat,
        ) <= state.blocks,
        model::completion(&*state.model, tokeniser::encoded(prompt), max_tokens).len()
            < engine::MAX_STEPS,
    ensures
        state.generated(prompt, max_tokens) == model::completion(
            &*state.model,
            tokeniser::encoded(prompt),
            max_tokens,
        ),
{
    let start = state.idle();
    let ids = tokeniser::encoded(prompt);
    let q = SeqView::fresh(1, ids, max_tokens);
    let s = start.submit(q);
    let fuel = engine::MAX_STEPS as nat;
    let emitted = engine::run_emits(&*state.model, s, fuel);
    let owed = model::completion(&*state.model, ids, max_tokens);
    paged_cache::lemma_fresh_wf(state.blocks as nat, state.block_size as nat);
    engine_laws::law_fresh_can_progress(&*state.model, start.max_batch, start.cache);
    engine_laws::law_submit_keeps_progress(&*state.model, start, 1, ids, max_tokens);
    engine_laws::law_every_request_is_answered(&*state.model, s, fuel);
    assert(s.request(1).output + engine::tokens_of(emitted, 1) =~= engine::tokens_of(emitted, 1));
    assert(engine::tokens_of(emitted, 1) == owed);
    assert forall|id: u64| id != 1 implies #[trigger] engine::tokens_of(emitted, id).len() == 0 by {
        assert(!s.has(id));
    }
    if owed.len() > 0 {
        assert(engine::is_least(emitted, 1));
        let least = choose|id: u64| engine::is_least(emitted, id);
        assert(engine::is_least(emitted, least));
        assert(engine::tokens_of(emitted, least).len() > 0);
        assert(least == 1);
    } else {
        assert(forall|id: u64| !engine::is_least(emitted, id)) by {
            assert forall|id: u64| !engine::is_least(emitted, id) by {
                assert(engine::tokens_of(emitted, id).len() == 0);
            }
        }
        assert(owed =~= Seq::empty());
    }
}

} // verus!
