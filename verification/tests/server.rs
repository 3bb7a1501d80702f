use forge_infer::default_state;
use forge_infer::model::{Model, TinyTransformer};
use forge_infer::server::{
    complete, completions, default_max_tokens, default_model_name, generate, run_prompt,
    stream_completion, AppState, CompletionReply, CompletionRequest, GenerateRequest, StreamEvent,
};
use forge_infer::tokeniser::{decode, decode_one, encode, EOS_TOKEN, VOCAB_SIZE};
use std::sync::Arc;

fn state() -> AppState<dyn Model> {
    AppState {
        model: Arc::new(TinyTransformer::new(VOCAB_SIZE, 4).with_eos(EOS_TOKEN)),
        blocks: 256,
        block_size: 16,
        max_batch_size: 8,
    }
}

fn request(prompt: &str, max_tokens: usize, stream: bool) -> CompletionRequest {
    CompletionRequest {
        prompt: prompt.to_string(),
        max_tokens,
        stream,
        model: "forge-infer".to_string(),
    }
}

#[test]
fn run_prompt_produces_text() {
    let st = state();
    let (text, p, c) = run_prompt(&st, "hello", 16);
    assert!(p > 0);
    assert!(c > 0);
    // The completion is deterministic, so it is stable but we only assert it
    // is non-empty and valid here.
    assert!(!text.is_empty() || c > 0);
}

#[test]
fn a_prompt_gets_its_greedy_completion() {
    let tokens = [
        76, 262, 199, 32, 76, 130, 299, 292, 60, 260, 110, 285, 201, 315, 62, 258,
    ];
    let (text, p, c) = run_prompt(&state(), "hello", 16);
    assert_eq!(text, decode(&tokens));
    assert_eq!(p, 5);
    assert_eq!(c, 16);
}

#[test]
fn generate_answers_a_prompt() {
    let req = GenerateRequest {
        prompt: "hello forge".to_string(),
        max_tokens: 24,
    };
    let response = generate(&default_state(), &req);
    assert_eq!(response.prompt_tokens, 11);
    assert_eq!(response.completion_tokens, 24);
    let tokens = [
        185, 284, 24, 15, 149, 189, 4, 108, 169, 160, 160, 105, 135, 261, 291, 288, 200, 165, 239,
        226, 89, 168, 294, 80,
    ];
    assert_eq!(response.text, decode(&tokens));
}

#[test]
fn a_completion_comes_in_one_piece() {
    let req = request("the quick brown fox", 16, false);
    let tokens = [
        114, 201, 37, 272, 29, 278, 191, 121, 72, 143, 145, 91, 85, 270, 53, 53,
    ];
    let response = match completions(&default_state(), &req) {
        CompletionReply::Full(response) => response,
        CompletionReply::Stream(_) => panic!("no stream was asked for"),
    };
    assert_eq!(response.id, "cmpl-forge");
    assert_eq!(response.object, "text_completion");
    assert_eq!(response.model, "forge-infer");
    assert_eq!(response.choices.len(), 1);
    assert_eq!(response.choices[0].text, decode(&tokens));
    assert_eq!(response.choices[0].index, 0);
    assert_eq!(response.choices[0].finish_reason, Some("stop".to_string()));
    assert_eq!(complete(&default_state(), &req), response);
}

#[test]
fn a_completion_can_be_streamed() {
    let req = request("stream me", 20, true);
    // The eighth token ends the sequence.
    let tokens = [149, 179, 30, 268, 159, 107, 175, 0];
    let events = match completions(&default_state(), &req) {
        CompletionReply::Stream(events) => events,
        CompletionReply::Full(_) => panic!("a stream was asked for"),
    };
    assert_eq!(events.len(), tokens.len() + 1);
    assert_eq!(events[tokens.len()], StreamEvent::Done);
    for (event, token) in events.iter().zip(tokens) {
        match event {
            StreamEvent::Chunk(chunk) => {
                assert_eq!(chunk.id, "cmpl-forge");
                assert_eq!(chunk.object, "text_completion");
                assert_eq!(chunk.model, "forge-infer");
                assert_eq!(chunk.choices.len(), 1);
                assert_eq!(chunk.choices[0].text, decode_one(token));
                assert_eq!(chunk.choices[0].index, 0);
                assert_eq!(chunk.choices[0].finish_reason, None);
            }
            StreamEvent::Done => panic!("the stream ends after its tokens"),
        }
    }
    assert_eq!(stream_completion(&default_state(), &req), events);
}

#[test]
fn an_empty_completion_streams_only_its_end() {
    assert_eq!(
        stream_completion(&default_state(), &request("x", 0, true)),
        vec![StreamEvent::Done]
    );
    assert_eq!(run_prompt(&default_state(), "", 3).1, 0);
    assert_eq!(run_prompt(&default_state(), "", 3).2, 3);
}

#[test]
fn a_prompt_larger_than_the_cache_gets_nothing() {
    let small = AppState {
        model: Arc::new(TinyTransformer::new(VOCAB_SIZE, 4)),
        blocks: 1,
        block_size: 2,
        max_batch_size: 1,
    };
    assert_eq!(run_prompt(&small, "hello", 4), (String::new(), 5, 0));
}

#[test]
fn requests_do_not_disturb_one_another() {
    let st = state();
    let copy = st.clone();
    assert_eq!(copy.blocks, 256);
    assert_eq!(copy.block_size, 16);
    assert_eq!(copy.max_batch_size, 8);
    assert!(Arc::ptr_eq(&st.model, &copy.model));
    let first = run_prompt(&st, "hello", 16);
    run_prompt(&copy, "something else", 7);
    assert_eq!(run_prompt(&copy, "hello", 16), first);
}

#[test]
fn defaults_are_as_documented() {
    assert_eq!(default_max_tokens(), 32);
    assert_eq!(default_model_name(), "forge-infer");
    let st = default_state();
    assert_eq!(st.blocks, 512);
    assert_eq!(st.block_size, 16);
    assert_eq!(st.max_batch_size, 16);
    assert_eq!(st.model.vocab_size(), VOCAB_SIZE);
    assert_eq!(st.model.num_layers(), 6);
    assert_eq!(st.model.eos_token(), EOS_TOKEN);
    let mut engine = st.new_engine();
    engine.submit(4, encode("hello forge"), 3);
    assert_eq!(engine.run_one(), vec![185, 284, 24]);
}
