//! The model host over a real tokenizer.

use llm_server::host::{new_session, ModelHost};
use llm_server::session::StepPlan;
use llm_server::types::GenerationParams;
use tokenizers::models::wordlevel::WordLevel;
use tokenizers::pre_tokenizers::whitespace::Whitespace;
use tokenizers::Tokenizer;

fn tiny_tokenizer() -> Tokenizer {
    let mut vocab = tokenizers::models::bpe::Vocab::default();
    vocab.insert("hello".to_string(), 0);
    vocab.insert("world".to_string(), 1);
    vocab.insert("<unk>".to_string(), 2);
    vocab.insert("</s>".to_string(), 3);
    let model = WordLevel::builder()
        .vocab(vocab)
        .unk_token("<unk>".to_string())
        .build()
        .expect("build word-level model");
    let mut tokenizer = Tokenizer::new(model);
    tokenizer.with_pre_tokenizer(Some(Whitespace));
    tokenizer
}

#[test]
fn host_finds_the_stop_token() {
    let host = ModelHost::new(tiny_tokenizer(), b"tiny".to_vec());
    assert_eq!(host.stop_token(), Some(3));
    assert_eq!(host.model_id(), &b"tiny".to_vec());
}

#[test]
fn host_encodes_and_decodes_through_the_vocabulary() {
    let host = ModelHost::new(tiny_tokenizer(), b"tiny".to_vec());
    let ids = host.encode(&b"hello world".to_vec()).expect("encode");
    assert_eq!(ids, vec![0, 1]);
    // Unknown words map to the unknown token, not to nothing.
    let ids = host.encode(&b"hello stranger".to_vec()).expect("encode");
    assert_eq!(ids, vec![0, 2]);
    let bytes = host.decode_token(1).expect("decode");
    assert_eq!(bytes, b"world".to_vec());
}

#[test]
fn sessions_inherit_stop_token_and_budget() {
    let host = ModelHost::new(tiny_tokenizer(), b"tiny".to_vec());
    let params = GenerationParams { max_tokens: 5 };
    let mut session = new_session(&host, &b"hello world".to_vec(), &params).expect("session");
    match session.plan_step(true) {
        StepPlan::Forward { ctx, offset } => {
            assert_eq!(ctx, vec![0, 1]);
            assert_eq!(offset, 0);
        },
        other => panic!("expected a forward plan, got {:?}", other),
    }
    // The stop token from the vocabulary ends generation.
    let out = session.apply_token(3, &Vec::new(), true);
    assert!(out.finished);
}

#[test]
fn encode_refuses_text_that_is_not_utf8() {
    let host = ModelHost::new(tiny_tokenizer(), b"tiny".to_vec());
    let r = host.encode(&vec![0xff, 0xfe]);
    assert_eq!(r, Err(llm_server::host::TokenizerError::EncodeFailed));
}

#[test]
fn oversized_budget_is_refused() {
    let host = ModelHost::new(tiny_tokenizer(), b"tiny".to_vec());
    let params = GenerationParams { max_tokens: usize::MAX - 1 };
    let r = new_session(&host, &b"hello world".to_vec(), &params);
    assert!(matches!(
        r,
        Err(llm_server::host::TokenizerError::PromptTooLong)
    ));
}
