//! The model host: the tokenizer side of the loaded model.
//!
//! The host owns the tokenizer, knows the loaded model's name and its stop
//! token, and turns prompts into token ids and token ids into bytes. The
//! weights, the device and the forward pass live outside the library; what
//! a token id decodes to depends on the tokenizer's vocabulary, so the
//! wrappers here promise nothing about the values and the rest of the
//! library is verified for every value they could hand back.

use vstd::prelude::*;

use crate::session::ClientRequestSession;
use crate::types::GenerationParams;

verus! {

/// Why the host could not serve a request.
#[derive(Clone, Copy, Debug, PartialEq, Eq, Structural)]
pub enum TokenizerError {
    /// The tokenizer refused the text, or the text was not UTF-8.
    EncodeFailed,
    /// The tokenizer could not render the token id.
    DecodeFailed,
    /// The encoded prompt leaves no room for the requested budget.
    PromptTooLong,
}

#[verifier::external_type_specification]
#[verifier::external_body]
pub struct ExTokenizer(tokenizers::Tokenizer);

/// Relies on tokenizers' `TokenizerImpl::encode` with special tokens
/// added: the ids of the text under the tokenizer's vocabulary. The ids
/// depend on the vocabulary, so nothing is promised of them.
#[verifier::external_body]
fn tokenizer_encode(tokenizer: &tokenizers::Tokenizer, text: &Vec<u8>) -> (r: Result<
    Vec<u32>,
    TokenizerError,
>) {
    let s = match String::from_utf8(text.clone()) {
        Ok(s) => s,
        Err(_) => {
            return Err(TokenizerError::EncodeFailed);
        },
    };
    match tokenizer.encode(s, true) {
        Ok(encoding) => Ok(encoding.get_ids().to_vec()),
        Err(_) => Err(TokenizerError::EncodeFailed),
    }
}

/// Relies on tokenizers' `TokenizerImpl::decode` skipping special tokens:
/// the text of one token id. The bytes depend on the vocabulary, so
/// nothing is promised of them.
#[verifier::external_body]
fn tokenizer_decode(tokenizer: &tokenizers::Tokenizer, id: u32) -> (r: Result<
    Vec<u8>,
    TokenizerError,
>) {
    match tokenizer.decode(&[id], true) {
        Ok(s) => Ok(s.into_bytes()),
        Err(_) => Err(TokenizerError::DecodeFailed),
    }
}

/// Relies on tokenizers' `TokenizerImpl::token_to_id`: the id of one
/// vocabulary token, where the vocabulary has it.
#[verifier::external_body]
fn tokenizer_token_id(tokenizer: &tokenizers::Tokenizer, token: &str) -> (r: Option<u32>) {
    tokenizer.token_to_id(token)
}

/// The tokenizer side of the loaded model: process-wide, created once at
/// startup, never mutated after.
pub struct ModelHost {
    tokenizer: tokenizers::Tokenizer,
    model_id: Vec<u8>,
    stop_token: Option<u32>,
}

impl ModelHost {
    /// The loaded model's name.
    pub closed spec fn model_id_bytes(&self) -> Seq<u8> {
        self.model_id@
    }

    /// The vocabulary's end-of-sequence token id, where it has one.
    pub closed spec fn stop_token_id(&self) -> Option<u32> {
        self.stop_token
    }

    /// A host over a loaded tokenizer, looking the stop token up once.
    pub fn new(tokenizer: tokenizers::Tokenizer, model_id: Vec<u8>) -> (r: ModelHost)
        ensures
            r.model_id_bytes() == model_id@,
    {
        let stop_token = tokenizer_token_id(&tokenizer, "</s>");
        ModelHost { tokenizer, model_id, stop_token }
    }

    /// The loaded model's name.
    pub fn model_id(&self) -> (r: &Vec<u8>)
        ensures
            r@ == self.model_id_bytes(),
    {
        &self.model_id
    }

    /// The end-of-sequence token id, where the vocabulary has one.
    pub fn stop_token(&self) -> (r: Option<u32>)
        ensures
            r == self.stop_token_id(),
    {
        self.stop_token
    }

    /// Encodes text into token ids, including the model's special markers.
    pub fn encode(&self, text: &Vec<u8>) -> (r: Result<Vec<u32>, TokenizerError>) {
        tokenizer_encode(&self.tokenizer, text)
    }

    /// The bytes one generated token id stands for.
    pub fn decode_token(&self, id: u32) -> (r: Result<Vec<u8>, TokenizerError>) {
        tokenizer_decode(&self.tokenizer, id)
    }
}

/// Builds the session for an admitted prompt: encodes it and binds the
/// model's stop token and the request's budget. Refused when the tokenizer
/// refuses the text or the encoded prompt leaves no room for the budget.
pub fn new_session(host: &ModelHost, prompt: &Vec<u8>, params: &GenerationParams) -> (r: Result<
    ClientRequestSession,
    TokenizerError,
>)
    requires
        params.max_tokens < usize::MAX,
    ensures
        match r {
            Result::Ok(s) => {
                &&& s@.wf()
                &&& s@.tokens == s@.prompt
                &&& s@.ctx_index == 0
                &&& s@.eos_token == host.stop_token_id()
                &&& s@.max_tokens == params.max_tokens as int
                &&& s@.generated == 0
                &&& s@.streamed == 0
                &&& s@.pending == Seq::<u8>::empty()
                &&& s@.fed == Seq::<u8>::empty()
                &&& s@.log == Seq::<crate::events::EventSpec>::empty()
                &&& !s@.done
                &&& !s@.cancelled
            },
            Result::Err(e) => e == TokenizerError::EncodeFailed || e
                == TokenizerError::PromptTooLong,
        },
{
    let tokens = match host.encode(prompt) {
        Result::Ok(tokens) => tokens,
        Result::Err(_) => {
            return Result::Err(TokenizerError::EncodeFailed);
        },
    };
    if tokens.len() > usize::MAX - params.max_tokens {
        return Result::Err(TokenizerError::PromptTooLong);
    }
    Result::Ok(ClientRequestSession::new(tokens, host.stop_token(), params.max_tokens))
}

} // verus!
