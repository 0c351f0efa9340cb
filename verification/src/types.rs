//! Request types accepted by the server.
//!
//! Text fields are carried as UTF-8 bytes: the library works on bytes
//! throughout, and the HTTP layer converts between them and strings at the
//! boundary.

use vstd::prelude::*;

verus! {

/// Tokens a request may generate when it does not say.
pub const DEFAULT_MAX_TOKENS: usize = 256;

/// Parameters that control generation.
#[derive(Clone, Debug)]
pub struct GenerationParams {
    /// Most tokens this request may generate.
    pub max_tokens: usize,
}

impl Default for GenerationParams {
    /// A request that names no parameters generates at most
    /// `DEFAULT_MAX_TOKENS` tokens.
    fn default() -> (r: Self)
        ensures
            r.max_tokens == DEFAULT_MAX_TOKENS,
    {
        GenerationParams { max_tokens: DEFAULT_MAX_TOKENS }
    }
}

/// One call of the generate endpoint.
#[derive(Clone, Debug)]
pub struct GenerateRequest {
    /// Text prompt to feed into the model.
    pub prompt: Vec<u8>,
    /// The user's own message, without system prompt or history.
    pub user_message: Vec<u8>,
    /// Requested model, where the caller asks for one.
    pub model: Option<Vec<u8>>,
    /// Parameters that control generation.
    pub params: GenerationParams,
    /// Who is asking.
    pub username: Vec<u8>,
    /// Chat to continue; a fresh chat is opened when absent.
    pub chat_id: Option<i32>,
}

/// A validated request on its way from the HTTP handler into the engine
/// worker; the event channel that goes with it lives outside the library.
#[derive(Clone, Debug)]
pub struct ClientRequest {
    /// Prompt to feed into the model.
    pub prompt: Vec<u8>,
    /// Parameters that control generation.
    pub params: GenerationParams,
}

} // verus!
