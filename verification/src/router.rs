//! Request validation and the generate flow.
//!
//! Every generate call is validated first: a prompt that is blank after
//! trimming, or a request for a model other than the loaded one, is
//! answered with a single error event and touches nothing. A valid request
//! is admitted: the user is created or found, the chat id is resolved, the
//! user's message is appended to the store, and the prompt is wrapped in
//! the model's instruction template, ready for tokenisation.

use vstd::prelude::*;
use vstd::utf8::encode_utf8;

use crate::events::{EventSpec, EventToServer};
use crate::sse::{append_bytes, append_lit};
use crate::store::{chat_msgs, has_user, max_chat_id, user_index, ChatStore, StoreModel};
use crate::types::{GenerateRequest, GenerationParams};

verus! {

/// True for the ASCII whitespace bytes: tab, line feed, form feed,
/// carriage return and space.
pub open spec fn is_ascii_whitespace(b: u8) -> bool {
    b == 0x09 || b == 0x0a || b == 0x0c || b == 0x0d || b == 0x20
}

/// True when every byte is whitespace, so the text is blank.
pub open spec fn is_blank(s: Seq<u8>) -> bool {
    forall|i: int| 0 <= i < s.len() ==> is_ascii_whitespace(#[trigger] s[i])
}

/// Decides whether a prompt is blank: empty after trimming whitespace.
pub fn prompt_is_blank(s: &Vec<u8>) -> (r: bool)
    ensures
        r == is_blank(s@),
{
    let mut i: usize = 0;
    while i < s.len()
        invariant
            0 <= i <= s@.len(),
            forall|j: int| 0 <= j < i ==> is_ascii_whitespace(#[trigger] s@[j]),
        decreases s@.len() - i,
    {
        let b = s[i];
        if !(b == 0x09 || b == 0x0a || b == 0x0c || b == 0x0d || b == 0x20) {
            return false;
        }
        i += 1;
    }
    true
}

/// The error body for a blank prompt.
pub open spec fn empty_prompt_message() -> Seq<u8> {
    encode_utf8("prompt must not be empty"@)
}

/// The error body when the requested model is not the loaded one.
pub open spec fn wrong_model_message(requested: Seq<u8>, loaded: Seq<u8>) -> Seq<u8> {
    encode_utf8("requested model `"@) + requested + encode_utf8("` is unavailable, only `"@)
        + loaded + encode_utf8("` is loaded"@)
}

/// True when the request asks for a model other than the loaded one.
pub open spec fn model_mismatch(model: Option<Vec<u8>>, loaded: Seq<u8>) -> bool {
    match model {
        Option::Some(m) => m@ != loaded,
        Option::None => false,
    }
}

/// Validates one generate request: a blank prompt or an unknown model is
/// answered with the error event to stream; a valid request gets nothing.
pub fn validate_generate(req: &GenerateRequest, loaded_model: &Vec<u8>) -> (r: Option<
    EventToServer,
>)
    ensures
        match r {
            Option::Some(ev) => if is_blank(req.prompt@) {
                ev@ == (EventSpec::Error { message: empty_prompt_message() })
            } else {
                &&& model_mismatch(req.model, loaded_model@)
                &&& ev@ == (EventSpec::Error {
                    message: wrong_model_message(req.model.unwrap()@, loaded_model@),
                })
            },
            Option::None => !is_blank(req.prompt@) && !model_mismatch(req.model, loaded_model@),
        },
{
    if prompt_is_blank(&req.prompt) {
        let mut message: Vec<u8> = Vec::new();
        append_lit(&mut message, "prompt must not be empty");
        proof {
            assert(message@ =~= empty_prompt_message());
        }
        return Option::Some(EventToServer::Error { message });
    }
    match &req.model {
        Option::Some(model) => {
            if !(*model == *loaded_model) {
                proof {
                    if model@ == loaded_model@ {
                        assert(model@ =~= loaded_model@);
                        assert(false);
                    }
                }
                let mut message: Vec<u8> = Vec::new();
                append_lit(&mut message, "requested model `");
                append_bytes(&mut message, model);
                append_lit(&mut message, "` is unavailable, only `");
                append_bytes(&mut message, loaded_model);
                append_lit(&mut message, "` is loaded");
                Option::Some(EventToServer::Error { message })
            } else {
                proof {
                    assert(model@ =~= loaded_model@);
                }
                Option::None
            }
        },
        Option::None => Option::None,
    }
}

/// What the router hands on once a request is admitted: who is asking, the
/// chat the reply belongs to, the templated prompt ready for tokenisation,
/// and the generation parameters.
pub struct Admission {
    pub user_id: i32,
    pub chat_id: i32,
    pub prompt: Vec<u8>,
    pub params: GenerationParams,
}

/// The fixed instruction template the loaded model expects around a
/// prompt.
pub open spec fn prompt_template(user_text: Seq<u8>) -> Seq<u8> {
    encode_utf8("<s>[INST] <<SYS>>You are a helpful assistant.<</SYS>> "@) + user_text
        + encode_utf8(" [/INST]"@)
}

/// Wraps a prompt in the model's instruction template.
pub fn wrap_prompt(user_text: &Vec<u8>) -> (r: Vec<u8>)
    ensures
        r@ == prompt_template(user_text@),
{
    let mut r: Vec<u8> = Vec::new();
    append_lit(&mut r, "<s>[INST] <<SYS>>You are a helpful assistant.<</SYS>> ");
    append_bytes(&mut r, user_text);
    append_lit(&mut r, " [/INST]");
    r
}

/// The chat id a request resolves to: the one it names, or the user's next
/// fresh one.
pub open spec fn resolved_chat_id(m: StoreModel, requested: Option<i32>, uid: int) -> int {
    match requested {
        Option::Some(c) => c as int,
        Option::None => max_chat_id(m.rows, uid) + 1,
    }
}

/// The body stored as the user's message: the `user_message` field where
/// the caller supplies one — the message without system prompt or history —
/// and the raw prompt otherwise, so a request that sends only a prompt
/// still records what the user asked. The instruction-template wrapping is
/// never persisted; it exists only in the admission's prompt.
pub open spec fn persisted_user_body(req: GenerateRequest) -> Seq<u8> {
    if req.user_message@.len() == 0 {
        req.prompt@
    } else {
        req.user_message@
    }
}

/// Handles one generate request against the store. An invalid request is
/// answered with its error event and the store is untouched; a valid one
/// is admitted: the user is created or found, the chat id resolved, the
/// user's message appended with the next dense message id, and the prompt
/// wrapped in the instruction template.
pub fn handle_generate(
    store: &mut ChatStore,
    req: &GenerateRequest,
    model_id: i32,
    timestamp: &Vec<u8>,
    loaded_model: &Vec<u8>,
) -> (r: Result<Admission, EventToServer>)
    requires
        old(store)@.wf(),
        old(store)@.users.len() < i32::MAX,
        old(store)@.rows.len() < i32::MAX,
        req.chat_id is None ==> max_chat_id(
            old(store)@.rows,
            if has_user(old(store)@.users, req.username@) {
                user_index(old(store)@.users, req.username@) + 1
            } else {
                old(store)@.users.len() as int + 1
            },
        ) < i32::MAX,
    ensures
        final(store)@.wf(),
        match r {
            Result::Err(ev) => {
                &&& final(store)@ == old(store)@
                &&& if is_blank(req.prompt@) {
                    ev@ == (EventSpec::Error { message: empty_prompt_message() })
                } else {
                    &&& model_mismatch(req.model, loaded_model@)
                    &&& ev@ == (EventSpec::Error {
                        message: wrong_model_message(req.model.unwrap()@, loaded_model@),
                    })
                }
            },
            Result::Ok(adm) => {
                let users1 = if has_user(old(store)@.users, req.username@) {
                    old(store)@.users
                } else {
                    old(store)@.users.push(req.username@)
                };
                let uid = user_index(users1, req.username@) + 1;
                let cid = resolved_chat_id(old(store)@, req.chat_id, uid);
                &&& !is_blank(req.prompt@)
                &&& !model_mismatch(req.model, loaded_model@)
                &&& adm.user_id as int == uid
                &&& adm.chat_id as int == cid
                &&& adm.prompt@ == prompt_template(req.prompt@)
                &&& adm.params.max_tokens == req.params.max_tokens
                &&& final(store)@ == (StoreModel {
                    users: users1,
                    rows: old(store)@.rows.push(
                        crate::store::RowModel {
                            user_id: uid,
                            model_id: model_id as int,
                            chat_id: cid,
                            message_id: chat_msgs(old(store)@.rows, uid, cid).len() as int + 1,
                            body: persisted_user_body(*req),
                            timestamp: timestamp@,
                        },
                    ),
                    ..old(store)@
                })
            },
        },
{
    if let Option::Some(ev) = validate_generate(req, loaded_model) {
        return Result::Err(ev);
    }
    let user_id = store.ensure_user(&req.username);
    let chat_id = match req.chat_id {
        Option::Some(c) => c,
        Option::None => store.next_chat_id(user_id),
    };
    let body = if req.user_message.len() == 0 {
        &req.prompt
    } else {
        &req.user_message
    };
    let result = store.add_message(&req.username, model_id, chat_id, body, timestamp);
    proof {
        assert(result is Ok);
    }
    let admission = Admission {
        user_id,
        chat_id,
        prompt: wrap_prompt(&req.prompt),
        params: GenerationParams { max_tokens: req.params.max_tokens },
    };
    Result::Ok(admission)
}

} // verus!
