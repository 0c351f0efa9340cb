//! The chat store and the generate flow.

use llm_server::events::EventToServer;
use llm_server::router::{handle_generate, validate_generate, wrap_prompt};
use llm_server::sse::frame_for_event;
use llm_server::store::{ChatStore, FetchRequest, FetchResponse, HistoryRequest, StoreError};
use llm_server::types::{GenerateRequest, GenerationParams};

fn request(prompt: &[u8], username: &[u8]) -> GenerateRequest {
    GenerateRequest {
        prompt: prompt.to_vec(),
        user_message: prompt.to_vec(),
        model: None,
        params: GenerationParams::default(),
        username: username.to_vec(),
        chat_id: None,
    }
}

fn loaded_model() -> Vec<u8> {
    b"TinyLlama/TinyLlama-1.1B-Chat-v1.0".to_vec()
}

#[test]
fn default_budget_is_256_tokens() {
    assert_eq!(GenerationParams::default().max_tokens, 256);
}

#[test]
fn ensure_user_is_idempotent() {
    let mut store = ChatStore::new();
    let first = store.ensure_user(&b"alice".to_vec());
    let second = store.ensure_user(&b"alice".to_vec());
    assert_eq!(first, second);
    assert_eq!(store.get_user_id(&b"alice".to_vec()), Ok(first));
    let other = store.ensure_user(&b"bob".to_vec());
    assert_ne!(first, other);
}

#[test]
fn unknown_user_is_refused() {
    let store = ChatStore::new();
    assert_eq!(
        store.get_user_id(&b"nobody".to_vec()),
        Err(StoreError::UserNotFound)
    );
    let mut store = ChatStore::new();
    let refused = store.add_message(
        &b"nobody".to_vec(),
        1,
        1,
        &b"hi".to_vec(),
        &b"2024-01-01 00:00:00".to_vec(),
    );
    assert_eq!(refused, Err(StoreError::UserNotFound));
}

#[test]
fn message_ids_are_dense_from_one() {
    let mut store = ChatStore::new();
    store.add_user(b"alice".to_vec());
    let ts = b"2024-01-01 00:00:00".to_vec();
    for body in [b"one".to_vec(), b"two".to_vec(), b"three".to_vec()] {
        store
            .add_message(&b"alice".to_vec(), 1, 1, &body, &ts)
            .unwrap();
    }
    let user_id = store.get_user_id(&b"alice".to_vec()).unwrap();
    let msgs = store.retrieve_chat(user_id, 1);
    let ids: Vec<i32> = msgs.iter().map(|m| m.0).collect();
    assert_eq!(ids, vec![1, 2, 3]);
    assert_eq!(msgs[0].1, b"one".to_vec());
    assert_eq!(msgs[2].1, b"three".to_vec());
}

#[test]
fn chats_are_numbered_independently() {
    let mut store = ChatStore::new();
    store.add_user(b"alice".to_vec());
    let user_id = store.get_user_id(&b"alice".to_vec()).unwrap();
    assert_eq!(store.next_chat_id(user_id), 1);
    let ts = b"t".to_vec();
    store
        .add_message(&b"alice".to_vec(), 1, 1, &b"a".to_vec(), &ts)
        .unwrap();
    store
        .add_message(&b"alice".to_vec(), 1, 2, &b"b".to_vec(), &ts)
        .unwrap();
    store
        .add_message(&b"alice".to_vec(), 1, 1, &b"c".to_vec(), &ts)
        .unwrap();
    assert_eq!(store.next_chat_id(user_id), 3);
    assert_eq!(store.next_message_id(user_id, 1), 3);
    assert_eq!(store.next_message_id(user_id, 2), 2);
}

#[test]
fn fetch_chat_reports_missing_user_and_chat() {
    let mut store = ChatStore::new();
    let r = store.fetch_chat(&FetchRequest { username: b"ghost".to_vec(), chat_id: 1 });
    match r {
        FetchResponse::Error { message } => {
            assert_eq!(message, b"no user exists with that name".to_vec());
        },
        other => panic!("expected an error, got {:?}", other),
    }
    store.add_user(b"ghost".to_vec());
    let r = store.fetch_chat(&FetchRequest { username: b"ghost".to_vec(), chat_id: 7 });
    match r {
        FetchResponse::Error { message } => {
            assert_eq!(
                message,
                b"no chat history found for user `ghost` with chat ID `7`".to_vec()
            );
        },
        other => panic!("expected an error, got {:?}", other),
    }
}

#[test]
fn fetch_history_lists_latest_message_per_chat() {
    let mut store = ChatStore::new();
    store.add_user(b"alice".to_vec());
    let ts = b"t".to_vec();
    store.add_message(&b"alice".to_vec(), 1, 2, &b"two-old".to_vec(), &ts).unwrap();
    store.add_message(&b"alice".to_vec(), 1, 1, &b"one-old".to_vec(), &ts).unwrap();
    store.add_message(&b"alice".to_vec(), 1, 2, &b"two-new".to_vec(), &ts).unwrap();
    store.add_message(&b"alice".to_vec(), 1, 1, &b"one-new".to_vec(), &ts).unwrap();
    let history = store.fetch_history(&HistoryRequest { username: b"alice".to_vec() });
    assert_eq!(history.len(), 2);
    assert_eq!(history[0].chat_id, 1);
    assert_eq!(history[0].latest_msg, b"one-new".to_vec());
    assert_eq!(history[1].chat_id, 2);
    assert_eq!(history[1].latest_msg, b"two-new".to_vec());
    let none = store.fetch_history(&HistoryRequest { username: b"bob".to_vec() });
    assert!(none.is_empty());
}

#[test]
fn blank_prompt_is_answered_with_one_error_frame() {
    let mut store = ChatStore::new();
    let req = request(b"   ", b"u");
    let r = handle_generate(&mut store, &req, 1, &b"t".to_vec(), &loaded_model());
    let ev = match r {
        Err(ev) => ev,
        Ok(_) => panic!("a blank prompt must be refused"),
    };
    let frame = frame_for_event(&ev);
    assert_eq!(
        frame,
        b"data: {\"error\":\"prompt must not be empty\"}\n\n".to_vec()
    );
    // The store is unchanged: the user was never created.
    assert_eq!(
        store.get_user_id(&b"u".to_vec()),
        Err(StoreError::UserNotFound)
    );
}

#[test]
fn unknown_model_is_refused_naming_both_models() {
    let mut store = ChatStore::new();
    let mut req = request(b"hi", b"u");
    req.model = Some(b"foo".to_vec());
    let r = handle_generate(&mut store, &req, 1, &b"t".to_vec(), &loaded_model());
    let ev = match r {
        Err(ev) => ev,
        Ok(_) => panic!("an unknown model must be refused"),
    };
    match ev {
        EventToServer::Error { message } => {
            assert_eq!(
                message,
                b"requested model `foo` is unavailable, only `TinyLlama/TinyLlama-1.1B-Chat-v1.0` is loaded"
                    .to_vec()
            );
        },
        other => panic!("expected an error event, got {:?}", other),
    }
    assert_eq!(
        store.get_user_id(&b"u".to_vec()),
        Err(StoreError::UserNotFound)
    );
}

#[test]
fn matching_model_passes_validation() {
    let mut req = request(b"hi", b"u");
    req.model = Some(loaded_model());
    assert!(validate_generate(&req, &loaded_model()).is_none());
}

#[test]
fn happy_path_persists_prompt_then_reply() {
    let mut store = ChatStore::new();
    let ts = b"t".to_vec();
    let req = request(b"hi", b"alice");
    let adm = handle_generate(&mut store, &req, 1, &ts, &loaded_model()).unwrap();
    assert_eq!(adm.chat_id, 1);
    let mut expected_prompt =
        b"<s>[INST] <<SYS>>You are a helpful assistant.<</SYS>> ".to_vec();
    expected_prompt.extend_from_slice(b"hi");
    expected_prompt.extend_from_slice(b" [/INST]");
    assert_eq!(adm.prompt, expected_prompt);
    // The bridge persists the reply on Done.
    store
        .add_message(&b"alice".to_vec(), 1, adm.chat_id, &b"hello there".to_vec(), &ts)
        .unwrap();
    let msgs = store.retrieve_chat(adm.user_id, adm.chat_id);
    assert_eq!(msgs.len(), 2);
    assert_eq!(msgs[0], (1, b"hi".to_vec(), ts.clone()));
    assert_eq!(msgs[1], (2, b"hello there".to_vec(), ts.clone()));
}

#[test]
fn chat_resume_appends_messages_three_and_four() {
    let mut store = ChatStore::new();
    let ts = b"t".to_vec();
    // First exchange in chat 1.
    let req = request(b"hi", b"alice");
    let adm = handle_generate(&mut store, &req, 1, &ts, &loaded_model()).unwrap();
    store
        .add_message(&b"alice".to_vec(), 1, adm.chat_id, &b"reply-one".to_vec(), &ts)
        .unwrap();
    // Two resumes of the same chat.
    let mut req2 = request(b"again", b"alice");
    req2.chat_id = Some(1);
    let adm2 = handle_generate(&mut store, &req2, 1, &ts, &loaded_model()).unwrap();
    assert_eq!(adm2.chat_id, 1);
    store
        .add_message(&b"alice".to_vec(), 1, 1, &b"reply-two".to_vec(), &ts)
        .unwrap();
    let msgs = store.retrieve_chat(adm.user_id, 1);
    let ids: Vec<i32> = msgs.iter().map(|m| m.0).collect();
    assert_eq!(ids, vec![1, 2, 3, 4]);
    assert_eq!(msgs[2].1, b"again".to_vec());
    // The history shows the last reply of the chat.
    let history = store.fetch_history(&HistoryRequest { username: b"alice".to_vec() });
    assert_eq!(history.len(), 1);
    assert_eq!(history[0].chat_id, 1);
    assert_eq!(history[0].latest_msg, b"reply-two".to_vec());
}

#[test]
fn wrap_prompt_uses_the_fixed_template() {
    let wrapped = wrap_prompt(&b"what is an llm?".to_vec());
    assert_eq!(
        wrapped,
        b"<s>[INST] <<SYS>>You are a helpful assistant.<</SYS>> what is an llm? [/INST]".to_vec()
    );
}

#[test]
fn next_chat_id_follows_the_largest_used_id() {
    let mut store = ChatStore::new();
    store.add_user(b"alice".to_vec());
    let user_id = store.get_user_id(&b"alice".to_vec()).unwrap();
    let ts = b"t".to_vec();
    // Chat ids come from requests, so the largest used one can be
    // negative; the next id is still one past it.
    store
        .add_message(&b"alice".to_vec(), 1, -5, &b"m".to_vec(), &ts)
        .unwrap();
    assert_eq!(store.next_chat_id(user_id), -4);
    store
        .add_message(&b"alice".to_vec(), 1, 7, &b"m".to_vec(), &ts)
        .unwrap();
    assert_eq!(store.next_chat_id(user_id), 8);
}

#[test]
fn add_model_appends_a_row_per_call() {
    let mut store = ChatStore::new();
    let first = store.add_model(&b"tiny".to_vec());
    let second = store.add_model(&b"tiny".to_vec());
    assert_eq!(first, 1);
    assert_eq!(second, 2);
}

#[test]
fn bare_prompt_request_persists_the_prompt_text() {
    // A request that sends only a prompt — the wire default leaves
    // user_message empty — still records what the user asked.
    let mut store = ChatStore::new();
    let ts = b"t".to_vec();
    let mut req = request(b"hi", b"alice");
    req.user_message = Vec::new();
    let adm = handle_generate(&mut store, &req, 1, &ts, &loaded_model()).unwrap();
    let msgs = store.retrieve_chat(adm.user_id, adm.chat_id);
    assert_eq!(msgs.len(), 1);
    assert_eq!(msgs[0], (1, b"hi".to_vec(), ts.clone()));
}

#[test]
fn supplied_user_message_is_persisted_over_the_prompt() {
    let mut store = ChatStore::new();
    let ts = b"t".to_vec();
    let mut req = request(b"templated question", b"alice");
    req.user_message = b"question".to_vec();
    let adm = handle_generate(&mut store, &req, 1, &ts, &loaded_model()).unwrap();
    let msgs = store.retrieve_chat(adm.user_id, adm.chat_id);
    assert_eq!(msgs.len(), 1);
    assert_eq!(msgs[0], (1, b"question".to_vec(), ts.clone()));
}
