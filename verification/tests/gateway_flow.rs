use std::cell::RefCell;

use base64::{engine::general_purpose::STANDARD as B64, Engine as _};
use zk_llm_gateway::crypto::Uuid;
use zk_llm_gateway::envelope::{seal_request_for_gateway, GatewayKeypair};
use zk_llm_gateway::gateway::{
    cors_origins, error_payload, extract_provider_output, invalid_request_payload, jitter_ms,
    judge_reply, map_zk_error, open_envelope, oversize_payload, provider_url, remaining_delay,
    seal_answer, seal_fitting_answer, Action, ApiError, EncryptedError, Event, InferFlow,
    ProviderChatCompletionRequest, ProviderReply, Stage,
};
use zk_llm_gateway::json::{unsigned, Json};
use zk_llm_gateway::replay::{SwapOutcome, SwapRequest};
use zk_llm_gateway::token::TokenClass;
use zk_llm_gateway::types::{
    ChatMessage, ErrorResponse, GatewayEnvelopePayload, InferenceRequest,
};
use zk_llm_gateway::zk::{
    replay_key, sha256, B64Bytes, VerifiedTicket, ZkTicket, ZkVerifyError,
};

fn new_id() -> Uuid {
    Uuid { bytes: uuid::Uuid::new_v4().into_bytes() }
}

fn message(role: &str, content: &str) -> ChatMessage {
    ChatMessage { role: role.to_string(), content: content.to_string(), extra: vec![] }
}

fn request() -> InferenceRequest {
    let mut request = InferenceRequest {
        request_id: new_id(),
        model: "synthetic-model".to_string(),
        messages: vec![message("user", "synthetic source")],
        max_tokens: None,
        temperature: None,
        stream: Some(false),
        token_class: TokenClass::C256,
        ticket: ZkTicket {
            commitment_root: B64Bytes(vec![]),
            nullifier: B64Bytes(new_id().bytes.to_vec()),
            token_class: TokenClass::C256,
            proof: B64Bytes(b"SYNTHETIC-NOT-FINALITY".to_vec()),
        },
        provider_options: vec![],
    };
    bind(&mut request);
    request
}

fn bind(request: &mut InferenceRequest) {
    request.ticket.commitment_root = B64Bytes(request.authorization_commitment().unwrap());
}

fn copy(request: &InferenceRequest) -> InferenceRequest {
    InferenceRequest {
        request_id: request.request_id,
        model: request.model.clone(),
        messages: request.messages.clone(),
        max_tokens: request.max_tokens,
        temperature: request.temperature.clone(),
        stream: request.stream,
        token_class: request.token_class,
        ticket: request.ticket.clone(),
        provider_options: zk_llm_gateway::json::copy_fields(&request.provider_options),
    }
}

struct Harness {
    db: sled::Db,
    upstream_mode: u8,
    verifier_mode: u8,
    upstream_calls: RefCell<usize>,
    verifier_calls: RefCell<usize>,
    sent: RefCell<Option<ProviderChatCompletionRequest>>,
}

fn harness(upstream_mode: u8, verifier_mode: u8) -> Harness {
    Harness {
        db: sled::Config::new().temporary(true).open().unwrap(),
        upstream_mode,
        verifier_mode,
        upstream_calls: RefCell::new(0),
        verifier_calls: RefCell::new(0),
        sent: RefCell::new(None),
    }
}

impl Harness {
    fn swap(&self, request: &SwapRequest) -> SwapOutcome {
        match self.db.compare_and_swap(
            &request.key,
            request.expected.as_deref(),
            Some(request.new.as_slice()),
        ) {
            Err(_) => SwapOutcome::Failed,
            Ok(Err(_)) => SwapOutcome::Refused,
            Ok(Ok(())) => SwapOutcome::Swapped,
        }
    }

    fn verify(&self, ticket: &ZkTicket, commitment: &[u8]) -> Result<VerifiedTicket, ZkVerifyError> {
        *self.verifier_calls.borrow_mut() += 1;
        if self.verifier_mode == 1 {
            return Err(ZkVerifyError::InvalidProof);
        }
        if self.verifier_mode == 2 {
            return Err(ZkVerifyError::Internal("PRIVATE-VERIFIER-CANARY".to_string()));
        }
        if ticket.commitment_root.0 != commitment {
            return Err(ZkVerifyError::InvalidProof);
        }
        Ok(VerifiedTicket {
            token_class: if self.verifier_mode == 3 {
                TokenClass::C512
            } else {
                ticket.token_class
            },
            nullifier_key: replay_key(ticket),
        })
    }

    fn upstream(&self, request: ProviderChatCompletionRequest) -> ProviderReply {
        *self.upstream_calls.borrow_mut() += 1;
        *self.sent.borrow_mut() = Some(request);
        match self.upstream_mode {
            1 => ProviderReply::ErrorStatus,
            2 => ProviderReply::BodyError("upstream_too_large"),
            3 => ProviderReply::Body(b"PRIVATE-NONJSON-CANARY".to_vec()),
            6 => ProviderReply::Body(
                format!(r#"{{"choices":[{{"message":{{"content":"{}"}}}}]}}"#, "x".repeat(5000))
                    .into_bytes(),
            ),
            _ => ProviderReply::Body(
                br#"{"choices": [{"message": {"content": "synthetic"}}]}"#.to_vec(),
            ),
        }
    }

    fn perform(&self, flow: &InferFlow, action: Action) -> Result<Event, GatewayEnvelopePayload> {
        match action {
            Action::Verify { commitment } => Ok(Event::Verified {
                outcome: self.verify(&flow.request.ticket, &commitment),
                now_ms: 100,
            }),
            Action::Swap(request) => Ok(Event::Swapped(self.swap(&request))),
            Action::Flush => Ok(Event::Flushed(self.db.flush().is_ok())),
            Action::Dispatch(request) => {
                Ok(Event::Replied { reply: self.upstream(request), now_ms: 200 })
            }
            Action::Respond(payload) => Err(payload),
        }
    }

    fn send_as(&self, id: Uuid, request: &InferenceRequest) -> GatewayEnvelopePayload {
        let (mut flow, mut action) = InferFlow::begin(id, TokenClass::C256, copy(request));
        loop {
            match self.perform(&flow, action) {
                Err(payload) => return payload,
                Ok(event) => {
                    let next = flow.step(event);
                    flow = next.0;
                    action = next.1;
                }
            }
        }
    }

    fn send(&self, request: &InferenceRequest) -> GatewayEnvelopePayload {
        self.send_as(request.request_id, request)
    }

    fn calls(&self) -> usize {
        *self.upstream_calls.borrow()
    }

    fn verifications(&self) -> usize {
        *self.verifier_calls.borrow()
    }
}

fn failure(payload: GatewayEnvelopePayload) -> ErrorResponse {
    match payload {
        GatewayEnvelopePayload::Failure { error } => error,
        GatewayEnvelopePayload::Success { .. } => panic!("the request succeeded"),
    }
}

fn is_ok(payload: &GatewayEnvelopePayload) -> bool {
    matches!(payload, GatewayEnvelopePayload::Success { .. })
}

#[test]
fn paid_positive_control_and_replay_refusal() {
    let h = harness(0, 0);
    let request = request();
    match h.send(&request) {
        GatewayEnvelopePayload::Success { response } => {
            assert_eq!(response.output, "synthetic");
            assert_eq!(response.request_id, request.request_id);
            assert_eq!(response.model, "synthetic-model");
            assert_eq!(response.billed_token_class, TokenClass::C256);
            assert!(response.upstream.is_some());
        }
        GatewayEnvelopePayload::Failure { error } => panic!("{:?}", error),
    }
    assert_eq!(failure(h.send(&request)).code, "double_spend");
    assert_eq!(h.calls(), 1);
    assert_eq!(h.verifications(), 2);
    let sent = h.sent.borrow();
    let provider_request = sent.as_ref().unwrap();
    assert_eq!(provider_request.max_tokens, 256);
    assert!(provider_request.extra.is_empty());
}

#[test]
fn identity_mismatch_denied_before_verifier_and_spend() {
    let h = harness(0, 0);
    let request = request();
    let outer_id = new_id();
    let error = failure(h.send_as(outer_id, &request));
    assert_eq!(error.code, "request_id_mismatch");
    assert_eq!(error.request_id, Some(outer_id));
    assert_eq!(h.verifications(), 0);
    assert_eq!(h.calls(), 0);
    assert!(h.db.is_empty());
}

#[test]
fn encrypted_input_size_mismatch_is_rejected_before_verification() {
    let keypair = GatewayKeypair::generate();
    let (mut env, _ctx) =
        match seal_request_for_gateway(keypair.public_bytes(), TokenClass::C256, b"{}") {
            Ok(sealed) => sealed,
            Err(e) => panic!("{}", e.message()),
        };
    env.ciphertext_b64 = B64.encode([0_u8; 16]);
    match open_envelope(&keypair, &env) {
        Ok(_) => panic!("a short envelope was opened"),
        Err(e) => {
            assert_eq!(e.status(), 400);
            assert_eq!(e.response().message, "invalid encrypted envelope");
            assert_eq!(e.response().request_id, None);
        }
    }
}

#[test]
fn reserved_options_and_multiple_completion_requests_are_refused() {
    let h = harness(0, 0);
    let options = vec![
        ("max_completion_tokens", unsigned(999999), "reserved_provider_option"),
        ("max_output_tokens", unsigned(999999), "reserved_provider_option"),
        (
            "provider_options",
            Json::Fields(vec![("model".to_string(), Json::Text("other".to_string()))]),
            "reserved_provider_option",
        ),
        ("n", unsigned(2), "multiple_completions_unsupported"),
        ("store", Json::Bool(true), "provider_storage_unsupported"),
    ];
    for (key, value, code) in options {
        let mut request = request();
        request.provider_options.push((key.to_string(), value));
        bind(&mut request);
        assert_eq!(failure(h.send(&request)).code, code);
    }
    assert_eq!(h.calls(), 0);
    assert_eq!(h.verifications(), 0);
}

#[test]
fn supported_options_are_preserved() {
    let h = harness(0, 0);
    let mut request = request();
    request.provider_options.push(("n".to_string(), unsigned(1)));
    request.provider_options.push(("store".to_string(), Json::Bool(false)));
    request.provider_options.push((
        "response_format".to_string(),
        Json::Fields(vec![("type".to_string(), Json::Text("json_object".to_string()))]),
    ));
    bind(&mut request);
    assert!(is_ok(&h.send(&request)));
    let sent = h.sent.borrow();
    let body = Json::Fields(zk_llm_gateway::json::copy_fields(&sent.as_ref().unwrap().extra));
    assert_eq!(
        body.text(),
        r#"{"n":1,"response_format":{"type":"json_object"},"store":false}"#
    );
}

#[test]
fn verifier_denial_unavailability_or_wrong_class_never_dispatch() {
    for (mode, code) in
        [(1, "invalid_proof"), (2, "internal_error"), (3, "verified_class_mismatch")]
    {
        let h = harness(0, mode);
        let error = failure(h.send(&request()));
        assert_eq!(error.code, code);
        assert!(!error.message.contains("PRIVATE-"));
        assert_eq!(h.verifications(), 1);
        assert_eq!(h.calls(), 0);
        assert!(h.db.is_empty());
    }
}

#[test]
fn upstream_error_invalid_json_and_oversize_preserve_reservation() {
    for (mode, code) in
        [(1, "upstream_error"), (2, "upstream_too_large"), (3, "upstream_parse")]
    {
        let h = harness(mode, 0);
        let request = request();
        let error = failure(h.send(&request));
        assert_eq!(error.code, code);
        assert!(!error.message.contains("PRIVATE-"));
        assert_eq!(failure(h.send(&request)).code, "double_spend");
        assert_eq!(h.calls(), 1);
        assert!(h.db.contains_key(replay_key(&request.ticket)).unwrap());
    }
}

#[test]
fn concurrent_duplicate_has_only_one_upstream_invocation() {
    let h = harness(0, 0);
    let request = request();
    let id = request.request_id;
    let mut runs: Vec<Option<(InferFlow, Action)>> = vec![
        Some(InferFlow::begin(id, TokenClass::C256, copy(&request))),
        Some(InferFlow::begin(id, TokenClass::C256, copy(&request))),
    ];
    let mut answers: Vec<GatewayEnvelopePayload> = vec![];
    while answers.len() < 2 {
        for run in runs.iter_mut() {
            if let Some((flow, action)) = run.take() {
                match h.perform(&flow, action) {
                    Err(payload) => answers.push(payload),
                    Ok(event) => *run = Some(flow.step(event)),
                }
            }
        }
    }
    assert!(is_ok(&answers[0]) || is_ok(&answers[1]));
    assert!(!is_ok(&answers[0]) || !is_ok(&answers[1]));
    assert_eq!(h.calls(), 1);
}

#[test]
fn wrapped_response_overflow_is_encrypted_without_refund_or_retry() {
    let h = harness(6, 0);
    let request = request();
    let id = request.request_id;
    let answer = match h.send(&request) {
        GatewayEnvelopePayload::Success { response } => {
            assert_eq!(response.output, "x".repeat(5000));
            // The answer holds the output and the reply that it was taken from.
            format!("{}{}", response.output, response.upstream.unwrap().text())
        }
        GatewayEnvelopePayload::Failure { error } => panic!("{:?}", error),
    };
    let error = failure(oversize_payload(&id));
    assert_eq!(error.code, "response_too_large");
    assert_eq!(error.request_id, Some(id));

    let keypair = GatewayKeypair::generate();
    let (env, ctx) =
        match seal_request_for_gateway(keypair.public_bytes(), TokenClass::C256, b"{}") {
            Ok(sealed) => sealed,
            Err(e) => panic!("{}", e.message()),
        };
    let read = |answer: &[u8]| {
        match seal_fitting_answer(&keypair, &env, &id, answer, error.code.as_bytes()) {
            Ok(sealed) => match ctx.open_response(&sealed) {
                Ok(plaintext) => plaintext,
                Err(e) => panic!("{}", e.message()),
            },
            Err(_) => panic!("the answer was not sealed"),
        }
    };
    let limit = TokenClass::C256.envelope_response_plaintext_bytes();
    assert!(answer.len() > limit);
    assert_eq!(read(answer.as_bytes()), b"response_too_large");
    assert_eq!(read(&vec![1u8; limit + 1]), b"response_too_large");
    assert_eq!(read(&vec![1u8; limit]), vec![1u8; limit]);

    assert_eq!(failure(h.send(&request)).code, "double_spend");
    assert_eq!(h.calls(), 1);
}

#[test]
fn replies_are_read_up_to_the_size_of_the_class() {
    let (flow, _action) = InferFlow::begin(new_id(), TokenClass::C256, request());
    assert_eq!(flow.reply_limit(), 8192);
}

#[test]
fn policy_refusals_come_in_order() {
    let h = harness(0, 0);
    let mut wrong_class = request();
    wrong_class.token_class = TokenClass::C512;
    bind(&mut wrong_class);
    assert_eq!(failure(h.send(&wrong_class)).code, "token_class_mismatch");

    let mut wrong_ticket = request();
    wrong_ticket.ticket.token_class = TokenClass::C512;
    assert_eq!(failure(h.send(&wrong_ticket)).code, "token_class_mismatch");

    let mut large = request();
    large.messages = vec![message("user", &"x".repeat(2048))];
    bind(&mut large);
    assert_eq!(failure(h.send(&large)).code, "prompt_too_large");

    let mut streaming = request();
    streaming.stream = Some(true);
    bind(&mut streaming);
    assert_eq!(failure(h.send(&streaming)).code, "stream_unsupported");

    let mut reserved = request();
    reserved.messages[0].extra.push(("role".to_string(), Json::Text("system".to_string())));
    bind(&mut reserved);
    assert_eq!(failure(h.send(&reserved)).code, "reserved_message_field");

    assert_eq!(h.verifications(), 0);
    assert_eq!(h.calls(), 0);
}

#[test]
fn prompt_budget_is_exact() {
    let h = harness(0, 0);
    // [{"content":"...","role":"user"}] has 30 bytes around the content.
    let mut fits = request();
    fits.messages = vec![message("user", &"x".repeat(2048 - 30))];
    bind(&mut fits);
    assert!(is_ok(&h.send(&fits)));
    let mut over = request();
    over.messages = vec![message("user", &"x".repeat(2048 - 29))];
    bind(&mut over);
    assert_eq!(failure(h.send(&over)).code, "prompt_too_large");
}

#[test]
fn a_verifier_without_a_key_falls_back_to_the_nullifier() {
    let request = request();
    let nullifier = request.ticket.nullifier.0.clone();
    let (flow, action) = InferFlow::begin(request.request_id, TokenClass::C256, request);
    assert!(matches!(action, Action::Verify { .. }));
    let (_, action) = flow.step(Event::Verified {
        outcome: Ok(VerifiedTicket { token_class: TokenClass::C256, nullifier_key: vec![] }),
        now_ms: 7,
    });
    match action {
        Action::Swap(swap) => {
            assert_eq!(swap.key, sha256(&nullifier));
            assert_eq!(swap.expected, None);
            assert_eq!(swap.new, vec![112, 0, 0, 0, 0, 0, 0, 0, 7]);
        }
        _ => panic!("the key was not reserved"),
    }
}

#[test]
fn store_failures_and_stray_events_end_with_an_internal_error() {
    let request = request();
    let id = request.request_id;
    let verified = || Event::Verified {
        outcome: Ok(VerifiedTicket { token_class: TokenClass::C256, nullifier_key: vec![1] }),
        now_ms: 1,
    };
    let outcomes: Vec<Vec<Event>> = vec![
        vec![verified(), Event::Swapped(SwapOutcome::Failed)],
        vec![verified(), Event::Swapped(SwapOutcome::Swapped), Event::Flushed(false)],
        vec![Event::Flushed(true)],
    ];
    for events in outcomes {
        let (mut flow, mut action) = InferFlow::begin(id, TokenClass::C256, copy(&request));
        for event in events {
            let next = flow.step(event);
            flow = next.0;
            action = next.1;
        }
        assert!(matches!(flow.stage, Stage::Done));
        match action {
            Action::Respond(payload) => {
                let error = failure(payload);
                assert_eq!(error.code, "internal_error");
                assert_eq!(error.message, "internal error");
            }
            _ => panic!("no answer was given"),
        }
    }
}

#[test]
fn spending_that_fails_gives_no_answer_away() {
    let request = request();
    let id = request.request_id;
    for (swap, flushed) in [(SwapOutcome::Refused, true), (SwapOutcome::Swapped, false)] {
        let (flow, _) = InferFlow::begin(id, TokenClass::C256, copy(&request));
        let (flow, _) = flow.step(Event::Verified {
            outcome: Ok(VerifiedTicket { token_class: TokenClass::C256, nullifier_key: vec![1] }),
            now_ms: 1,
        });
        let (flow, _) = flow.step(Event::Swapped(SwapOutcome::Swapped));
        let (flow, action) = flow.step(Event::Flushed(true));
        assert!(matches!(action, Action::Dispatch(_)));
        let (flow, action) = flow.step(Event::Replied {
            reply: ProviderReply::Body(b"{}".to_vec()),
            now_ms: 258,
        });
        match action {
            Action::Swap(s) => {
                assert_eq!(s.expected, Some(vec![112, 0, 0, 0, 0, 0, 0, 0, 1]));
                assert_eq!(s.new, vec![115, 0, 0, 0, 0, 0, 0, 1, 2]);
            }
            _ => panic!("the key was not marked"),
        }
        let (flow, mut action) = flow.step(Event::Swapped(swap));
        if swap == SwapOutcome::Swapped {
            let next = flow.step(Event::Flushed(flushed));
            action = next.1;
        }
        match action {
            Action::Respond(payload) => assert_eq!(failure(payload).code, "internal_error"),
            _ => panic!("no answer was given"),
        }
    }
}

#[test]
fn provider_replies_are_judged_without_reflecting_them() {
    let code = |reply: ProviderReply| match judge_reply(&reply) {
        Ok(_) => "ok",
        Err(e) => e.code,
    };
    assert_eq!(code(ProviderReply::NetworkError), "upstream_network");
    assert_eq!(code(ProviderReply::ErrorStatus), "upstream_error");
    assert_eq!(code(ProviderReply::BodyError("upstream_read")), "upstream_read");
    assert_eq!(code(ProviderReply::Body(b"{".to_vec())), "upstream_parse");
    assert_eq!(code(ProviderReply::Body(b"{}".to_vec())), "ok");
}

#[test]
fn provider_output_is_found_in_the_first_choice() {
    let output = |text: &str| {
        let body = match Json::parse(text.as_bytes()) {
            Ok(body) => body,
            Err(_) => panic!("not JSON: {}", text),
        };
        extract_provider_output(&body)
    };
    assert_eq!(output(r#"{"choices":[{"message":{"content":"hi"}}]}"#), "hi");
    assert_eq!(output(r#"{"choices":[{"message":{"content":null}}]}"#), "");
    assert_eq!(output(r#"{"choices":[{"message":{}}]}"#), "");
    assert_eq!(output(r#"{"choices":[]}"#), "");
    assert_eq!(output(r#"{"choices":{}}"#), "");
    assert_eq!(output(r#"[]"#), "");
    assert_eq!(
        output(r#"{"choices":[{"message":{"content":[{"type":"text","a":1}]}}]}"#),
        r#"[{"a":1,"type":"text"}]"#
    );
}

#[test]
fn sealed_answers_reach_the_client() {
    let keypair = GatewayKeypair::from_secret_bytes([7u8; 32]);
    let (env, ctx) =
        match seal_request_for_gateway(keypair.public_bytes(), TokenClass::C256, b"{\"a\":1}") {
            Ok(sealed) => sealed,
            Err(e) => panic!("{}", e.message()),
        };
    match open_envelope(&keypair, &env) {
        Ok(plaintext) => assert_eq!(plaintext, b"{\"a\":1}"),
        Err(_) => panic!("the request was not opened"),
    }
    let id = new_id();
    match seal_answer(&keypair, &env, &id, b"{\"b\":2}") {
        Ok(answer) => match ctx.open_response(&answer) {
            Ok(plaintext) => assert_eq!(plaintext, b"{\"b\":2}"),
            Err(e) => panic!("{}", e.message()),
        },
        Err(_) => panic!("the answer was not sealed"),
    }
    match seal_answer(&keypair, &env, &id, &vec![1u8; 8193]) {
        Ok(_) => panic!("an oversize answer was sealed"),
        Err(e) => {
            assert_eq!(e.status(), 500);
            assert_eq!(e.response().code, "internal_error");
            assert_eq!(e.response().request_id, Some(id));
        }
    }
}

#[test]
fn errors_name_their_codes() {
    let id = new_id();
    assert_eq!(failure(invalid_request_payload(&id)).code, "invalid_request");
    let e = EncryptedError { code: "c", message: "m" };
    let error = failure(error_payload(&id, &e));
    assert_eq!((error.code.as_str(), error.message.as_str()), ("c", "m"));
    assert_eq!(map_zk_error(&ZkVerifyError::InvalidProof).message, "invalid usage proof");
    assert_eq!(
        map_zk_error(&ZkVerifyError::Internal("secret".to_string())).message,
        "internal error"
    );
    let bad = ApiError::bad_request(None, "x", "y");
    assert_eq!((bad.status(), bad.response().code.as_str()), (400, "x"));
    let internal = ApiError::internal(Some(id), "y");
    assert_eq!((internal.status(), internal.response().message.as_str()), (500, "y"));
}

#[test]
fn delays_and_addresses() {
    assert_eq!(remaining_delay(0, 2), 2_000_000);
    assert_eq!(remaining_delay(1_999_999, 2), 1);
    assert_eq!(remaining_delay(2_000_000, 2), 0);
    assert_eq!(remaining_delay(5, 0), 0);
    assert_eq!(jitter_ms(0), 0);
    for _ in 0..50 {
        assert!(jitter_ms(3) <= 3);
    }
    assert_eq!(provider_url("https://api.test//", "/v1/models"), "https://api.test/v1/models");
    assert_eq!(provider_url("https://api.test", "v1"), "https://api.test/v1");
    assert_eq!(
        cors_origins(" http://a , ,http://b,"),
        vec!["http://a".to_string(), "http://b".to_string()]
    );
    assert!(cors_origins("").is_empty());
}
