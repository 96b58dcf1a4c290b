//! The gateway's decisions: what it makes of a request, from the decrypted
//! envelope to the encrypted answer.
//!
//! The outside work (asking a verifier, writing to the replay store, calling
//! the provider) is done by the caller. The flow here says what to do next and
//! takes in what came of it.

use vstd::prelude::*;
use vstd::string::*;

use crate::admission;
use crate::admission::{request_refusal, size_refusal};
use crate::crypto;
use crate::crypto::{base64_bytes, sha256_digest, Uuid};
use crate::envelope;
use crate::envelope::{
    client_reads, has_class_size, opened_request, response_envelope, response_refusal, Envelope,
    EnvelopeView, GatewayKeypair,
};
use crate::json;
use crate::json::{get_member, members, parsed_json, Json, JsonTree};
use crate::replay;
use crate::replay::{record, reservation, spending, SwapOutcome, SwapRequest, SwapView};
use crate::text;
use crate::text::{only, pieces, trim_end_by, trim_start_by, trimmed, views};
use crate::token::TokenClass;
use crate::types;
use crate::types::{
    content_of, message_views, prompt_size, request_commitment, ChatMessage, ErrorResponse,
    ErrorView, GatewayEnvelopePayload, InferenceRequest, InferenceResponse, MessageView,
    PayloadView, RequestView, ResponseView,
};
use crate::zk;
use crate::zk::{VerifiedTicket, ZkVerifyError};

verus! {

/// An error that is returned inside the encrypted envelope.
#[derive(Debug, Copy, Clone)]
pub struct EncryptedError {
    pub code: &'static str,
    pub message: &'static str,
}

/// The code and the message of an encrypted error.
#[verifier::ext_equal]
pub struct CodeView {
    pub code: Seq<char>,
    pub message: Seq<char>,
}

impl View for EncryptedError {
    type V = CodeView;

    open spec fn view(&self) -> CodeView {
        CodeView { code: self.code@, message: self.message@ }
    }
}

/// The one error that stands for every internal failure.
pub open spec fn internal_error() -> CodeView {
    CodeView { code: "internal_error"@, message: "internal error"@ }
}

impl EncryptedError {
    fn new(code: &'static str, message: &'static str) -> (r: Self)
        ensures
            r@ == (CodeView { code: code@, message: message@ }),
    {
        EncryptedError { code, message }
    }

    /// Internal details do not leave the gateway.
    fn internal() -> (r: Self)
        ensures
            r@ == internal_error(),
    {
        EncryptedError { code: "internal_error", message: "internal error" }
    }
}

/// The error that a verifier's refusal becomes.
pub open spec fn verifier_error(err: ZkVerifyError) -> CodeView {
    match err {
        ZkVerifyError::InvalidProof => CodeView {
            code: "invalid_proof"@,
            message: "invalid usage proof"@,
        },
        ZkVerifyError::Internal(_) => internal_error(),
    }
}

/// Maps a verifier's refusal to an encrypted error, without its details.
pub fn map_zk_error(err: &ZkVerifyError) -> (r: EncryptedError)
    ensures
        r@ == verifier_error(*err),
{
    match err {
        ZkVerifyError::InvalidProof => EncryptedError::new("invalid_proof", "invalid usage proof"),
        ZkVerifyError::Internal(_) => EncryptedError::internal(),
    }
}

/// Why a decrypted request goes no further, if it does not: the first of the
/// checks that it fails.
pub open spec fn admission_error(
    envelope_id: Seq<u8>,
    envelope_class: TokenClass,
    req: RequestView,
) -> Option<CodeView> {
    match request_refusal(envelope_id, req) {
        Some(code) => Some(CodeView { code, message: "request policy rejected"@ }),
        None => if req.token_class != envelope_class {
            Some(
                CodeView {
                    code: "token_class_mismatch"@,
                    message: "request token_class does not match envelope"@,
                },
            )
        } else if req.ticket.token_class != req.token_class {
            Some(
                CodeView {
                    code: "token_class_mismatch"@,
                    message: "ticket token_class does not match request"@,
                },
            )
        } else if prompt_size(req.messages) > req.token_class.prompt_limit() {
            Some(
                CodeView {
                    code: "prompt_too_large"@,
                    message: "prompt exceeds token-class size limit"@,
                },
            )
        } else if req.stream == Some(true) {
            Some(
                CodeView {
                    code: "stream_unsupported"@,
                    message: "stream=true is not supported on /v1/infer"@,
                },
            )
        } else {
            None
        },
    }
}

/// Checks a decrypted request before any verification, spending or dispatch.
/// Returns the commitment that its ticket has to bind to.
pub fn admit_request(
    envelope_id: &Uuid,
    envelope_class: TokenClass,
    req: &InferenceRequest,
) -> (r: Result<Vec<u8>, EncryptedError>)
    ensures
        match admission_error(envelope_id.bytes@, envelope_class, req@) {
            Some(e) => r is Err && r->Err_0@ == e,
            None => r is Ok && r->Ok_0@ == request_commitment(req@),
        },
{
    if let Err(code) = admission::check_request(envelope_id, req) {
        return Err(EncryptedError::new(code, "request policy rejected"));
    }
    if req.token_class != envelope_class {
        return Err(
            EncryptedError::new(
                "token_class_mismatch",
                "request token_class does not match envelope",
            ),
        );
    }
    if req.ticket.token_class != req.token_class {
        return Err(
            EncryptedError::new(
                "token_class_mismatch",
                "ticket token_class does not match request",
            ),
        );
    }
    if types::approx_prompt_bytes(&req.messages) > req.token_class.max_prompt_bytes() {
        return Err(
            EncryptedError::new("prompt_too_large", "prompt exceeds token-class size limit"),
        );
    }
    let streaming: bool = match req.stream {
        Some(b) => b,
        None => false,
    };
    if streaming {
        return Err(
            EncryptedError::new("stream_unsupported", "stream=true is not supported on /v1/infer"),
        );
    }
    match req.authorization_commitment() {
        Ok(commitment) => Ok(commitment),
        Err(_) => Err(EncryptedError::new("invalid_request", "request cannot be committed")),
    }
}

/// The key under which a verified ticket is reserved: the verifier's own, or a
/// hash of the nullifier where the verifier gives none.
pub open spec fn usage_key(nullifier: Seq<u8>, verifier_key: Seq<u8>) -> Seq<u8> {
    if verifier_key.len() == 0 {
        sha256_digest(nullifier)
    } else {
        verifier_key
    }
}

/// What a verifier's answer comes to: the key to reserve, or an error.
pub open spec fn verification_result(
    req: RequestView,
    outcome: Result<VerifiedTicket, ZkVerifyError>,
) -> Result<Seq<u8>, CodeView> {
    match outcome {
        Err(e) => Err(verifier_error(e)),
        Ok(v) => if v.token_class != req.token_class {
            Err(
                CodeView {
                    code: "verified_class_mismatch"@,
                    message: "authorization class mismatch"@,
                },
            )
        } else {
            Ok(usage_key(req.ticket.nullifier, v.nullifier_key@))
        },
    }
}

/// Judges a verifier's answer.
pub fn judge_verification(
    req: &InferenceRequest,
    outcome: &Result<VerifiedTicket, ZkVerifyError>,
) -> (r: Result<Vec<u8>, EncryptedError>)
    ensures
        match verification_result(req@, *outcome) {
            Ok(key) => r is Ok && r->Ok_0@ == key,
            Err(e) => r is Err && r->Err_0@ == e,
        },
{
    match outcome {
        Err(e) => Err(map_zk_error(e)),
        Ok(verified) => {
            if verified.token_class != req.token_class {
                return Err(
                    EncryptedError::new("verified_class_mismatch", "authorization class mismatch"),
                );
            }
            if verified.nullifier_key.len() == 0 {
                Ok(zk::replay_key(&req.ticket))
            } else {
                Ok(text::copy_bytes(verified.nullifier_key.as_slice()))
            }
        },
    }
}

/// What goes to the upstream provider.
pub struct ProviderChatCompletionRequest {
    pub model: String,
    pub messages: Vec<ChatMessage>,
    pub max_tokens: u32,
    pub temperature: Option<serde_json::Number>,
    pub stream: Option<bool>,
    pub extra: Vec<(String, Json)>,
}

/// What a provider request holds.
pub struct ProviderRequestView {
    pub model: Seq<char>,
    pub messages: Seq<MessageView>,
    pub max_tokens: nat,
    pub temperature: Option<serde_json::Number>,
    pub stream: Option<bool>,
    pub extra: Seq<(Seq<char>, JsonTree)>,
}

impl View for ProviderChatCompletionRequest {
    type V = ProviderRequestView;

    open spec fn view(&self) -> ProviderRequestView {
        ProviderRequestView {
            model: self.model@,
            messages: message_views(self.messages@),
            max_tokens: self.max_tokens as nat,
            temperature: self.temperature,
            stream: self.stream,
            extra: members(self.extra@),
        }
    }
}

/// What goes to the provider for a request: neither the ticket nor the request
/// id, and the output budget of the class whatever the client asked for.
pub open spec fn provider_view(req: RequestView) -> ProviderRequestView {
    ProviderRequestView {
        model: req.model,
        messages: req.messages,
        max_tokens: req.token_class.tokens(),
        temperature: req.temperature,
        stream: req.stream,
        extra: req.provider_options,
    }
}

/// The request for the upstream provider.
pub fn provider_request(req: &InferenceRequest) -> (r: ProviderChatCompletionRequest)
    ensures
        r@ == provider_view(req@),
        r.model@ == req.model@,
        message_views(r.messages@) == message_views(req.messages@),
        r.messages@.len() == req.messages@.len(),
        forall|i: int|
            0 <= i < req.messages@.len() ==> (#[trigger] r.messages@[i]).role@
                == req.messages@[i].role@ && r.messages@[i].content@ == req.messages@[i].content@
                && members(r.messages@[i].extra@) == members(req.messages@[i].extra@),
        r.max_tokens == req.token_class.tokens(),
        r.temperature == req.temperature,
        r.stream == req.stream,
        members(r.extra@) == members(req.provider_options@),
{
    let messages = types::copy_messages(&req.messages);
    proof {
        assert(message_views(messages@).len() == message_views(req.messages@).len());
        assert forall|i: int| 0 <= i < req.messages@.len() implies (
        #[trigger] messages@[i])@ == req.messages@[i]@ by {
            assert(message_views(messages@)[i] == message_views(req.messages@)[i]);
        }
    }
    ProviderChatCompletionRequest {
        model: req.model.clone(),
        messages,
        max_tokens: req.token_class.max_completion_tokens(),
        temperature: match &req.temperature {
            Some(n) => Some(json::copy_number(n)),
            None => None,
        },
        stream: req.stream,
        extra: json::copy_fields(&req.provider_options),
    }
}

/// The member `content` of the member `message` of the first of the `choices`.
pub open spec fn first_choice_content(body: JsonTree) -> Option<JsonTree> {
    match get_member(body, "choices"@) {
        Some(JsonTree::List(choices)) => if choices.len() == 0 {
            None
        } else {
            match get_member(choices[0], "message"@) {
                Some(message) => get_member(message, "content"@),
                None => None,
            }
        },
        _ => None,
    }
}

/// The output text of a provider's response body.
pub fn extract_provider_output(body: &Json) -> (r: String)
    ensures
        r@ == content_of(first_choice_content(body.tree())),
{
    let first: Option<&Json> = match body.get("choices") {
        Some(Json::List(choices)) => {
            proof {
                json::law_list_tree(*choices);
            }
            if choices.len() > 0 {
                Some(&choices[0])
            } else {
                None
            }
        },
        _ => None,
    };
    let content: Option<&Json> = match first {
        Some(choice) => match choice.get("message") {
            Some(message) => message.get("content"),
            None => None,
        },
        None => None,
    };
    types::chat_message_content(content)
}

/// What came of a call to the provider.
pub enum ProviderReply {
    /// The request could not be sent.
    NetworkError,
    /// The status does not say success.
    ErrorStatus,
    /// The body could not be read, for the reason that the code names.
    BodyError(&'static str),
    /// The whole body.
    Body(Vec<u8>),
}

/// A response of the provider.
pub struct ProviderChatCompletionResult {
    pub body: Json,
    pub output: String,
}

/// What a response of the provider holds.
pub struct ResultView {
    pub body: JsonTree,
    pub output: Seq<char>,
}

impl View for ProviderChatCompletionResult {
    type V = ResultView;

    open spec fn view(&self) -> ResultView {
        ResultView { body: self.body.tree(), output: self.output@ }
    }
}

/// What a provider's reply comes to.
pub open spec fn reply_result(reply: ProviderReply) -> Result<ResultView, CodeView> {
    match reply {
        ProviderReply::NetworkError => Err(
            CodeView { code: "upstream_network"@, message: "upstream network error"@ },
        ),
        ProviderReply::ErrorStatus => Err(
            CodeView {
                code: "upstream_error"@,
                message: "upstream error; dispatch outcome may be unknown"@,
            },
        ),
        ProviderReply::BodyError(code) => Err(
            CodeView {
                code: code@,
                message: "upstream response unavailable; do not retry automatically"@,
            },
        ),
        ProviderReply::Body(bytes) => match parsed_json(bytes@) {
            None => Err(CodeView { code: "upstream_parse"@, message: "invalid upstream JSON"@ }),
            Some(tree) => Ok(
                ResultView { body: tree, output: content_of(first_choice_content(tree)) },
            ),
        },
    }
}

/// Judges a provider's reply. The body of an error is never reflected.
pub fn judge_reply(reply: &ProviderReply) -> (r: Result<
    ProviderChatCompletionResult,
    EncryptedError,
>)
    ensures
        match reply_result(*reply) {
            Ok(v) => r is Ok && r->Ok_0@ == v,
            Err(e) => r is Err && r->Err_0@ == e,
        },
{
    match reply {
        ProviderReply::NetworkError => Err(
            EncryptedError::new("upstream_network", "upstream network error"),
        ),
        ProviderReply::ErrorStatus => Err(
            EncryptedError::new(
                "upstream_error",
                "upstream error; dispatch outcome may be unknown",
            ),
        ),
        ProviderReply::BodyError(code) => Err(
            EncryptedError::new(
                code,
                "upstream response unavailable; do not retry automatically",
            ),
        ),
        ProviderReply::Body(bytes) => match Json::parse(bytes.as_slice()) {
            Err(_) => Err(EncryptedError::new("upstream_parse", "invalid upstream JSON")),
            Ok(body) => Ok(
                ProviderChatCompletionResult { output: extract_provider_output(&body), body },
            ),
        },
    }
}

/// How far the handling of a request has come.
pub enum Stage {
    /// The verifier has been asked.
    Verifying,
    /// The store has been asked to reserve the key.
    Reserving { key: Vec<u8>, pending: Vec<u8> },
    /// The store has been asked to make the reservation durable.
    SecuringReservation { key: Vec<u8>, pending: Vec<u8> },
    /// The provider has been called.
    Dispatched { key: Vec<u8>, pending: Vec<u8> },
    /// The store has been asked to mark the key as spent.
    Spending { result: ProviderChatCompletionResult },
    /// The store has been asked to make the mark durable.
    SecuringSpending { result: ProviderChatCompletionResult },
    /// The answer has been given.
    Done,
}

/// A stage by what it holds.
pub enum StageView {
    Verifying,
    Reserving { key: Seq<u8>, pending: Seq<u8> },
    SecuringReservation { key: Seq<u8>, pending: Seq<u8> },
    Dispatched { key: Seq<u8>, pending: Seq<u8> },
    Spending { result: ResultView },
    SecuringSpending { result: ResultView },
    Done,
}

impl View for Stage {
    type V = StageView;

    open spec fn view(&self) -> StageView {
        match self {
            Stage::Verifying => StageView::Verifying,
            Stage::Reserving { key, pending } => StageView::Reserving {
                key: key@,
                pending: pending@,
            },
            Stage::SecuringReservation { key, pending } => StageView::SecuringReservation {
                key: key@,
                pending: pending@,
            },
            Stage::Dispatched { key, pending } => StageView::Dispatched {
                key: key@,
                pending: pending@,
            },
            Stage::Spending { result } => StageView::Spending { result: result@ },
            Stage::SecuringSpending { result } => StageView::SecuringSpending { result: result@ },
            Stage::Done => StageView::Done,
        }
    }
}

/// What came of the last action.
pub enum Event {
    /// The verifier's answer, and the time at which it came.
    Verified { outcome: Result<VerifiedTicket, ZkVerifyError>, now_ms: u64 },
    /// The store's answer to a swap.
    Swapped(SwapOutcome),
    /// Whether the store could make its contents durable.
    Flushed(bool),
    /// The provider's reply, and the time at which it came.
    Replied { reply: ProviderReply, now_ms: u64 },
}

/// What the caller has to do next.
pub enum Action {
    /// Ask the verifier about the ticket of the request and this commitment.
    Verify { commitment: Vec<u8> },
    /// Put a request to the replay store.
    Swap(SwapRequest),
    /// Make the contents of the replay store durable.
    Flush,
    /// Call the provider.
    Dispatch(ProviderChatCompletionRequest),
    /// Seal this answer into the response envelope.
    Respond(GatewayEnvelopePayload),
}

/// An action by what it holds.
pub enum ActionView {
    Verify { commitment: Seq<u8> },
    Swap(SwapView),
    Flush,
    Dispatch(ProviderRequestView),
    Respond(PayloadView),
}

impl View for Action {
    type V = ActionView;

    open spec fn view(&self) -> ActionView {
        match self {
            Action::Verify { commitment } => ActionView::Verify { commitment: commitment@ },
            Action::Swap(request) => ActionView::Swap(request@),
            Action::Flush => ActionView::Flush,
            Action::Dispatch(request) => ActionView::Dispatch(request@),
            Action::Respond(payload) => ActionView::Respond(payload@),
        }
    }
}

/// The refusal of a request, as a stage and an action.
pub open spec fn refuse(envelope_id: Seq<u8>, e: CodeView) -> (StageView, ActionView) {
    (
        StageView::Done,
        ActionView::Respond(
            PayloadView::Failure(
                ErrorView { request_id: Some(envelope_id), code: e.code, message: e.message },
            ),
        ),
    )
}

/// The answer for a provider's result.
pub open spec fn success_payload(req: RequestView, result: ResultView) -> PayloadView {
    PayloadView::Success(
        ResponseView {
            request_id: req.request_id,
            model: req.model,
            output: result.output,
            billed_token_class: req.token_class,
            upstream: Some(result.body),
        },
    )
}

/// The error of a key that has been used.
pub open spec fn double_spend() -> CodeView {
    CodeView {
        code: "double_spend"@,
        message: "ticket reserved or consumed; outcome may be unknown"@,
    }
}

/// Where a decrypted request begins.
pub open spec fn first_step(
    envelope_id: Seq<u8>,
    envelope_class: TokenClass,
    req: RequestView,
) -> (StageView, ActionView) {
    match admission_error(envelope_id, envelope_class, req) {
        Some(e) => refuse(envelope_id, e),
        None => (
            StageView::Verifying,
            ActionView::Verify { commitment: request_commitment(req) },
        ),
    }
}

/// Where an event leads.
pub open spec fn next_step(
    envelope_id: Seq<u8>,
    req: RequestView,
    stage: StageView,
    event: Event,
) -> (StageView, ActionView) {
    match (stage, event) {
        (StageView::Verifying, Event::Verified { outcome, now_ms }) => match verification_result(
            req,
            outcome,
        ) {
            Err(e) => refuse(envelope_id, e),
            Ok(key) => {
                let pending = record(replay::PENDING, now_ms);
                (
                    StageView::Reserving { key, pending },
                    ActionView::Swap(reservation(key, pending)),
                )
            },
        },
        (StageView::Reserving { key, pending }, Event::Swapped(outcome)) => match outcome {
            SwapOutcome::Swapped => (
                StageView::SecuringReservation { key, pending },
                ActionView::Flush,
            ),
            SwapOutcome::Refused => refuse(envelope_id, double_spend()),
            SwapOutcome::Failed => refuse(envelope_id, internal_error()),
        },
        (StageView::SecuringReservation { key, pending }, Event::Flushed(done)) => if done {
            (StageView::Dispatched { key, pending }, ActionView::Dispatch(provider_view(req)))
        } else {
            refuse(envelope_id, internal_error())
        },
        (StageView::Dispatched { key, pending }, Event::Replied { reply, now_ms }) => match reply_result(
            reply,
        ) {
            Err(e) => refuse(envelope_id, e),
            Ok(result) => (
                StageView::Spending { result },
                ActionView::Swap(spending(key, pending, record(replay::SPENT, now_ms))),
            ),
        },
        (StageView::Spending { result }, Event::Swapped(outcome)) => if outcome
            == SwapOutcome::Swapped {
            (StageView::SecuringSpending { result }, ActionView::Flush)
        } else {
            refuse(envelope_id, internal_error())
        },
        (StageView::SecuringSpending { result }, Event::Flushed(done)) => if done {
            (StageView::Done, ActionView::Respond(success_payload(req, result)))
        } else {
            refuse(envelope_id, internal_error())
        },
        _ => refuse(envelope_id, internal_error()),
    }
}

/// The handling of one decrypted request.
pub struct InferFlow {
    pub envelope_id: Uuid,
    pub request: InferenceRequest,
    pub stage: Stage,
}

impl InferFlow {
    /// The most bytes that are read of a reply of the provider.
    pub fn reply_limit(&self) -> (r: usize)
        ensures
            r == self.request.token_class.response_size(),
    {
        self.request.token_class.envelope_response_plaintext_bytes()
    }
}

/// The payload that reports an error.
pub fn error_payload(envelope_id: &Uuid, e: &EncryptedError) -> (r: GatewayEnvelopePayload)
    ensures
        r@ == PayloadView::Failure(
            ErrorView {
                request_id: Some(envelope_id.bytes@),
                code: e@.code,
                message: e@.message,
            },
        ),
{
    GatewayEnvelopePayload::Failure {
        error: ErrorResponse {
            request_id: Some(*envelope_id),
            code: String::from_str(e.code),
            message: String::from_str(e.message),
        },
    }
}

impl InferFlow {
    /// Takes up a decrypted request.
    pub fn begin(
        envelope_id: Uuid,
        envelope_class: TokenClass,
        request: InferenceRequest,
    ) -> (r: (InferFlow, Action))
        ensures
            r.0.envelope_id == envelope_id,
            r.0.request == request,
            (r.0.stage@, r.1@) == first_step(envelope_id.bytes@, envelope_class, request@),
    {
        match admit_request(&envelope_id, envelope_class, &request) {
            Err(e) => {
                let payload = error_payload(&envelope_id, &e);
                (InferFlow { envelope_id, request, stage: Stage::Done }, Action::Respond(payload))
            },
            Ok(commitment) => (
                InferFlow { envelope_id, request, stage: Stage::Verifying },
                Action::Verify { commitment },
            ),
        }
    }

    fn refused(envelope_id: Uuid, request: InferenceRequest, e: EncryptedError) -> (r: (
        InferFlow,
        Action,
    ))
        ensures
            r.0.envelope_id == envelope_id,
            r.0.request == request,
            (r.0.stage@, r.1@) == refuse(envelope_id.bytes@, e@),
    {
        let payload = error_payload(&envelope_id, &e);
        (InferFlow { envelope_id, request, stage: Stage::Done }, Action::Respond(payload))
    }

    /// Takes in what came of the last action. Once a key is reserved, no way
    /// out of here gives it back: a call that seems to have failed may have
    /// reached the provider. An event that answers nothing that was asked ends
    /// the handling with an internal error.
    pub fn step(self, event: Event) -> (r: (InferFlow, Action))
        ensures
            r.0.envelope_id == self.envelope_id,
            r.0.request == self.request,
            (r.0.stage@, r.1@) == next_step(
                self.envelope_id.bytes@,
                self.request@,
                self.stage@,
                event,
            ),
            r.1 matches Action::Dispatch(sent) ==> {
                &&& sent.model@ == self.request.model@
                &&& sent.messages@.len() == self.request.messages@.len()
                &&& forall|i: int|
                    0 <= i < sent.messages@.len() ==> (#[trigger] sent.messages@[i]).role@
                        == self.request.messages@[i].role@ && sent.messages@[i].content@
                        == self.request.messages@[i].content@
                &&& sent.temperature == self.request.temperature
                &&& sent.stream == self.request.stream
                &&& members(sent.extra@) == members(self.request.provider_options@)
            },
    {
        let InferFlow { envelope_id, request, stage } = self;
        match (stage, event) {
            (Stage::Verifying, Event::Verified { outcome, now_ms }) => {
                match judge_verification(&request, &outcome) {
                    Err(e) => Self::refused(envelope_id, request, e),
                    Ok(key) => {
                        let pending = replay::encode_nullifier_value(replay::PENDING, now_ms);
                        let swap = replay::reserve_nullifier(key.as_slice(), pending.as_slice());
                        (
                            InferFlow {
                                envelope_id,
                                request,
                                stage: Stage::Reserving { key, pending },
                            },
                            Action::Swap(swap),
                        )
                    },
                }
            },
            (Stage::Reserving { key, pending }, Event::Swapped(outcome)) => match outcome {
                SwapOutcome::Swapped => (
                    InferFlow {
                        envelope_id,
                        request,
                        stage: Stage::SecuringReservation { key, pending },
                    },
                    Action::Flush,
                ),
                SwapOutcome::Refused => {
                    let e = EncryptedError::new(
                        "double_spend",
                        "ticket reserved or consumed; outcome may be unknown",
                    );
                    Self::refused(envelope_id, request, e)
                },
                SwapOutcome::Failed => Self::refused(
                    envelope_id,
                    request,
                    EncryptedError::internal(),
                ),
            },
            (Stage::SecuringReservation { key, pending }, Event::Flushed(done)) => {
                if done {
                    let outgoing = provider_request(&request);
                    (
                        InferFlow {
                            envelope_id,
                            request,
                            stage: Stage::Dispatched { key, pending },
                        },
                        Action::Dispatch(outgoing),
                    )
                } else {
                    Self::refused(envelope_id, request, EncryptedError::internal())
                }
            },
            (Stage::Dispatched { key, pending }, Event::Replied { reply, now_ms }) => {
                match judge_reply(&reply) {
                    Err(e) => Self::refused(envelope_id, request, e),
                    Ok(result) => {
                        let spent = replay::encode_nullifier_value(replay::SPENT, now_ms);
                        let swap = replay::mark_nullifier_spent(
                            key.as_slice(),
                            pending.as_slice(),
                            spent.as_slice(),
                        );
                        (
                            InferFlow { envelope_id, request, stage: Stage::Spending { result } },
                            Action::Swap(swap),
                        )
                    },
                }
            },
            (Stage::Spending { result }, Event::Swapped(outcome)) => match outcome {
                SwapOutcome::Swapped => (
                    InferFlow { envelope_id, request, stage: Stage::SecuringSpending { result } },
                    Action::Flush,
                ),
                _ => Self::refused(envelope_id, request, EncryptedError::internal()),
            },
            (Stage::SecuringSpending { result }, Event::Flushed(done)) => {
                if done {
                    let response = InferenceResponse {
                        request_id: request.request_id,
                        model: request.model.clone(),
                        output: result.output,
                        billed_token_class: request.token_class,
                        upstream: Some(result.body),
                    };
                    (
                        InferFlow { envelope_id, request, stage: Stage::Done },
                        Action::Respond(GatewayEnvelopePayload::Success { response }),
                    )
                } else {
                    Self::refused(envelope_id, request, EncryptedError::internal())
                }
            },
            _ => Self::refused(envelope_id, request, EncryptedError::internal()),
        }
    }
}

/// The stage and the action after each of some events, with where the request
/// began in front.
pub open spec fn history(
    envelope_id: Seq<u8>,
    envelope_class: TokenClass,
    req: RequestView,
    events: Seq<Event>,
) -> Seq<(StageView, ActionView)>
    decreases events.len(),
{
    if events.len() == 0 {
        seq![first_step(envelope_id, envelope_class, req)]
    } else {
        let before = history(envelope_id, envelope_class, req, events.drop_last());
        before.push(next_step(envelope_id, req, before.last().0, events.last()))
    }
}

/// How many events a stage lies after the beginning.
pub open spec fn stage_position(stage: StageView) -> int {
    match stage {
        StageView::Verifying => 0,
        StageView::Reserving { .. } => 1,
        StageView::SecuringReservation { .. } => 2,
        StageView::Dispatched { .. } => 3,
        StageView::Spending { .. } => 4,
        StageView::SecuringSpending { .. } => 5,
        StageView::Done => 6,
    }
}

proof fn lemma_history(
    envelope_id: Seq<u8>,
    envelope_class: TokenClass,
    req: RequestView,
    events: Seq<Event>,
)
    ensures
        ({
            let h = history(envelope_id, envelope_class, req, events);
            &&& h.len() == events.len() + 1
            &&& h[0] == first_step(envelope_id, envelope_class, req)
            &&& forall|k: int|
                0 < k < h.len() ==> #[trigger] h[k] == next_step(
                    envelope_id,
                    req,
                    h[k - 1].0,
                    events[k - 1],
                )
            &&& forall|k: int|
                0 <= k < h.len() && !((#[trigger] h[k]).0 is Done) ==> stage_position(h[k].0) == k
        }),
    decreases events.len(),
{
    if events.len() > 0 {
        let front = events.drop_last();
        lemma_history(envelope_id, envelope_class, req, front);
        let before = history(envelope_id, envelope_class, req, front);
        let h = history(envelope_id, envelope_class, req, events);
        assert forall|k: int| 0 < k < h.len() implies #[trigger] h[k] == next_step(
            envelope_id,
            req,
            h[k - 1].0,
            events[k - 1],
        ) by {
            if k < before.len() {
                assert(h[k] == before[k] && h[k - 1] == before[k - 1]);
                assert(events[k - 1] == front[k - 1]);
            }
        }
        assert forall|k: int|
            0 <= k < h.len() && !((#[trigger] h[k]).0 is Done) implies stage_position(h[k].0)
            == k by {
            if k < before.len() {
                assert(h[k] == before[k]);
            } else {
                assert(h[k - 1] == before[k - 1]);
            }
        }
    }
}

/// The provider is called at most once for a request, and only after the store
/// has granted a reservation of the key and made it durable.
pub proof fn law_dispatch_follows_durable_reservation(
    envelope_id: Seq<u8>,
    envelope_class: TokenClass,
    req: RequestView,
    events: Seq<Event>,
    k: int,
)
    requires
        0 <= k <= events.len(),
        history(envelope_id, envelope_class, req, events)[k].1 is Dispatch,
    ensures
        k == 3,
        history(envelope_id, envelope_class, req, events)[3].0 is Dispatched,
        ({
            let h = history(envelope_id, envelope_class, req, events);
            let key = h[3].0->Dispatched_key;
            let pending = h[3].0->Dispatched_pending;
            &&& h[0] == (
                StageView::Verifying,
                ActionView::Verify { commitment: request_commitment(req) },
            )
            &&& events[0] matches Event::Verified { outcome, now_ms }
            &&& verification_result(req, outcome) == Ok::<Seq<u8>, CodeView>(key)
            &&& pending == record(replay::PENDING, now_ms)
            &&& h[1].1 == ActionView::Swap(reservation(key, pending))
            &&& events[1] == Event::Swapped(SwapOutcome::Swapped)
            &&& h[2].1 == ActionView::Flush
            &&& events[2] == Event::Flushed(true)
        }),
{
    lemma_history(envelope_id, envelope_class, req, events);
    let h = history(envelope_id, envelope_class, req, events);
    assert(h[k].0 is Dispatched);
    assert(h[k] == next_step(envelope_id, req, h[k - 1].0, events[k - 1]));
    assert(h[2] == next_step(envelope_id, req, h[1].0, events[1]));
    assert(h[1] == next_step(envelope_id, req, h[0].0, events[0]));
}

/// What goes to the provider, in every run and whatever happens in it, is what the
/// request says: its own messages, all of them and in order, of which there is at
/// least one, its model, its temperature, its stream flag and its options, unchanged.
/// The output budget is that of the class.
#[verifier::spinoff_prover]
#[verifier::rlimit(40)]
pub proof fn law_dispatch_carries_the_request(
    envelope_id: Seq<u8>,
    envelope_class: TokenClass,
    req: RequestView,
    events: Seq<Event>,
    k: int,
    sent: ProviderRequestView,
)
    requires
        0 <= k <= events.len(),
        history(envelope_id, envelope_class, req, events)[k].1 == ActionView::Dispatch(sent),
    ensures
        sent.messages.len() == req.messages.len(),
        forall|i: int|
            0 <= i < req.messages.len() ==> (#[trigger] sent.messages[i]).role
                == req.messages[i].role && sent.messages[i].content == req.messages[i].content
                && sent.messages[i].extra == req.messages[i].extra,
        sent.messages == req.messages,
        sent.messages.len() >= 1,
        sent.model == req.model,
        trimmed(sent.model).len() > 0,
        sent.temperature == req.temperature,
        sent.stream == req.stream,
        sent.stream != Some(true),
        sent.extra == req.provider_options,
        sent.max_tokens == envelope_class.tokens(),
        req.request_id == envelope_id,
        prompt_size(sent.messages) <= envelope_class.prompt_limit(),
{
    lemma_history(envelope_id, envelope_class, req, events);
    let h = history(envelope_id, envelope_class, req, events);
    law_dispatch_follows_durable_reservation(envelope_id, envelope_class, req, events, k);
    assert(h[3] == next_step(envelope_id, req, h[2].0, events[2]));
    assert(h[0] == first_step(envelope_id, envelope_class, req));
    admission::law_policy_admits_exactly_these(envelope_id, req);
}

/// A good answer says what the provider said. It bears the identifier and the model
/// of the request, bills its class, and holds the body of the reply. Its output is the
/// content of the message of the first choice: a text as it is, nothing where it is
/// null or missing.
#[verifier::spinoff_prover]
#[verifier::rlimit(40)]
pub proof fn law_answer_is_what_the_provider_said(
    envelope_id: Seq<u8>,
    envelope_class: TokenClass,
    req: RequestView,
    events: Seq<Event>,
    k: int,
    answer: ResponseView,
)
    requires
        0 <= k <= events.len(),
        history(envelope_id, envelope_class, req, events)[k].1 == ActionView::Respond(
            PayloadView::Success(answer),
        ),
    ensures
        answer.request_id == req.request_id,
        answer.request_id == envelope_id,
        answer.model == req.model,
        answer.billed_token_class == req.token_class,
        answer.billed_token_class == envelope_class,
        answer.upstream is Some,
        events.len() > 3,
        ({
            &&& events[3] matches Event::Replied { reply, .. }
            &&& reply matches ProviderReply::Body(bytes)
            &&& parsed_json(bytes@) == answer.upstream
        }),
        ({
            let choices = json::get_member(answer.upstream->0, "choices"@);
            let none = !(choices is Some && choices->0 is List && choices->0->List_0.len() > 0);
            let message = json::get_member(choices->0->List_0[0], "message"@);
            let content = json::get_member(message->0, "content"@);
            &&& none || message is None || content is None || content == Some(JsonTree::Null)
                ==> answer.output.len() == 0
            &&& !none && message is Some && content is Some && content->0 is Text ==> answer.output
                == content->0->Text_0
            &&& !none && message is Some && content is Some && !(content->0 is Text) && !(
            content->0 is Null) ==> answer.output == json::json_text(json::canonical(content->0))
        }),
{
    lemma_history(envelope_id, envelope_class, req, events);
    let h = history(envelope_id, envelope_class, req, events);
    law_success_follows_durable_spending(envelope_id, envelope_class, req, events, k);
    assert(h[3] == next_step(envelope_id, req, h[2].0, events[2]));
    assert(h[3].1 is Dispatch);
    law_dispatch_carries_the_request(
        envelope_id,
        envelope_class,
        req,
        events,
        3,
        h[3].1->Dispatch_0,
    );
    law_dispatch_follows_durable_reservation(envelope_id, envelope_class, req, events, 3);
    assert(h[0] == first_step(envelope_id, envelope_class, req));
}

/// A request is admitted if and only if the option policy admits it, it names the
/// class of its envelope, its ticket names the same class, its prompt is within the
/// limit of the class and it does not ask for a stream. It is then asked about with
/// its own commitment; otherwise it is answered at once.
pub proof fn law_admission_checks_all(
    envelope_id: Seq<u8>,
    envelope_class: TokenClass,
    req: RequestView,
)
    ensures
        admission_error(envelope_id, envelope_class, req) is None <==> {
            &&& request_refusal(envelope_id, req) is None
            &&& req.token_class == envelope_class
            &&& req.ticket.token_class == envelope_class
            &&& prompt_size(req.messages) <= envelope_class.prompt_limit()
            &&& req.stream != Some(true)
        },
        admission_error(envelope_id, envelope_class, req) is None ==> first_step(
            envelope_id,
            envelope_class,
            req,
        ).1 == (ActionView::Verify { commitment: request_commitment(req) }),
        admission_error(envelope_id, envelope_class, req) matches Some(e) ==> first_step(
            envelope_id,
            envelope_class,
            req,
        ).1 == ActionView::Respond(
            PayloadView::Failure(
                ErrorView { request_id: Some(envelope_id), code: e.code, message: e.message },
            ),
        ),
        request_refusal(envelope_id, req) matches Some(code) ==> admission_error(
            envelope_id,
            envelope_class,
            req,
        ) == Some(CodeView { code, message: "request policy rejected"@ }),
        request_refusal(envelope_id, req) is None && req.token_class != envelope_class
            ==> admission_error(envelope_id, envelope_class, req)->0.code
            == "token_class_mismatch"@,
        request_refusal(envelope_id, req) is None && req.token_class == envelope_class
            && req.ticket.token_class != envelope_class ==> admission_error(
            envelope_id,
            envelope_class,
            req,
        )->0.code == "token_class_mismatch"@,
        request_refusal(envelope_id, req) is None && req.token_class == envelope_class
            && req.ticket.token_class == envelope_class && prompt_size(req.messages)
            > envelope_class.prompt_limit() ==> admission_error(
            envelope_id,
            envelope_class,
            req,
        )->0.code == "prompt_too_large"@,
        request_refusal(envelope_id, req) is None && req.token_class == envelope_class
            && req.ticket.token_class == envelope_class && prompt_size(req.messages)
            <= envelope_class.prompt_limit() && req.stream == Some(true) ==> admission_error(
            envelope_id,
            envelope_class,
            req,
        )->0.code == "stream_unsupported"@,
{
}

/// What a reply of the provider comes to: the body where it is JSON, and otherwise an
/// error that names what went wrong and nothing of the body.
pub proof fn law_replies_come_to_this(reply: ProviderReply)
    ensures
        match reply {
            ProviderReply::NetworkError => reply_result(reply) is Err && reply_result(
                reply,
            )->Err_0.code == "upstream_network"@,
            ProviderReply::ErrorStatus => reply_result(reply) is Err && reply_result(
                reply,
            )->Err_0.code == "upstream_error"@,
            ProviderReply::BodyError(code) => reply_result(reply) is Err && reply_result(
                reply,
            )->Err_0.code == code@,
            ProviderReply::Body(bytes) => {
                &&& parsed_json(bytes@) is None ==> reply_result(reply) is Err && reply_result(
                    reply,
                )->Err_0.code == "upstream_parse"@
                &&& parsed_json(bytes@) matches Some(tree) ==> reply_result(reply) is Ok
                    && reply_result(reply)->Ok_0.body == tree
            },
        },
{
}

/// A run in which nothing goes wrong is answered well: where the request is admitted,
/// the verifier says yes for its class, the store grants and keeps the reservation, the
/// provider replies with JSON, and the store grants and keeps the spending, the sixth
/// action is a good answer.
pub proof fn law_good_run_is_answered(
    envelope_id: Seq<u8>,
    envelope_class: TokenClass,
    req: RequestView,
    events: Seq<Event>,
)
    requires
        admission_error(envelope_id, envelope_class, req) is None,
        events.len() == 6,
        (events[0] matches Event::Verified { outcome, .. } && outcome is Ok
            && outcome->Ok_0.token_class == req.token_class),
        events[1] == Event::Swapped(SwapOutcome::Swapped),
        events[2] == Event::Flushed(true),
        (events[3] matches Event::Replied { reply, .. } && reply matches ProviderReply::Body(bytes)
            && parsed_json(bytes@) is Some),
        events[4] == Event::Swapped(SwapOutcome::Swapped),
        events[5] == Event::Flushed(true),
    ensures
        ({
            let h = history(envelope_id, envelope_class, req, events);
            &&& h.len() == 7
            &&& h[0].1 is Verify
            &&& h[1].1 is Swap
            &&& h[2].1 is Flush
            &&& h[3].1 is Dispatch
            &&& h[4].1 is Swap
            &&& h[5].1 is Flush
            &&& h[6].1 is Respond
            &&& h[6].1->Respond_0 is Success
        }),
{
    lemma_history(envelope_id, envelope_class, req, events);
    let h = history(envelope_id, envelope_class, req, events);
    assert(h[0] == first_step(envelope_id, envelope_class, req));
    assert(h[1] == next_step(envelope_id, req, h[0].0, events[0]));
    assert(h[2] == next_step(envelope_id, req, h[1].0, events[1]));
    assert(h[3] == next_step(envelope_id, req, h[2].0, events[2]));
    assert(h[4] == next_step(envelope_id, req, h[3].0, events[3]));
    assert(h[5] == next_step(envelope_id, req, h[4].0, events[4]));
    assert(h[6] == next_step(envelope_id, req, h[5].0, events[5]));
}

/// A ticket whose key is taken is answered with the error for tickets that were used
/// before, and a store that fails with one that says nothing.
pub proof fn law_used_ticket_is_answered_so(
    envelope_id: Seq<u8>,
    envelope_class: TokenClass,
    req: RequestView,
    events: Seq<Event>,
)
    requires
        events.len() >= 2,
        history(envelope_id, envelope_class, req, events)[1].1 is Swap,
    ensures
        ({
            let answer = history(envelope_id, envelope_class, req, events)[2].1;
            &&& events[1] == Event::Swapped(SwapOutcome::Refused) ==> answer
                == ActionView::Respond(
                PayloadView::Failure(
                    ErrorView {
                        request_id: Some(envelope_id),
                        code: "double_spend"@,
                        message: "ticket reserved or consumed; outcome may be unknown"@,
                    },
                ),
            )
            &&& events[1] == Event::Swapped(SwapOutcome::Failed) ==> answer == ActionView::Respond(
                PayloadView::Failure(
                    ErrorView {
                        request_id: Some(envelope_id),
                        code: "internal_error"@,
                        message: "internal error"@,
                    },
                ),
            )
            &&& events[1] == Event::Swapped(SwapOutcome::Swapped) ==> answer is Flush
        }),
{
    lemma_history(envelope_id, envelope_class, req, events);
    let h = history(envelope_id, envelope_class, req, events);
    assert(h[1] == next_step(envelope_id, req, h[0].0, events[0]));
    assert(h[2] == next_step(envelope_id, req, h[1].0, events[1]));
}

/// Once an answer is given nothing more is written, sent or dispatched, whatever comes.
pub proof fn law_answer_is_the_end(
    envelope_id: Seq<u8>,
    envelope_class: TokenClass,
    req: RequestView,
    events: Seq<Event>,
    k: int,
    m: int,
)
    requires
        0 <= k < m <= events.len(),
        history(envelope_id, envelope_class, req, events)[k].1 is Respond,
    ensures
        history(envelope_id, envelope_class, req, events)[m].1 matches ActionView::Respond(
            PayloadView::Failure(_),
        ),
    decreases m - k,
{
    lemma_history(envelope_id, envelope_class, req, events);
    let h = history(envelope_id, envelope_class, req, events);
    if k > 0 {
        assert(h[k] == next_step(envelope_id, req, h[k - 1].0, events[k - 1]));
    }
    assert(h[k].0 is Done);
    assert(h[k + 1] == next_step(envelope_id, req, h[k].0, events[k]));
    if k + 1 < m {
        law_answer_is_the_end(envelope_id, envelope_class, req, events, k + 1, m);
    }
}

/// An answer that does not fit its class gives way to what stands in its place, and one
/// that fits goes out as it is.
pub proof fn law_answers_that_fit_go_out(
    class: TokenClass,
    answer: Seq<u8>,
    in_its_place: Seq<u8>,
)
    ensures
        answer.len() <= class.response_size() ==> fitting_answer(class, answer, in_its_place)
            == answer,
        answer.len() > class.response_size() ==> fitting_answer(class, answer, in_its_place)
            == in_its_place,
{
}

/// A verifier's yes counts for the class of the request alone. The key to reserve is
/// the verifier's own, or the digest of the ticket's nullifier where it gives none. A
/// no is passed on as such; a failure says nothing of itself.
pub proof fn law_verifier_decides(req: RequestView, verified: VerifiedTicket, e: ZkVerifyError)
    ensures
        verification_result(req, Ok(verified)) is Ok <==> verified.token_class == req.token_class,
        verified.token_class == req.token_class && verified.nullifier_key@.len() > 0
            ==> verification_result(req, Ok(verified)) == Ok::<Seq<u8>, CodeView>(
            verified.nullifier_key@,
        ),
        verified.token_class == req.token_class && verified.nullifier_key@.len() == 0
            ==> verification_result(req, Ok(verified)) == Ok::<Seq<u8>, CodeView>(
            sha256_digest(req.ticket.nullifier),
        ),
        verified.token_class != req.token_class ==> verification_result(
            req,
            Ok(verified),
        )->Err_0.code == "verified_class_mismatch"@,
        verification_result(req, Err(e)) is Err,
        e is InvalidProof ==> verification_result(req, Err(e))->Err_0.code == "invalid_proof"@,
        e is Internal ==> verification_result(req, Err(e))->Err_0.code == "internal_error"@
            && verification_result(req, Err(e))->Err_0.message == "internal error"@,
{
}

/// The records of a run: the reservation of the key is a record that says pending, with
/// the time of the verification, and the spending is one that says spent, with the
/// time of the reply. Both are nine bytes.
pub proof fn law_records_of_a_run(
    envelope_id: Seq<u8>,
    envelope_class: TokenClass,
    req: RequestView,
    events: Seq<Event>,
    k: int,
    request: SwapView,
)
    requires
        0 <= k <= events.len(),
        history(envelope_id, envelope_class, req, events)[k].1 == ActionView::Swap(request),
    ensures
        k == 1 || k == 4,
        request.new.len() == 9,
        k == 1 ==> {
            &&& events[0] matches Event::Verified { now_ms, .. }
            &&& request.expected is None
            &&& request.new[0] == 112
            &&& replay::record_parts(request.new) == Some((112u8, now_ms))
        },
        k == 4 ==> {
            &&& events[3] matches Event::Replied { now_ms, .. }
            &&& request.expected is Some
            &&& request.new[0] == 115
            &&& replay::record_parts(request.new) == Some((115u8, now_ms))
        },
{
    lemma_history(envelope_id, envelope_class, req, events);
    let h = history(envelope_id, envelope_class, req, events);
    law_store_requests_never_release(envelope_id, envelope_class, req, events, k);
    assert(h[k] == next_step(envelope_id, req, h[k - 1].0, events[k - 1]));
    match events[k - 1] {
        Event::Verified { outcome, now_ms } => {
            replay::law_record_round_trip(replay::PENDING, now_ms);
            crate::bytes::law_u64_round_trip(now_ms);
        },
        Event::Replied { reply, now_ms } => {
            replay::law_record_round_trip(replay::SPENT, now_ms);
            crate::bytes::law_u64_round_trip(now_ms);
        },
        _ => {},
    }
}

/// A request to the replay store is either the reservation of the key or, after
/// a good reply of the provider, the spending of that very reservation. Nothing
/// gives a key back.
pub proof fn law_store_requests_never_release(
    envelope_id: Seq<u8>,
    envelope_class: TokenClass,
    req: RequestView,
    events: Seq<Event>,
    k: int,
)
    requires
        0 <= k <= events.len(),
        history(envelope_id, envelope_class, req, events)[k].1 is Swap,
    ensures
        ({
            let h = history(envelope_id, envelope_class, req, events);
            let request = h[k].1->Swap_0;
            ||| k == 1 && request.expected is None
            ||| {
                &&& k == 4
                &&& h[1].1 is Swap
                &&& request.key == h[1].1->Swap_0.key
                &&& request.expected == Some(h[1].1->Swap_0.new)
                &&& events[3] matches Event::Replied { reply, now_ms }
                &&& reply_result(reply) is Ok
                &&& request.new == record(replay::SPENT, now_ms)
            }
        }),
{
    lemma_history(envelope_id, envelope_class, req, events);
    let h = history(envelope_id, envelope_class, req, events);
    assert(h[k] == next_step(envelope_id, req, h[k - 1].0, events[k - 1]));
    if k != 1 {
        assert(h[3] == next_step(envelope_id, req, h[2].0, events[2]));
        assert(h[2] == next_step(envelope_id, req, h[1].0, events[1]));
        assert(h[1] == next_step(envelope_id, req, h[0].0, events[0]));
    }
}

/// A good answer is given only for a good reply of the provider whose key has
/// durably been marked as spent.
pub proof fn law_success_follows_durable_spending(
    envelope_id: Seq<u8>,
    envelope_class: TokenClass,
    req: RequestView,
    events: Seq<Event>,
    k: int,
)
    requires
        0 <= k <= events.len(),
        history(envelope_id, envelope_class, req, events)[k].1 matches ActionView::Respond(
            PayloadView::Success(_),
        ),
    ensures
        k == 6,
        events[5] == Event::Flushed(true),
        events[4] == Event::Swapped(SwapOutcome::Swapped),
        ({
            let h = history(envelope_id, envelope_class, req, events);
            &&& h[3].1 == ActionView::Dispatch(provider_view(req))
            &&& events[3] matches Event::Replied { reply, .. }
            &&& reply_result(reply) is Ok
            &&& h[6].1 == ActionView::Respond(success_payload(req, reply_result(reply)->Ok_0))
        }),
{
    lemma_history(envelope_id, envelope_class, req, events);
    let h = history(envelope_id, envelope_class, req, events);
    assert(h[k] == next_step(envelope_id, req, h[k - 1].0, events[k - 1]));
    assert(h[5] == next_step(envelope_id, req, h[4].0, events[4]));
    assert(h[4] == next_step(envelope_id, req, h[3].0, events[3]));
    assert(h[3] == next_step(envelope_id, req, h[2].0, events[2]));
}

/// Before the verifier has said yes, nothing is written to the replay store and
/// nothing goes to the provider.
pub proof fn law_refusal_precedes_spending(
    envelope_id: Seq<u8>,
    envelope_class: TokenClass,
    req: RequestView,
    events: Seq<Event>,
    k: int,
)
    requires
        0 <= k <= events.len(),
        admission_error(envelope_id, envelope_class, req) is Some || (events.len() > 0 ==> !(
        events[0] matches Event::Verified { outcome, .. } && verification_result(req, outcome) is Ok)),
    ensures
        !(history(envelope_id, envelope_class, req, events)[k].1 is Swap),
        !(history(envelope_id, envelope_class, req, events)[k].1 is Dispatch),
{
    lemma_history(envelope_id, envelope_class, req, events);
    let h = history(envelope_id, envelope_class, req, events);
    if h[k].1 is Dispatch {
        law_dispatch_follows_durable_reservation(envelope_id, envelope_class, req, events, k);
    }
    if h[k].1 is Swap {
        law_store_requests_never_release(envelope_id, envelope_class, req, events, k);
        assert(h[1] == next_step(envelope_id, req, h[0].0, events[0]));
    }
}

/// One handling of a request: the request, the envelope that it came in and what
/// came of each action.
pub struct Run {
    pub envelope_id: Seq<u8>,
    pub envelope_class: TokenClass,
    pub request: RequestView,
    pub events: Seq<Event>,
}

/// The stages and actions of a run.
pub open spec fn run_history(run: Run) -> Seq<(StageView, ActionView)> {
    history(run.envelope_id, run.envelope_class, run.request, run.events)
}

/// Whether a run calls the provider, and with which key reserved.
pub open spec fn dispatches(run: Run, key: Seq<u8>) -> bool {
    exists|k: int|
        0 <= k <= run.events.len() && (#[trigger] run_history(run)[k]).1 is Dispatch
            && run_history(run)[k].0 is Dispatched && run_history(run)[k].0->Dispatched_key == key
}

/// Whether the store took a run's reservation as its request at position `p`,
/// and granted it only if it could.
pub open spec fn reserved_as(
    run: Run,
    store: Map<Seq<u8>, Seq<u8>>,
    requests: Seq<SwapView>,
    p: int,
) -> bool {
    &&& 0 <= p < requests.len()
    &&& run.events.len() > 1
    &&& run_history(run)[1].1 == ActionView::Swap(requests[p])
    &&& run.events[1] == Event::Swapped(SwapOutcome::Swapped) ==> replay::grants(
        replay::after_all(store, requests.take(p)),
        requests[p],
    )
}

/// A key is good for one call of the provider: of any two runs over one store,
/// however their requests to it interleave with each other and with those of
/// others, at most one calls the provider for the key.
pub proof fn law_key_is_good_for_one_dispatch(
    a: Run,
    b: Run,
    store: Map<Seq<u8>, Seq<u8>>,
    requests: Seq<SwapView>,
    p: int,
    q: int,
    key: Seq<u8>,
)
    requires
        p != q,
        reserved_as(a, store, requests, p),
        reserved_as(b, store, requests, q),
        dispatches(a, key),
    ensures
        !dispatches(b, key),
{
    if dispatches(b, key) {
        lemma_dispatch_reserves(a, store, requests, p, key);
        lemma_dispatch_reserves(b, store, requests, q, key);
        if p < q {
            replay::law_key_is_reserved_at_most_once(store, requests, key, p, q);
        } else {
            replay::law_key_is_reserved_at_most_once(store, requests, key, q, p);
        }
    }
}

proof fn lemma_dispatch_reserves(
    run: Run,
    store: Map<Seq<u8>, Seq<u8>>,
    requests: Seq<SwapView>,
    p: int,
    key: Seq<u8>,
)
    requires
        reserved_as(run, store, requests, p),
        dispatches(run, key),
    ensures
        replay::reserves_at(store, requests, key, p),
{
    let k = choose|k: int|
        0 <= k <= run.events.len() && (#[trigger] run_history(run)[k]).1 is Dispatch
            && run_history(run)[k].0 is Dispatched && run_history(run)[k].0->Dispatched_key == key;
    law_dispatch_follows_durable_reservation(
        run.envelope_id,
        run.envelope_class,
        run.request,
        run.events,
        k,
    );
}

/// Whether an error is one of the fixed ones: what it says does not come out of
/// the request, the verifier's report or the provider's body. The one part that
/// comes from elsewhere is the code that names why a body could not be read.
pub open spec fn is_categorical(e: CodeView) -> bool {
    ||| e == internal_error()
    ||| e == double_spend()
    ||| e.message == "request policy rejected"@ && {
        ||| e.code == "request_id_mismatch"@
        ||| e.code == "invalid_request"@
        ||| e.code == "reserved_provider_option"@
        ||| e.code == "multiple_completions_unsupported"@
        ||| e.code == "provider_storage_unsupported"@
        ||| e.code == "reserved_message_field"@
    }
    ||| e.code == "token_class_mismatch"@ && {
        ||| e.message == "request token_class does not match envelope"@
        ||| e.message == "ticket token_class does not match request"@
    }
    ||| e.code == "prompt_too_large"@ && e.message == "prompt exceeds token-class size limit"@
    ||| e.code == "stream_unsupported"@ && e.message
        == "stream=true is not supported on /v1/infer"@
    ||| e.code == "invalid_proof"@ && e.message == "invalid usage proof"@
    ||| e.code == "verified_class_mismatch"@ && e.message == "authorization class mismatch"@
    ||| e.code == "upstream_network"@ && e.message == "upstream network error"@
    ||| e.code == "upstream_error"@ && e.message
        == "upstream error; dispatch outcome may be unknown"@
    ||| e.code == "upstream_parse"@ && e.message == "invalid upstream JSON"@
    ||| e.message == "upstream response unavailable; do not retry automatically"@
}

/// A request that fails is answered with a fixed error, under the id of its
/// envelope.
pub proof fn law_failures_are_categorical(
    envelope_id: Seq<u8>,
    envelope_class: TokenClass,
    req: RequestView,
    events: Seq<Event>,
    k: int,
    error: ErrorView,
)
    requires
        0 <= k <= events.len(),
        history(envelope_id, envelope_class, req, events)[k].1 == ActionView::Respond(
            PayloadView::Failure(error),
        ),
    ensures
        error.request_id == Some(envelope_id),
        is_categorical(CodeView { code: error.code, message: error.message }),
{
    lemma_history(envelope_id, envelope_class, req, events);
    let h = history(envelope_id, envelope_class, req, events);
    if k > 0 {
        assert(h[k] == next_step(envelope_id, req, h[k - 1].0, events[k - 1]));
    }
}

/// An error that is returned outside of an envelope.
#[derive(Debug)]
pub enum ApiError {
    BadRequest(ErrorResponse),
    Internal(ErrorResponse),
}

/// What an error outside of an envelope holds.
pub enum ApiErrorView {
    BadRequest(ErrorView),
    Internal(ErrorView),
}

impl View for ApiError {
    type V = ApiErrorView;

    open spec fn view(&self) -> ApiErrorView {
        match self {
            ApiError::BadRequest(e) => ApiErrorView::BadRequest(e@),
            ApiError::Internal(e) => ApiErrorView::Internal(e@),
        }
    }
}

/// An optional identifier by its bytes.
pub open spec fn id_view(id: Option<Uuid>) -> Option<Seq<u8>> {
    match id {
        Some(u) => Some(u.bytes@),
        None => None,
    }
}

impl ApiError {
    pub fn bad_request(request_id: Option<Uuid>, code: &str, message: &str) -> (r: Self)
        ensures
            r@ == ApiErrorView::BadRequest(
                ErrorView { request_id: id_view(request_id), code: code@, message: message@ },
            ),
    {
        ApiError::BadRequest(
            ErrorResponse {
                request_id,
                code: String::from_str(code),
                message: String::from_str(message),
            },
        )
    }

    pub fn internal(request_id: Option<Uuid>, message: &str) -> (r: Self)
        ensures
            r@ == ApiErrorView::Internal(
                ErrorView {
                    request_id: id_view(request_id),
                    code: "internal_error"@,
                    message: message@,
                },
            ),
    {
        ApiError::Internal(
            ErrorResponse {
                request_id,
                code: String::from_str("internal_error"),
                message: String::from_str(message),
            },
        )
    }

    /// The HTTP status of the error.
    pub fn status(&self) -> (r: u16)
        ensures
            r == match self@ {
                ApiErrorView::BadRequest(_) => 400u16,
                ApiErrorView::Internal(_) => 500u16,
            },
    {
        match self {
            ApiError::BadRequest(_) => 400,
            ApiError::Internal(_) => 500,
        }
    }

    /// The body of the error. It holds neither prompts nor upstream bodies.
    pub fn response(&self) -> (r: &ErrorResponse)
        ensures
            r@ == match self@ {
                ApiErrorView::BadRequest(e) => e,
                ApiErrorView::Internal(e) => e,
            },
    {
        match self {
            ApiError::BadRequest(e) => e,
            ApiError::Internal(e) => e,
        }
    }
}

/// A refusal of a malformed envelope: a code and nothing else.
pub open spec fn envelope_refusal(code: Seq<char>) -> ApiErrorView {
    ApiErrorView::BadRequest(
        ErrorView { request_id: None, code, message: "invalid encrypted envelope"@ },
    )
}

/// Opens an envelope that has passed the size check. What is malformed gets a
/// categorical error only.
pub fn open_envelope(keypair: &GatewayKeypair, env: &Envelope) -> (r: Result<Vec<u8>, ApiError>)
    ensures
        match size_refusal(env@) {
            Some(code) => r is Err && r->Err_0@ == envelope_refusal(code),
            None => match opened_request(keypair.secret(), env@) {
                Err(_) => r is Err && r->Err_0@ == envelope_refusal("decrypt_failed"@),
                Ok(plaintext) => r is Ok && r->Ok_0@ == plaintext,
            },
        },
{
    if let Err(code) = admission::check_envelope_size(env) {
        return Err(ApiError::bad_request(None, code, "invalid encrypted envelope"));
    }
    match envelope::open_request_at_gateway(keypair, env) {
        Ok(plaintext) => Ok(plaintext),
        Err(_) => Err(ApiError::bad_request(None, "decrypt_failed", "invalid encrypted envelope")),
    }
}

/// The answer to a plaintext that is no inference request.
pub fn invalid_request_payload(envelope_id: &Uuid) -> (r: GatewayEnvelopePayload)
    ensures
        r@ == PayloadView::Failure(
            ErrorView {
                request_id: Some(envelope_id.bytes@),
                code: "invalid_request"@,
                message: "invalid inference request"@,
            },
        ),
{
    error_payload(
        envelope_id,
        &EncryptedError::new("invalid_request", "invalid inference request"),
    )
}

/// The answer in place of one that does not fit its class. The key stays spent.
pub fn oversize_payload(envelope_id: &Uuid) -> (r: GatewayEnvelopePayload)
    ensures
        r@ == PayloadView::Failure(
            ErrorView {
                request_id: Some(envelope_id.bytes@),
                code: "response_too_large"@,
                message: "response exceeds token class; do not retry automatically"@,
            },
        ),
{
    error_payload(
        envelope_id,
        &EncryptedError::new(
            "response_too_large",
            "response exceeds token class; do not retry automatically",
        ),
    )
}

/// Seals an encoded answer into the response envelope.
pub fn seal_answer(
    keypair: &GatewayKeypair,
    env: &Envelope,
    envelope_id: &Uuid,
    payload_json: &[u8],
) -> (r: Result<Envelope, ApiError>)
    ensures
        match response_refusal(env@, payload_json@.len()) {
            Some(_) => r is Err && r->Err_0@ == ApiErrorView::Internal(
                ErrorView {
                    request_id: Some(envelope_id.bytes@),
                    code: "internal_error"@,
                    message: "internal error"@,
                },
            ),
            None => {
                let eph = base64_bytes(env@.kem_pub_b64)->0;
                &&& r is Ok
                &&& exists|nonce: Seq<u8>|
                    nonce.len() == 12 && r->Ok_0@ == #[trigger] response_envelope(
                        keypair.secret(),
                        env@,
                        eph,
                        payload_json@,
                        nonce,
                    )
                &&& has_class_size(r->Ok_0@.ciphertext_b64, env@.token_class.response_size())
                &&& client_reads(eph, keypair.public(), r->Ok_0@, payload_json@)
            },
        },
{
    match envelope::seal_response_at_gateway(keypair, env, payload_json) {
        Ok(sealed) => Ok(sealed),
        Err(_) => Err(ApiError::internal(Some(*envelope_id), "internal error")),
    }
}

/// What is sealed: the answer if it fits its class, or what stands in its place.
pub open spec fn fitting_answer(
    class: TokenClass,
    answer: Seq<u8>,
    in_its_place: Seq<u8>,
) -> Seq<u8> {
    if answer.len() > class.response_size() {
        in_its_place
    } else {
        answer
    }
}

/// Seals an encoded answer, or what stands in its place where it does not fit its
/// class.
pub fn seal_fitting_answer(
    keypair: &GatewayKeypair,
    env: &Envelope,
    envelope_id: &Uuid,
    answer_json: &[u8],
    in_its_place_json: &[u8],
) -> (r: Result<Envelope, ApiError>)
    ensures
        ({
            let json = fitting_answer(env@.token_class, answer_json@, in_its_place_json@);
            match response_refusal(env@, json.len()) {
                Some(_) => r is Err && r->Err_0@ == ApiErrorView::Internal(
                    ErrorView {
                        request_id: Some(envelope_id.bytes@),
                        code: "internal_error"@,
                        message: "internal error"@,
                    },
                ),
                None => {
                    let eph = base64_bytes(env@.kem_pub_b64)->0;
                    &&& r is Ok
                    &&& exists|nonce: Seq<u8>|
                        nonce.len() == 12 && r->Ok_0@ == #[trigger] response_envelope(
                            keypair.secret(),
                            env@,
                            eph,
                            json,
                            nonce,
                        )
                    &&& has_class_size(r->Ok_0@.ciphertext_b64, env@.token_class.response_size())
                    &&& client_reads(eph, keypair.public(), r->Ok_0@, json)
                },
            }
        }),
{
    if answer_json.len() > env.token_class.envelope_response_plaintext_bytes() {
        seal_answer(keypair, env, envelope_id, in_its_place_json)
    } else {
        seal_answer(keypair, env, envelope_id, answer_json)
    }
}

/// Every envelope that could be opened can be answered, with anything that fits
/// its class.
pub proof fn law_opened_envelope_can_be_answered(secret: Seq<u8>, env: EnvelopeView, len: nat)
    requires
        opened_request(secret, env) is Ok,
        len <= env.token_class.response_size(),
    ensures
        response_refusal(env, len) is None,
{
}

/// How long to wait so that an answer does not come sooner than `min_ms`
/// milliseconds after its request, in nanoseconds.
pub fn remaining_delay(elapsed_nanos: u64, min_ms: u64) -> (r: u128)
    ensures
        r == if elapsed_nanos < min_ms * 1_000_000 {
            min_ms * 1_000_000 - elapsed_nanos
        } else {
            0
        },
{
    let min: u128 = min_ms as u128 * 1_000_000;
    if (elapsed_nanos as u128) < min {
        min - elapsed_nanos as u128
    } else {
        0
    }
}

/// A random delay on top, of at most `max_ms` milliseconds.
pub fn jitter_ms(max_ms: u64) -> (r: u64)
    ensures
        r <= max_ms,
{
    if max_ms == 0 {
        0
    } else {
        crypto::random_up_to(max_ms)
    }
}

/// The address of a provider's resource: one slash between base and path.
pub fn provider_url(base: &str, path: &str) -> (r: String)
    ensures
        r@ == trim_end_by(base@, only('/')) + "/"@ + trim_start_by(path@, only('/')),
{
    let mut url = text::trim_end_char(base, '/');
    url.append("/");
    url.append(text::trim_start_char(path, '/').as_str());
    url
}

/// The texts between commas, without surrounding white space and without empty
/// ones.
pub open spec fn origin_list(pieces: Seq<Seq<char>>) -> Seq<Seq<char>>
    decreases pieces.len(),
{
    if pieces.len() == 0 {
        Seq::empty()
    } else {
        let before = origin_list(pieces.drop_last());
        let origin = trimmed(pieces.last());
        if origin.len() == 0 {
            before
        } else {
            before.push(origin)
        }
    }
}

/// The origins in a list are its parts without the white space around them, in order,
/// but for blank ones.
pub proof fn law_origins_are_the_parts(parts: Seq<Seq<char>>)
    ensures
        origin_list(parts) == parts.map_values(|part: Seq<char>| trimmed(part)).filter(
            |origin: Seq<char>| origin.len() > 0,
        ),
    decreases parts.len(),
{
    reveal(Seq::filter);
    let shorn = parts.map_values(|part: Seq<char>| trimmed(part));
    if parts.len() > 0 {
        law_origins_are_the_parts(parts.drop_last());
        assert(shorn.drop_last() =~= parts.drop_last().map_values(
            |part: Seq<char>| trimmed(part),
        ));
    }
}

/// The browser origins in a comma-separated list.
pub fn cors_origins(allowed_origins: &str) -> (r: Vec<String>)
    ensures
        views(r@) == origin_list(pieces(allowed_origins@, ',')),
{
    let parts = text::split_char(allowed_origins, ',');
    let ghost all = views(parts@);
    let mut out: Vec<String> = Vec::new();
    let mut i: usize = 0;
    proof {
        assert(views(out@) =~= origin_list(all.take(0)));
    }
    while i < parts.len()
        invariant
            i <= parts@.len(),
            all == views(parts@),
            views(out@) == origin_list(all.take(i as int)),
        decreases parts@.len() - i,
    {
        let origin = text::trim(parts[i].as_str());
        let ghost before = views(out@);
        proof {
            assert(all.take(i + 1).drop_last() =~= all.take(i as int));
            assert(all.take(i + 1).last() == parts@[i as int]@);
        }
        if text::text_bytes(origin.as_str()) > 0 {
            proof {
                text::lemma_byte_len_zero(origin@);
            }
            out.push(origin);
            proof {
                assert(views(out@) =~= before.push(origin@));
            }
        } else {
            proof {
                text::lemma_byte_len_zero(origin@);
            }
        }
        i += 1;
    }
    proof {
        assert(all.take(all.len() as int) =~= all);
    }
    out
}

} // verus!
