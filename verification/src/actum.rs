//! Delegated payment verification by an Actum service.
//!
//! The service is asked over the network by the caller. What it is asked, and
//! what its reply is worth, is decided here.

use vstd::prelude::*;
use vstd::string::*;

use crate::crypto;
use crate::crypto::{base64_bytes, base64_text, sha256_digest};
use crate::text;
use crate::token::TokenClass;
use crate::zk;
use crate::zk::{TicketView, VerifiedTicket, ZkTicket, ZkVerifyError};

verus! {

/// The largest payment evidence that is passed on.
pub const MAX_ACTUM_EVIDENCE_BYTES: usize = 2_097_152;

/// What a ticket is verified against.
#[derive(Debug)]
pub struct VerificationContext {
    pub request_commitment: Vec<u8>,
}

/// The scheme of a URL, if the text is one.
pub uninterp spec fn url_scheme(text: Seq<char>) -> Option<Seq<char>>;

/// Calls `reqwest::Url::parse` and takes the scheme of the URL. The outcome
/// depends on the text alone.
#[verifier::external_body]
fn parse_scheme(endpoint: &str) -> (r: Option<String>)
    ensures
        r matches Some(scheme) ==> url_scheme(endpoint@) == Some(scheme@),
        r is None ==> url_scheme(endpoint@) is None,
{
    reqwest::Url::parse(endpoint).ok().map(|url| url.scheme().to_string())
}

/// Why a verifier cannot be set up.
#[derive(Debug, Copy, Clone, PartialEq, Eq, Structural)]
pub enum ActumConfigError {
    InvalidUrl,
    InsecureUrl,
    MissingToken,
    MissingAudience,
}

impl ActumConfigError {
    /// The message of the error.
    pub open spec fn spec_message(self) -> Seq<char> {
        match self {
            ActumConfigError::InvalidUrl => "invalid ACTUM_VERIFIER_URL"@,
            ActumConfigError::InsecureUrl =>
                "ACTUM_VERIFIER_URL must use https outside local development"@,
            ActumConfigError::MissingToken => "ACTUM_VERIFIER_BEARER_TOKEN is required"@,
            ActumConfigError::MissingAudience => "ACTUM_AUDIENCE is required"@,
        }
    }

    /// The message of the error.
    pub fn message(&self) -> (r: &'static str)
        ensures
            r@ == self.spec_message(),
    {
        match self {
            ActumConfigError::InvalidUrl => "invalid ACTUM_VERIFIER_URL",
            ActumConfigError::InsecureUrl =>
                "ACTUM_VERIFIER_URL must use https outside local development",
            ActumConfigError::MissingToken => "ACTUM_VERIFIER_BEARER_TOKEN is required",
            ActumConfigError::MissingAudience => "ACTUM_AUDIENCE is required",
        }
    }
}

/// A verifier that asks an Actum service.
#[derive(Debug)]
pub struct ActumVerifier {
    endpoint: String,
    bearer_token: String,
    audience: String,
    timeout_ms: u64,
}

/// What is wrong with a verifier's configuration, if something is.
pub open spec fn config_error(
    endpoint: Seq<char>,
    bearer_token: Seq<char>,
    audience: Seq<char>,
    allow_insecure_http: bool,
) -> Option<ActumConfigError> {
    match url_scheme(endpoint) {
        None => Some(ActumConfigError::InvalidUrl),
        Some(scheme) => if scheme != "https"@ && !allow_insecure_http {
            Some(ActumConfigError::InsecureUrl)
        } else if bearer_token.len() == 0 {
            Some(ActumConfigError::MissingToken)
        } else if audience.len() == 0 {
            Some(ActumConfigError::MissingAudience)
        } else {
            None
        },
    }
}

/// What the service is asked.
#[derive(Debug)]
pub struct VerifyRequest {
    pub protocol: &'static str,
    pub audience: String,
    pub request_commitment_b64: String,
    pub replay_identifier_b64: String,
    pub token_class: TokenClass,
    pub payment_evidence_b64: String,
}

/// What the service is asked, by what it holds.
pub struct VerifyRequestView {
    pub protocol: Seq<char>,
    pub audience: Seq<char>,
    pub request_commitment_b64: Seq<char>,
    pub replay_identifier_b64: Seq<char>,
    pub token_class: TokenClass,
    pub payment_evidence_b64: Seq<char>,
}

impl View for VerifyRequest {
    type V = VerifyRequestView;

    open spec fn view(&self) -> VerifyRequestView {
        VerifyRequestView {
            protocol: self.protocol@,
            audience: self.audience@,
            request_commitment_b64: self.request_commitment_b64@,
            replay_identifier_b64: self.replay_identifier_b64@,
            token_class: self.token_class,
            payment_evidence_b64: self.payment_evidence_b64@,
        }
    }
}

/// What the service answers.
#[derive(Debug)]
pub struct VerifyResponse {
    pub authorized: bool,
    pub finalized: bool,
    pub request_commitment_b64: String,
    pub authorization_id_b64: String,
    pub token_class: TokenClass,
}

/// What came of asking the service.
#[derive(Debug)]
pub enum ActumReply {
    /// The service could not be reached, for the reason given.
    Unavailable(String),
    /// The status does not say success. The text names the status.
    ErrorStatus { status: u16, text: String },
    /// The body of a success is not an answer, for the reason given.
    Malformed(String),
    Answer(VerifyResponse),
}

/// Whether a ticket is worth asking the service about: its commitment is that
/// of the request, and nothing is missing or too large.
pub open spec fn presentable(ticket: TicketView, commitment: Seq<u8>) -> bool {
    &&& commitment.len() == 48
    &&& ticket.commitment_root == commitment
    &&& ticket.nullifier.len() > 0
    &&& 0 < ticket.proof.len() <= MAX_ACTUM_EVIDENCE_BYTES
}

/// Whether a status denies the payment, rather than reporting a failure.
pub open spec fn denies(status: u16) -> bool {
    status == 401 || status == 403 || status == 422
}

/// Whether an answer authorizes the request: it says so, it is final, and it is
/// about this request and this class.
pub open spec fn authorizes(
    answer: VerifyResponse,
    ticket: TicketView,
    commitment: Seq<u8>,
) -> bool {
    &&& base64_bytes(answer.request_commitment_b64@) == Some(commitment)
    &&& base64_bytes(answer.authorization_id_b64@) is Some
    &&& base64_bytes(answer.authorization_id_b64@)->0.len() > 0
    &&& answer.authorized
    &&& answer.finalized
    &&& answer.token_class == ticket.token_class
}

/// A verifier is set up exactly with an address that is a URL, by `https` unless
/// anything else is allowed, with a credential and with an audience. The first of
/// these that is missing is reported.
pub proof fn law_verifier_needs_a_safe_address(
    endpoint: Seq<char>,
    bearer_token: Seq<char>,
    audience: Seq<char>,
    allow_insecure_http: bool,
)
    ensures
        ({
            let e = config_error(endpoint, bearer_token, audience, allow_insecure_http);
            let scheme = url_scheme(endpoint);
            let safe = scheme is Some && (scheme->0 == "https"@ || allow_insecure_http);
            &&& e is None <==> safe && bearer_token.len() > 0 && audience.len() > 0
            &&& scheme is None ==> e == Some(ActumConfigError::InvalidUrl)
            &&& scheme is Some && !safe ==> e == Some(ActumConfigError::InsecureUrl)
            &&& safe && bearer_token.len() == 0 ==> e == Some(ActumConfigError::MissingToken)
            &&& safe && bearer_token.len() > 0 && audience.len() == 0 ==> e == Some(
                ActumConfigError::MissingAudience,
            )
        }),
{
}

/// A ticket is asked about only for the request that it is bound to: the commitment
/// has forty-eight bytes and is the ticket's own, and neither the nullifier nor the
/// evidence is missing, nor is the evidence over two mebibytes.
pub proof fn law_ticket_is_bound_to_its_request(ticket: TicketView, commitment: Seq<u8>)
    ensures
        presentable(ticket, commitment) <==> commitment.len() == 48 && ticket.commitment_root
            == commitment && ticket.nullifier.len() > 0 && ticket.proof.len() > 0
            && ticket.proof.len() <= 2 * 1024 * 1024,
{
}

/// The statuses that deny a payment are these three.
pub proof fn law_statuses_that_deny(status: u16)
    ensures
        denies(status) <==> status == 401 || status == 403 || status == 422,
{
}

/// Whoever changes one thing that an answer says of a request loses the authorization:
/// the answer must say yes, be final, name this commitment and this class, and bear an
/// identifier.
pub proof fn law_authorization_says_all(
    answer: VerifyResponse,
    ticket: TicketView,
    commitment: Seq<u8>,
)
    ensures
        authorizes(answer, ticket, commitment) <==> answer.authorized && answer.finalized
            && answer.token_class == ticket.token_class && base64_bytes(
            answer.request_commitment_b64@,
        ) == Some(commitment) && base64_bytes(answer.authorization_id_b64@) is Some
            && base64_bytes(answer.authorization_id_b64@)->0.len() > 0,
{
}

impl ActumVerifier {
    /// The audience that payments have to name.
    pub closed spec fn spec_audience(&self) -> Seq<char> {
        self.audience@
    }

    /// The address of the service.
    pub closed spec fn spec_endpoint(&self) -> Seq<char> {
        self.endpoint@
    }

    /// The credential that the service is shown.
    pub closed spec fn spec_bearer_token(&self) -> Seq<char> {
        self.bearer_token@
    }

    /// How long to wait for the service.
    pub closed spec fn spec_timeout_ms(&self) -> u64 {
        self.timeout_ms
    }

    /// A verifier for a service. Plain HTTP takes an explicit override.
    pub fn new(
        endpoint: &str,
        bearer_token: String,
        audience: String,
        timeout_ms: u64,
        allow_insecure_http: bool,
    ) -> (r: Result<ActumVerifier, ActumConfigError>)
        ensures
            match config_error(endpoint@, bearer_token@, audience@, allow_insecure_http) {
                Some(e) => r == Err::<ActumVerifier, ActumConfigError>(e),
                None => r is Ok && r->Ok_0.spec_endpoint() == endpoint@
                    && r->Ok_0.spec_bearer_token() == bearer_token@ && r->Ok_0.spec_audience()
                    == audience@ && r->Ok_0.spec_timeout_ms() == timeout_ms,
            },
    {
        let scheme = match parse_scheme(endpoint) {
            Some(scheme) => scheme,
            None => return Err(ActumConfigError::InvalidUrl),
        };
        if !text::text_eq(scheme.as_str(), "https") && !allow_insecure_http {
            return Err(ActumConfigError::InsecureUrl);
        }
        proof {
            text::lemma_byte_len_zero(bearer_token@);
            text::lemma_byte_len_zero(audience@);
        }
        if text::text_bytes(bearer_token.as_str()) == 0 {
            return Err(ActumConfigError::MissingToken);
        }
        if text::text_bytes(audience.as_str()) == 0 {
            return Err(ActumConfigError::MissingAudience);
        }
        Ok(ActumVerifier { endpoint: String::from_str(endpoint), bearer_token, audience, timeout_ms })
    }

    pub fn endpoint(&self) -> (r: &str)
        ensures
            r@ == self.spec_endpoint(),
    {
        self.endpoint.as_str()
    }

    pub fn bearer_token(&self) -> (r: &str)
        ensures
            r@ == self.spec_bearer_token(),
    {
        self.bearer_token.as_str()
    }

    pub fn timeout_ms(&self) -> (r: u64)
        ensures
            r == self.spec_timeout_ms(),
    {
        self.timeout_ms
    }

    /// What the service has to be asked about a ticket, unless the ticket is
    /// refused without asking.
    pub fn question(&self, ticket: &ZkTicket, context: &VerificationContext) -> (r: Result<
        VerifyRequest,
        ZkVerifyError,
    >)
        ensures
            r is Ok <==> presentable(ticket@, context.request_commitment@),
            r matches Err(e) ==> e == ZkVerifyError::InvalidProof,
            r matches Ok(q) ==> q@ == (VerifyRequestView {
                protocol: "actum.payment-finality.v1"@,
                audience: self.spec_audience(),
                request_commitment_b64: base64_text(context.request_commitment@),
                replay_identifier_b64: base64_text(ticket@.nullifier),
                token_class: ticket@.token_class,
                payment_evidence_b64: base64_text(ticket@.proof),
            }),
    {
        if context.request_commitment.len() != 48 || !text::bytes_eq(
            ticket.commitment_root.0.as_slice(),
            context.request_commitment.as_slice(),
        ) || ticket.nullifier.0.len() == 0 || ticket.proof.0.len() == 0 || ticket.proof.0.len()
            > MAX_ACTUM_EVIDENCE_BYTES {
            return Err(ZkVerifyError::InvalidProof);
        }
        Ok(
            VerifyRequest {
                protocol: "actum.payment-finality.v1",
                audience: self.audience.clone(),
                request_commitment_b64: crypto::base64_encode(
                    context.request_commitment.as_slice(),
                ),
                replay_identifier_b64: crypto::base64_encode(ticket.nullifier.0.as_slice()),
                token_class: ticket.token_class,
                payment_evidence_b64: crypto::base64_encode(ticket.proof.0.as_slice()),
            },
        )
    }
}

/// What a reply of the service is worth, for a ticket that it was asked about.
pub fn judge_reply(
    ticket: &ZkTicket,
    context: &VerificationContext,
    reply: &ActumReply,
) -> (r: Result<VerifiedTicket, ZkVerifyError>)
    ensures
        match *reply {
            ActumReply::Unavailable(reason) => r is Err && r->Err_0 is Internal
                && r->Err_0->Internal_0@ == "Actum verifier unavailable: "@ + reason@,
            ActumReply::ErrorStatus { status, text } => if denies(status) {
                r is Err && r->Err_0 is InvalidProof
            } else {
                r is Err && r->Err_0 is Internal && r->Err_0->Internal_0@
                    == "Actum verifier returned "@ + text@
            },
            ActumReply::Malformed(reason) => r is Err && r->Err_0 is Internal
                && r->Err_0->Internal_0@ == "malformed Actum response: "@ + reason@,
            ActumReply::Answer(answer) => if authorizes(
                answer,
                ticket@,
                context.request_commitment@,
            ) {
                &&& r is Ok
                &&& r->Ok_0.token_class == ticket@.token_class
                &&& r->Ok_0.nullifier_key@ == sha256_digest(
                    base64_bytes(answer.authorization_id_b64@)->0,
                )
                &&& r->Ok_0.nullifier_key@.len() == 32
            } else {
                r is Err && r->Err_0 is InvalidProof
            },
        },
        r matches Ok(verified) ==> {
            &&& *reply matches ActumReply::Answer(answer)
            &&& answer.authorized
            &&& answer.finalized
            &&& answer.token_class == ticket.token_class
            &&& base64_bytes(answer.request_commitment_b64@) == Some(context.request_commitment@)
            &&& verified.token_class == ticket.token_class
        },
{
    match reply {
        ActumReply::Unavailable(reason) => {
            let mut m = String::from_str("Actum verifier unavailable: ");
            m.append(reason.as_str());
            Err(ZkVerifyError::Internal(m))
        },
        ActumReply::ErrorStatus { status, text } => {
            if *status == 401 || *status == 403 || *status == 422 {
                Err(ZkVerifyError::InvalidProof)
            } else {
                let mut m = String::from_str("Actum verifier returned ");
                m.append(text.as_str());
                Err(ZkVerifyError::Internal(m))
            }
        },
        ActumReply::Malformed(reason) => {
            let mut m = String::from_str("malformed Actum response: ");
            m.append(reason.as_str());
            Err(ZkVerifyError::Internal(m))
        },
        ActumReply::Answer(answer) => {
            let echoed = match crypto::base64_decode(answer.request_commitment_b64.as_str()) {
                Ok(bytes) => bytes,
                Err(_) => return Err(ZkVerifyError::InvalidProof),
            };
            let authorization_id = match crypto::base64_decode(
                answer.authorization_id_b64.as_str(),
            ) {
                Ok(bytes) => bytes,
                Err(_) => return Err(ZkVerifyError::InvalidProof),
            };
            if !answer.authorized || !answer.finalized || answer.token_class != ticket.token_class
                || !text::bytes_eq(echoed.as_slice(), context.request_commitment.as_slice())
                || authorization_id.len() == 0 {
                return Err(ZkVerifyError::InvalidProof);
            }
            Ok(
                VerifiedTicket {
                    token_class: answer.token_class,
                    nullifier_key: zk::sha256(authorization_id.as_slice()),
                },
            )
        },
    }
}

} // verus!
