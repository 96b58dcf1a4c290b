use base64::{engine::general_purpose::STANDARD as B64, Engine as _};
use zk_llm_gateway::actum::{
    judge_reply, ActumConfigError, ActumReply, ActumVerifier, VerificationContext, VerifyRequest,
    VerifyResponse, MAX_ACTUM_EVIDENCE_BYTES,
};
use zk_llm_gateway::token::TokenClass;
use zk_llm_gateway::zk::{sha256, B64Bytes, VerifiedTicket, ZkTicket, ZkVerifyError};

fn test_verifier() -> ActumVerifier {
    match ActumVerifier::new(
        "http://127.0.0.1:9999/v1/verify",
        "test-secret".into(),
        "zerok:test".into(),
        1000,
        true,
    ) {
        Ok(verifier) => verifier,
        Err(e) => panic!("{}", e.message()),
    }
}

fn ticket(commitment: Vec<u8>) -> ZkTicket {
    ZkTicket {
        commitment_root: B64Bytes(commitment),
        nullifier: B64Bytes(vec![7; 48]),
        token_class: TokenClass::C512,
        proof: B64Bytes(vec![9; 128]),
    }
}

fn answer(question: &VerifyRequest, authorization_id: &[u8]) -> VerifyResponse {
    VerifyResponse {
        authorized: true,
        finalized: true,
        request_commitment_b64: question.request_commitment_b64.clone(),
        authorization_id_b64: B64.encode(authorization_id),
        token_class: question.token_class,
    }
}

fn verify(
    verifier: &ActumVerifier,
    ticket: &ZkTicket,
    context: &VerificationContext,
    service: impl Fn(&VerifyRequest) -> ActumReply,
) -> Result<VerifiedTicket, ZkVerifyError> {
    match verifier.question(ticket, context) {
        Err(e) => Err(e),
        Ok(question) => judge_reply(ticket, context, &service(&question)),
    }
}

#[test]
fn accepts_finalized_bound_authorization() {
    let authorization_id = vec![42; 48];
    let commitment = vec![3; 48];
    let verified = verify(
        &test_verifier(),
        &ticket(commitment.clone()),
        &VerificationContext { request_commitment: commitment },
        |q| ActumReply::Answer(answer(q, &authorization_id)),
    )
    .unwrap();
    assert_eq!(verified.nullifier_key, sha256(&authorization_id));
    assert_eq!(verified.token_class, TokenClass::C512);
}

#[test]
fn rejects_request_commitment_substitution_before_network_call() {
    let error = verify(
        &test_verifier(),
        &ticket(vec![3; 48]),
        &VerificationContext { request_commitment: vec![4; 48] },
        |_| panic!("the service was asked"),
    )
    .unwrap_err();
    assert!(matches!(error, ZkVerifyError::InvalidProof));
}

#[test]
fn rejects_plain_http_without_explicit_local_override() {
    assert!(ActumVerifier::new(
        "http://127.0.0.1:9999/v1/verify",
        "test-secret".into(),
        "zerok:test".into(),
        1000,
        false,
    )
    .is_err());
}

#[test]
fn verifier_unavailability_fails_closed() {
    let commitment = vec![3; 48];
    let error = verify(
        &test_verifier(),
        &ticket(commitment.clone()),
        &VerificationContext { request_commitment: commitment },
        |_| ActumReply::Unavailable("connection refused".into()),
    )
    .unwrap_err();
    assert!(matches!(error, ZkVerifyError::Internal(_)));
}

#[test]
fn configuration_errors_come_in_order() {
    let refusal = |url: &str, token: &str, audience: &str, insecure: bool| {
        match ActumVerifier::new(url, token.into(), audience.into(), 1, insecure) {
            Ok(_) => None,
            Err(e) => Some(e),
        }
    };
    assert_eq!(refusal("not a url", "", "", false), Some(ActumConfigError::InvalidUrl));
    assert_eq!(refusal("http://a.test", "", "", false), Some(ActumConfigError::InsecureUrl));
    assert_eq!(refusal("https://a.test", "", "", false), Some(ActumConfigError::MissingToken));
    assert_eq!(refusal("https://a.test", "t", "", false), Some(ActumConfigError::MissingAudience));
    assert_eq!(refusal("https://a.test", "t", "a", false), None);
    assert_eq!(refusal("HTTPS://a.test", "t", "a", false), None);
    assert_eq!(refusal("http://a.test", "t", "a", true), None);
}

#[test]
fn the_question_binds_everything() {
    let commitment = vec![3; 48];
    let verifier = test_verifier();
    let question = verifier
        .question(
            &ticket(commitment.clone()),
            &VerificationContext { request_commitment: commitment.clone() },
        )
        .unwrap();
    assert_eq!(question.protocol, "actum.payment-finality.v1");
    assert_eq!(question.audience, "zerok:test");
    assert_eq!(question.request_commitment_b64, B64.encode(&commitment));
    assert_eq!(question.replay_identifier_b64, B64.encode([7u8; 48]));
    assert_eq!(question.payment_evidence_b64, B64.encode([9u8; 128]));
    assert_eq!(question.token_class, TokenClass::C512);
    assert_eq!(verifier.endpoint(), "http://127.0.0.1:9999/v1/verify");
    assert_eq!(verifier.bearer_token(), "test-secret");
    assert_eq!(verifier.timeout_ms(), 1000);
}

#[test]
fn unpresentable_tickets_are_refused_unasked() {
    let context = VerificationContext { request_commitment: vec![3; 48] };
    let refused = |t: &ZkTicket, c: &VerificationContext| {
        matches!(test_verifier().question(t, c), Err(ZkVerifyError::InvalidProof))
    };
    assert!(!refused(&ticket(vec![3; 48]), &context));
    let short = VerificationContext { request_commitment: vec![3; 47] };
    assert!(refused(&ticket(vec![3; 47]), &short));
    let mut t = ticket(vec![3; 48]);
    t.nullifier = B64Bytes(vec![]);
    assert!(refused(&t, &context));
    let mut t = ticket(vec![3; 48]);
    t.proof = B64Bytes(vec![]);
    assert!(refused(&t, &context));
    let mut t = ticket(vec![3; 48]);
    t.proof = B64Bytes(vec![1; MAX_ACTUM_EVIDENCE_BYTES]);
    assert!(!refused(&t, &context));
    t.proof = B64Bytes(vec![1; MAX_ACTUM_EVIDENCE_BYTES + 1]);
    assert!(refused(&t, &context));
}

#[test]
fn replies_fail_closed() {
    let t = ticket(vec![3; 48]);
    let context = VerificationContext { request_commitment: vec![3; 48] };
    let judged = |reply: ActumReply| judge_reply(&t, &context, &reply);
    let good = || VerifyResponse {
        authorized: true,
        finalized: true,
        request_commitment_b64: B64.encode([3u8; 48]),
        authorization_id_b64: B64.encode([1u8]),
        token_class: TokenClass::C512,
    };
    assert!(judged(ActumReply::Answer(good())).is_ok());
    for status in [401, 403, 422] {
        let reply = ActumReply::ErrorStatus { status, text: "no".into() };
        assert!(matches!(judged(reply), Err(ZkVerifyError::InvalidProof)));
    }
    match judged(ActumReply::ErrorStatus { status: 500, text: "500 oops".into() }) {
        Err(ZkVerifyError::Internal(m)) => assert_eq!(m, "Actum verifier returned 500 oops"),
        _ => panic!("a fault was taken for an answer"),
    }
    match judged(ActumReply::Malformed("eof".into())) {
        Err(ZkVerifyError::Internal(m)) => assert_eq!(m, "malformed Actum response: eof"),
        _ => panic!("a malformed reply was taken for an answer"),
    }
    let mut bad: Vec<VerifyResponse> = vec![good(), good(), good(), good(), good(), good()];
    bad[0].authorized = false;
    bad[1].finalized = false;
    bad[2].token_class = TokenClass::C256;
    bad[3].request_commitment_b64 = B64.encode([4u8; 48]);
    bad[4].authorization_id_b64 = String::new();
    bad[5].authorization_id_b64 = "*".into();
    for response in bad {
        assert!(matches!(
            judged(ActumReply::Answer(response)),
            Err(ZkVerifyError::InvalidProof)
        ));
    }
}
