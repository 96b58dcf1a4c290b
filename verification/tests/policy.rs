use base64::{engine::general_purpose::STANDARD as B64, Engine as _};
use zk_llm_gateway::admission::{check_envelope_size, BoundedBody};
use zk_llm_gateway::envelope::{seal_request_for_gateway, Envelope, GatewayKeypair};
use zk_llm_gateway::policy::{
    check_bind, check_verifier, compat_proxy, compat_refusal, is_compat_mode_allowed,
    is_dummy_bind_allowed, secret_key, CompatReply, ListenAddr, StartupError, ZkVerifierKind,
};
use zk_llm_gateway::token::TokenClass;

fn addr(text: &str) -> ListenAddr {
    let (host, port) = text.split_once(':').expect("socket addr");
    let parts: Vec<u8> = host.split('.').map(|p| p.parse().expect("socket addr")).collect();
    ListenAddr::V4 {
        octets: [parts[0], parts[1], parts[2], parts[3]],
        port: port.parse().expect("socket addr"),
    }
}

#[test]
fn dummy_verifier_bind_policy_allows_loopback() {
    let addr = addr("127.0.0.1:8080");
    assert!(is_dummy_bind_allowed(addr, false));
}

#[test]
fn dummy_verifier_bind_policy_rejects_non_loopback_by_default() {
    let addr = addr("0.0.0.0:8080");
    assert!(!is_dummy_bind_allowed(addr, false));
}

#[test]
fn dummy_verifier_bind_policy_allows_non_loopback_with_local_demo_override() {
    let addr = addr("0.0.0.0:8080");
    assert!(is_dummy_bind_allowed(addr, true));
}

#[test]
fn loopback_is_one_block_and_one_address() {
    assert!(addr("127.0.0.1:1").is_loopback());
    assert!(addr("127.255.0.9:1").is_loopback());
    assert!(!addr("128.0.0.1:1").is_loopback());
    let v6 = |segments| ListenAddr::V6 { segments, port: 1 };
    assert!(v6([0, 0, 0, 0, 0, 0, 0, 1]).is_loopback());
    assert!(!v6([0, 0, 0, 0, 0, 0, 0, 2]).is_loopback());
    assert!(!v6([1, 0, 0, 0, 0, 0, 0, 1]).is_loopback());
    assert!(!v6([0, 0, 0, 0, 0, 0xffff, 0x7f00, 1]).is_loopback());
}

#[test]
fn compatibility_mode_is_explicit_and_dummy_only() {
    let local = addr("127.0.0.1:8080");
    let remote = addr("0.0.0.0:8080");
    for kind in [ZkVerifierKind::Actum, ZkVerifierKind::Halo2] {
        assert!(!is_compat_mode_allowed(true, kind, true, local, true));
        assert!(is_compat_mode_allowed(false, kind, false, remote, false));
    }
    assert!(!is_compat_mode_allowed(true, ZkVerifierKind::Dummy, false, local, false));
    assert!(!is_compat_mode_allowed(true, ZkVerifierKind::Dummy, true, remote, false));
    assert!(is_compat_mode_allowed(true, ZkVerifierKind::Dummy, true, local, false));
    assert!(is_compat_mode_allowed(true, ZkVerifierKind::Dummy, true, remote, true));
}

#[test]
fn binding_is_checked_before_compatibility() {
    let local = addr("127.0.0.1:8080");
    let remote = addr("0.0.0.0:8080");
    assert_eq!(
        check_bind(ZkVerifierKind::Dummy, remote, true, false, true),
        Err(StartupError::DummyBind)
    );
    assert_eq!(
        check_bind(ZkVerifierKind::Actum, remote, true, false, true),
        Err(StartupError::CompatNotIsolated)
    );
    assert!(check_bind(ZkVerifierKind::Actum, remote, false, false, false).is_ok());
    assert!(check_bind(ZkVerifierKind::Dummy, local, true, false, true).is_ok());
}

#[test]
fn verifiers_need_their_configuration() {
    let gap = |kind, dummy, vk, url, token, audience| {
        check_verifier(kind, dummy, vk, url, token, audience)
    };
    assert_eq!(
        gap(ZkVerifierKind::Dummy, false, true, true, true, true),
        Some(StartupError::DummyDisabled)
    );
    assert_eq!(gap(ZkVerifierKind::Dummy, true, false, false, false, false), None);
    assert_eq!(
        gap(ZkVerifierKind::Halo2, true, false, true, true, true),
        Some(StartupError::MissingVerifyingKey)
    );
    assert_eq!(
        gap(ZkVerifierKind::Actum, true, true, false, false, false),
        Some(StartupError::MissingActumUrl)
    );
    assert_eq!(
        gap(ZkVerifierKind::Actum, true, true, true, false, false),
        Some(StartupError::MissingActumToken)
    );
    assert_eq!(
        gap(ZkVerifierKind::Actum, true, true, true, true, false),
        Some(StartupError::MissingActumAudience)
    );
    assert_eq!(gap(ZkVerifierKind::Actum, false, false, true, true, true), None);
    assert!(StartupError::DummyDisabled.message().contains("GATEWAY_ALLOW_DUMMY_VERIFIER"));
}

#[test]
fn the_secret_key_is_base64_of_thirty_two_bytes() {
    assert_eq!(secret_key(Some(B64.encode([5u8; 32]).as_str())), Ok([5u8; 32]));
    assert_eq!(secret_key(None), Err(StartupError::MissingSecretKey));
    assert_eq!(secret_key(Some("*")), Err(StartupError::SecretKeyNotBase64));
    assert_eq!(
        secret_key(Some(B64.encode([5u8; 31]).as_str())),
        Err(StartupError::SecretKeyLength)
    );
}

#[test]
fn compatibility_handler_cannot_bypass_disabled_router_policy() {
    assert_eq!(compat_refusal(false), Some(404));
    assert_eq!(compat_refusal(true), None);
}

#[test]
fn compatibility_replies_keep_errors_short() {
    let shown = |reply| {
        let response = compat_proxy(reply);
        (response.status, response.body.text())
    };
    let (status, body) =
        shown(CompatReply::Body { status: 201, bytes: br#"{"b":1,"a":2}"#.to_vec() });
    assert_eq!((status, body.as_str()), (201, r#"{"a":2,"b":1}"#));
    for reply in [
        CompatReply::Unreachable,
        CompatReply::ErrorStatus,
        CompatReply::ReadError,
        CompatReply::Body { status: 200, bytes: b"SECRET".to_vec() },
    ] {
        let (status, body) = shown(reply);
        assert_eq!(status, 502);
        assert!(body.contains("error"));
        assert!(!body.contains("SECRET"));
    }
}

fn sealed() -> Envelope {
    let keypair = GatewayKeypair::generate();
    match seal_request_for_gateway(keypair.public_bytes(), TokenClass::C256, b"{}") {
        Ok((env, _)) => env,
        Err(e) => panic!("{}", e.message()),
    }
}

#[test]
fn envelopes_have_the_size_of_their_class() {
    assert!(check_envelope_size(&sealed()).is_ok());
    let mut env = sealed();
    env.version = 2;
    assert_eq!(check_envelope_size(&env), Err("unsupported_envelope_version"));
    let mut env = sealed();
    env.token_class = TokenClass::C512;
    assert_eq!(check_envelope_size(&env), Err("envelope_size_mismatch"));
    let mut env = sealed();
    env.ciphertext_b64 = "*".repeat(env.ciphertext_b64.len());
    assert_eq!(check_envelope_size(&env), Err("invalid_ciphertext"));
}

#[test]
fn bodies_are_read_up_to_their_limit() {
    let mut body = BoundedBody::begin(Some(b"identity"), Some(5), 5).ok().unwrap();
    assert!(body.push(b"abc").is_ok());
    assert!(body.push(b"").is_ok());
    assert_eq!(body.push(b"def"), Err("upstream_too_large"));
    assert!(body.push(b"de").is_ok());
    assert_eq!(body.push(b"f"), Err("upstream_too_large"));
    assert_eq!(body.finish(), b"abcde");
    assert_eq!(
        BoundedBody::begin(Some(b"gzip"), None, 5).err(),
        Some("compressed_upstream_unsupported")
    );
    assert_eq!(BoundedBody::begin(None, Some(6), 5).err(), Some("upstream_too_large"));
    assert!(BoundedBody::begin(None, None, 0).is_ok());
}
