use base64::{engine::general_purpose::STANDARD as B64, Engine as _};
use zk_llm_gateway::envelope::{
    open_request_at_gateway, seal_request_for_gateway, seal_request_with,
    seal_response_at_gateway, ClientCryptoContext, Envelope, EnvelopeError, GatewayKeypair,
};
use zk_llm_gateway::token::TokenClass;

fn seal(
    keypair: &GatewayKeypair,
    class: TokenClass,
    plaintext: &[u8],
) -> (Envelope, ClientCryptoContext) {
    match seal_request_for_gateway(keypair.public_bytes(), class, plaintext) {
        Ok(sealed) => sealed,
        Err(e) => panic!("request seal should succeed: {}", e.message()),
    }
}

fn respond(keypair: &GatewayKeypair, request: &Envelope, plaintext: &[u8]) -> Envelope {
    match seal_response_at_gateway(keypair, request, plaintext) {
        Ok(env) => env,
        Err(e) => panic!("response seal should succeed: {}", e.message()),
    }
}

#[test]
fn request_and_response_roundtrip() {
    let gateway_keypair = GatewayKeypair::generate();
    let request_plaintext =
        br#"{"model":"gpt-4o-mini","messages":[{"role":"user","content":"hello"}]}"#;

    let (request_env, client_ctx) = seal(&gateway_keypair, TokenClass::C512, request_plaintext);

    let opened_request = match open_request_at_gateway(&gateway_keypair, &request_env) {
        Ok(plaintext) => plaintext,
        Err(e) => panic!("gateway should decrypt request: {}", e.message()),
    };
    assert_eq!(opened_request, request_plaintext);

    let response_plaintext = br#"{"kind":"ok","response":{"output":"world"}}"#;
    let response_env = respond(&gateway_keypair, &request_env, response_plaintext);

    let opened_response = match client_ctx.open_response(&response_env) {
        Ok(plaintext) => plaintext,
        Err(e) => panic!("client should decrypt response: {}", e.message()),
    };
    assert_eq!(opened_response, response_plaintext);
}

#[test]
fn tampered_request_ciphertext_is_rejected() {
    let gateway_keypair = GatewayKeypair::generate();
    let (mut env, _ctx) = seal(&gateway_keypair, TokenClass::C256, br#"{"prompt":"test"}"#);

    let mut ciphertext = B64.decode(&env.ciphertext_b64).expect("valid ciphertext b64");
    ciphertext[0] ^= 0x01;
    env.ciphertext_b64 = B64.encode(ciphertext);

    match open_request_at_gateway(&gateway_keypair, &env) {
        Ok(_) => panic!("tampering must fail"),
        Err(err) => assert!(err.message().contains("AEAD decrypt failed")),
    }
}

#[test]
fn version_mismatch_is_rejected() {
    let gateway_keypair = GatewayKeypair::generate();
    let (request_env, client_ctx) = seal(&gateway_keypair, TokenClass::C256, br#"{"request":"v"}"#);

    let mut bad_request = request_env.clone();
    bad_request.version = Envelope::VERSION + 1;
    assert!(open_request_at_gateway(&gateway_keypair, &bad_request).is_err());

    let good_response = respond(&gateway_keypair, &request_env, br#"{"ok":true}"#);
    let mut bad_response = good_response;
    bad_response.version = Envelope::VERSION + 1;
    assert!(client_ctx.open_response(&bad_response).is_err());
}

#[test]
fn keys_have_known_values() {
    // The public key of the first secret in RFC 7748, section 6.1.
    let secret = [
        0x77, 0x07, 0x6d, 0x0a, 0x73, 0x18, 0xa5, 0x7d, 0x3c, 0x16, 0xc1, 0x72, 0x51, 0xb2, 0x66,
        0x45, 0xdf, 0x4c, 0x2f, 0x87, 0xeb, 0xc0, 0x99, 0x2a, 0xb1, 0x77, 0xfb, 0xa5, 0x1d, 0xb9,
        0x2c, 0x2a,
    ];
    let public = [
        0x85, 0x20, 0xf0, 0x09, 0x89, 0x30, 0xa7, 0x54, 0x74, 0x8b, 0x7d, 0xdc, 0xb4, 0x3e, 0xf7,
        0x5a, 0x0d, 0xbf, 0x3a, 0x0d, 0x26, 0x38, 0x1a, 0xf4, 0xeb, 0xa4, 0xa9, 0x8e, 0xaa, 0x9b,
        0x4e, 0x6a,
    ];
    let keypair = GatewayKeypair::from_secret_bytes(secret);
    assert_eq!(keypair.public_bytes(), public);
    assert_eq!(keypair.secret_bytes(), secret);
}

#[test]
fn sealing_depends_on_every_input() {
    let keypair = GatewayKeypair::from_secret_bytes([1u8; 32]);
    let other = GatewayKeypair::from_secret_bytes([2u8; 32]);
    let sealed = |public: [u8; 32], class: TokenClass, text: &[u8], secret: u8, nonce: u8| {
        match seal_request_with(public, class, text, [secret; 32], [nonce; 12]) {
            Ok((env, _)) => env,
            Err(e) => panic!("{}", e.message()),
        }
    };
    let base = sealed(keypair.public_bytes(), TokenClass::C256, b"{}", 3, 4);
    let again = sealed(keypair.public_bytes(), TokenClass::C256, b"{}", 3, 4);
    assert_eq!(base.ciphertext_b64, again.ciphertext_b64);
    assert_eq!(base.kem_pub_b64, again.kem_pub_b64);
    assert_eq!(base.nonce_b64, B64.encode([4u8; 12]));
    for changed in [
        sealed(other.public_bytes(), TokenClass::C256, b"{}", 3, 4),
        sealed(keypair.public_bytes(), TokenClass::C256, b"[]", 3, 4),
        sealed(keypair.public_bytes(), TokenClass::C256, b"{}", 5, 4),
        sealed(keypair.public_bytes(), TokenClass::C256, b"{}", 3, 6),
    ] {
        assert_ne!(base.ciphertext_b64, changed.ciphertext_b64);
    }
}

#[test]
fn ciphertexts_of_a_class_have_one_length() {
    let keypair = GatewayKeypair::generate();
    let (short, _) = seal(&keypair, TokenClass::C256, b"{}");
    let (long, _) = seal(&keypair, TokenClass::C256, &vec![b'x'; 8192]);
    assert_eq!(short.ciphertext_b64.len(), long.ciphertext_b64.len());
    assert_eq!(B64.decode(&short.ciphertext_b64).unwrap().len(), 8192 + 16);
    let answer = respond(&keypair, &short, b"{}");
    assert_eq!(B64.decode(&answer.ciphertext_b64).unwrap().len(), 8192 + 16);
}

#[test]
fn what_does_not_fit_is_not_sealed() {
    let keypair = GatewayKeypair::generate();
    match seal_request_for_gateway(keypair.public_bytes(), TokenClass::C256, &vec![b'x'; 8193]) {
        Ok(_) => panic!("too much was sealed"),
        Err(e) => assert_eq!(
            e.message(),
            "payload too large for token class (len=8193, max=8192)"
        ),
    }
}

#[test]
fn malformed_envelopes_are_refused_for_their_reason() {
    let keypair = GatewayKeypair::generate();
    let (env, ctx) = seal(&keypair, TokenClass::C256, b"{}");
    let reason = |env: &Envelope| match open_request_at_gateway(&keypair, env) {
        Ok(_) => panic!("a malformed envelope was opened"),
        Err(e) => e,
    };

    let mut bad = env.clone();
    bad.version = 9;
    assert!(matches!(reason(&bad), EnvelopeError::UnsupportedVersion(9)));
    let mut bad = env.clone();
    bad.kem_pub_b64 = "*".to_string();
    assert!(matches!(reason(&bad), EnvelopeError::InvalidKemPub));
    let mut bad = env.clone();
    bad.kem_pub_b64 = B64.encode([1u8; 31]);
    assert!(matches!(reason(&bad), EnvelopeError::KemPubLength));
    let mut bad = env.clone();
    bad.nonce_b64 = "*".to_string();
    assert!(matches!(reason(&bad), EnvelopeError::InvalidNonce));
    let mut bad = env.clone();
    bad.nonce_b64 = B64.encode([1u8; 11]);
    assert!(matches!(reason(&bad), EnvelopeError::NonceLength));
    let mut bad = env.clone();
    bad.ciphertext_b64 = "*".to_string();
    assert!(matches!(reason(&bad), EnvelopeError::InvalidCiphertext));
    let mut bad = env.clone();
    bad.token_class = TokenClass::C512;
    assert!(matches!(reason(&bad), EnvelopeError::DecryptFailed));

    let mut answer = respond(&keypair, &env, b"{}");
    answer.token_class = TokenClass::C512;
    assert!(matches!(ctx.open_response(&answer), Err(EnvelopeError::TokenClassMismatch)));
    assert_eq!(ctx.token_class(), TokenClass::C256);
}

#[test]
fn requests_and_responses_do_not_pass_for_each_other() {
    let keypair = GatewayKeypair::generate();
    let (env, ctx) = seal(&keypair, TokenClass::C256, b"{\"a\":1}");
    assert!(ctx.open_response(&env).is_err());
    let answer = respond(&keypair, &env, b"{\"b\":1}");
    assert!(open_request_at_gateway(&keypair, &answer).is_err());
    let (_, stranger) = seal(&keypair, TokenClass::C256, b"{}");
    assert!(stranger.open_response(&answer).is_err());
    assert!(open_request_at_gateway(&GatewayKeypair::generate(), &env).is_err());
}

#[test]
fn keys_are_written_as_base64() {
    let keypair = GatewayKeypair::from_secret_bytes([7u8; 32]);
    assert_eq!(keypair.secret_key_b64(), "BwcHBwcHBwcHBwcHBwcHBwcHBwcHBwcHBwcHBwcHBwc=");
    match zk_llm_gateway::crypto::decode_b64_32(&keypair.public_key_b64()) {
        Ok(bytes) => assert_eq!(bytes, keypair.public_bytes()),
        Err(e) => panic!("{:?}", e),
    }
}
