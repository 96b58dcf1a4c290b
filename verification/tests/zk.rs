use zk_llm_gateway::halo2::{Halo2PlonkVerifier, Halo2PlonkVerifierConfig};
use zk_llm_gateway::token::TokenClass;
use zk_llm_gateway::zk::{
    replay_key, sha256, B64Bytes, DummyVerifier, ZkTicket, ZkVerifier, ZkVerifyError,
};

fn make_ticket(token_class: TokenClass, nullifier: Vec<u8>, proof: Vec<u8>) -> ZkTicket {
    ZkTicket {
        commitment_root: B64Bytes(vec![9u8; 32]),
        nullifier: B64Bytes(nullifier),
        token_class,
        proof: B64Bytes(proof),
    }
}

#[test]
fn dummy_verifier_accepts_minimal_valid_ticket() {
    let verifier = DummyVerifier;
    let ticket = make_ticket(TokenClass::C512, vec![1u8, 2, 3], vec![7u8]);

    let verified = verifier.verify(&ticket).expect("ticket should verify");
    assert_eq!(verified.token_class, TokenClass::C512);
    assert_eq!(verified.nullifier_key, vec![1u8, 2, 3]);
}

#[test]
fn dummy_verifier_rejects_empty_fields() {
    let verifier = DummyVerifier;
    let empty_proof = make_ticket(TokenClass::C256, vec![1u8], vec![]);
    assert!(verifier.verify(&empty_proof).is_err());

    let empty_nullifier = make_ticket(TokenClass::C256, vec![], vec![1u8]);
    assert!(verifier.verify(&empty_nullifier).is_err());
}

#[test]
fn replay_key_hashes_nullifier() {
    let ticket = make_ticket(TokenClass::C1024, vec![4u8, 5, 6], vec![1u8]);
    assert_eq!(replay_key(&ticket), sha256(&[4u8, 5, 6]));
}

#[test]
fn sha256_of_known_text() {
    let digest = sha256(b"abc");
    assert_eq!(digest.len(), 32);
    assert_eq!(&digest[..4], &[0xba, 0x78, 0x16, 0xbf]);
    assert_eq!(&digest[28..], &[0xf2, 0x00, 0x15, 0xad]);
}

#[test]
fn verify_errors_have_messages() {
    assert_eq!(ZkVerifyError::InvalidProof.message(), "invalid proof");
    let inner = ZkVerifyError::Internal("x".to_string());
    assert!(inner.message().contains("x"));
}

#[test]
fn halo2_verifier_refuses_everything() {
    let cfg = Halo2PlonkVerifierConfig {
        verifying_key_path: "vk.bin".to_string(),
        params_path: None,
    };
    let err = Halo2PlonkVerifier::new(cfg).expect_err("no circuit is shipped");
    assert_eq!(
        err.message(),
        "Halo2 verifier not enabled in this build. Recompile with --features halo2"
    );
    let ticket = make_ticket(TokenClass::C256, vec![1u8], vec![1u8]);
    match Halo2PlonkVerifier.verify(&ticket) {
        Err(ZkVerifyError::Internal(m)) => {
            assert_eq!(m, "halo2 verifier not enabled in this build")
        }
        _ => panic!("a ticket was accepted or found invalid"),
    }
}
