use base64::{engine::general_purpose::STANDARD as B64, Engine as _};
use zk_llm_gateway::session::{
    now_ms, open_session, seal_session, seal_session_with, EncryptedSession, Session, SessionError,
};
use zk_llm_gateway::types::ChatMessage;

#[test]
fn new_sessions_are_empty_and_salted() {
    let first = Session::new("s".to_string());
    let second = Session::new("s".to_string());
    assert_eq!(first.version, 1);
    assert_eq!(first.system_prompt, "s");
    assert!(first.messages.is_empty() && first.memory.is_empty() && first.summary.is_empty());
    assert_eq!(B64.decode(&first.redaction.salt_b64).unwrap().len(), 32);
    assert_ne!(first.redaction.salt_b64, second.redaction.salt_b64);
    assert!(first.created_at_ms <= now_ms());
}

#[test]
fn memory_items_get_fresh_ids() {
    let mut session = Session::new("s".to_string());
    session.push_memory("tea".to_string(), vec!["drink".to_string()]);
    session.push_memory("cat".to_string(), vec![]);
    assert_eq!(session.memory[0].text, "tea");
    assert_eq!(session.memory[0].tags, vec!["drink".to_string()]);
    assert_eq!(session.memory[1].text, "cat");
    assert_ne!(session.memory[0].id, session.memory[1].id);
    assert_eq!(session.memory[0].id.bytes[6] >> 4, 4);
    assert_eq!(session.memory[0].id.bytes[8] >> 6, 2);
    assert_eq!(
        session.memory[0].id.text(),
        uuid::Uuid::from_bytes(session.memory[0].id.bytes).to_string()
    );
}

#[test]
fn bare_histories_become_sessions() {
    let session = Session::from_history(vec![ChatMessage {
        role: "user".to_string(),
        content: "hi".to_string(),
        extra: vec![],
    }]);
    assert_eq!(session.system_prompt, "You are a helpful assistant.");
    assert_eq!(session.messages[0].content, "hi");
}

fn sealed() -> EncryptedSession {
    match seal_session(&[9u8; 32], b"{\"x\":1}".to_vec()) {
        Ok(record) => record,
        Err(e) => panic!("{}", e.message()),
    }
}

#[test]
fn encrypted_sessions_come_back() {
    let record = sealed();
    assert_eq!(record.enc_version, 1);
    assert_eq!(open_session(&record, Some([9u8; 32])), Ok(b"{\"x\":1}".to_vec()));
    let again = sealed();
    assert_ne!(record.salt_b64, again.salt_b64);
    assert_ne!(record.nonce_b64, again.nonce_b64);
    assert_ne!(record.ciphertext_b64, again.ciphertext_b64);
}

#[test]
fn sealing_depends_on_key_salt_and_nonce() {
    let seal = |key: u8, salt: u8, nonce: u8| {
        match seal_session_with(&[key; 32], [salt; 16], [nonce; 12], b"{}".to_vec()) {
            Ok(record) => record.ciphertext_b64,
            Err(e) => panic!("{}", e.message()),
        }
    };
    let base = seal(1, 2, 3);
    assert_eq!(base, seal(1, 2, 3));
    assert_ne!(base, seal(4, 2, 3));
    assert_ne!(base, seal(1, 4, 3));
    assert_ne!(base, seal(1, 2, 4));
}

#[test]
fn bad_records_are_refused_for_their_reason() {
    let key = Some([9u8; 32]);
    let refusal = |record: &EncryptedSession, key| open_session(record, key).unwrap_err();
    assert_eq!(refusal(&sealed(), None), SessionError::MissingKey);
    assert_eq!(refusal(&sealed(), Some([8u8; 32])), SessionError::DecryptFailed);
    let mut r = sealed();
    r.enc_version = 2;
    assert_eq!(refusal(&r, key), SessionError::UnsupportedVersion(2));
    assert_eq!(refusal(&r, key).message(), "unsupported session enc_version=2");
    let mut r = sealed();
    r.salt_b64 = "*".to_string();
    assert_eq!(refusal(&r, key), SessionError::InvalidSalt);
    r.salt_b64 = B64.encode([1u8; 15]);
    assert_eq!(refusal(&r, key), SessionError::SaltLength);
    let mut r = sealed();
    r.nonce_b64 = "*".to_string();
    assert_eq!(refusal(&r, key), SessionError::InvalidNonce);
    r.nonce_b64 = B64.encode([1u8; 13]);
    assert_eq!(refusal(&r, key), SessionError::NonceLength);
    let mut r = sealed();
    r.ciphertext_b64 = "*".to_string();
    assert_eq!(refusal(&r, key), SessionError::InvalidCiphertext);
}

#[test]
fn the_clock_is_read_in_milliseconds() {
    let reading = || {
        let passed = std::time::SystemTime::now().duration_since(std::time::UNIX_EPOCH);
        passed.unwrap().as_millis() as i64
    };
    let before = reading();
    let now = now_ms();
    let after = reading();
    assert!(before <= now && now <= after);
}
