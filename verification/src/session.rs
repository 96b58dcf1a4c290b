//! A local session: the conversation, the memory and the redaction state, and
//! the record in which it is kept encrypted at rest.

use vstd::prelude::*;
use vstd::string::*;
use vstd::utf8::encode_utf8;

use crate::clock;
use crate::crypto;
use crate::crypto::{
    aead_ciphertext, aead_fits, aead_opened, base64_bytes, base64_text, hkdf_key, Uuid,
};
use crate::redaction::{RedactionState, RedactionView};
use crate::text;
use crate::text::{decimal, views};
use crate::types::{message_views, ChatMessage, MessageView};

verus! {

/// Something to remember, kept by the client and revealed selectively.
#[derive(Debug)]
pub struct MemoryItem {
    pub id: Uuid,
    pub created_at_ms: i64,
    pub text: String,
    pub tags: Vec<String>,
}

/// What a memory item holds.
pub struct MemoryView {
    pub id: Seq<u8>,
    pub created_at_ms: i64,
    pub text: Seq<char>,
    pub tags: Seq<Seq<char>>,
}

impl View for MemoryItem {
    type V = MemoryView;

    open spec fn view(&self) -> MemoryView {
        MemoryView {
            id: self.id.bytes@,
            created_at_ms: self.created_at_ms,
            text: self.text@,
            tags: views(self.tags@),
        }
    }
}

impl Clone for MemoryItem {
    fn clone(&self) -> (r: Self)
        ensures
            r@ == self@,
    {
        MemoryItem {
            id: self.id,
            created_at_ms: self.created_at_ms,
            text: self.text.clone(),
            tags: text::copy_texts(&self.tags),
        }
    }
}

/// What some memory items hold.
pub open spec fn memory_views(items: Seq<MemoryItem>) -> Seq<MemoryView> {
    Seq::new(items.len(), |i: int| items[i]@)
}

/// A long-lived local session.
pub struct Session {
    pub version: u32,
    pub created_at_ms: i64,
    pub system_prompt: String,
    /// The whole conversation.
    pub messages: Vec<ChatMessage>,
    /// Stable items that the client can reveal selectively.
    pub memory: Vec<MemoryItem>,
    /// Rolling summary.
    pub summary: String,
    /// What rehydration needs.
    pub redaction: RedactionState,
}

/// What a session holds.
#[verifier::ext_equal]
pub struct SessionView {
    pub version: u32,
    pub created_at_ms: i64,
    pub system_prompt: Seq<char>,
    pub messages: Seq<MessageView>,
    pub memory: Seq<MemoryView>,
    pub summary: Seq<char>,
    pub redaction: RedactionView,
}

impl View for Session {
    type V = SessionView;

    open spec fn view(&self) -> SessionView {
        SessionView {
            version: self.version,
            created_at_ms: self.created_at_ms,
            system_prompt: self.system_prompt@,
            messages: message_views(self.messages@),
            memory: memory_views(self.memory@),
            summary: self.summary@,
            redaction: self.redaction@,
        }
    }
}

/// Whether a number is the milliseconds from the Unix epoch to a point in time.
pub open spec fn is_time_ms(ms: i64) -> bool {
    exists|time: std::time::SystemTime| ms == #[trigger] clock::epoch_ms(time) as i64
}

/// Milliseconds since the Unix epoch, those of the time that the clock shows,
/// with the same 64 bits.
pub fn now_ms() -> (r: i64)
    ensures
        is_time_ms(r),
{
    clock::now_ms_u64() as i64
}

/// Whether a session is new, with some time and some salt.
pub open spec fn is_new_session(s: SessionView, system_prompt: Seq<char>) -> bool {
    &&& s.version == 1
    &&& is_time_ms(s.created_at_ms)
    &&& s.system_prompt == system_prompt
    &&& s.messages == Seq::<MessageView>::empty()
    &&& s.memory == Seq::<MemoryView>::empty()
    &&& s.summary == Seq::<char>::empty()
    &&& s.redaction.entries.len() == 0
    &&& s.redaction.custom_terms.len() == 0
    &&& exists|salt: Seq<u8>|
        salt.len() == 32 && s.redaction.salt_b64 == #[trigger] base64_text(salt) && base64_bytes(
            s.redaction.salt_b64,
        ) == Some(salt)
}

impl Session {
    /// A session with a fresh salt and nothing in it.
    pub fn new(system_prompt: String) -> (r: Session)
        ensures
            is_new_session(r@, system_prompt@),
    {
        let salt = crypto::random_bytes(32);
        let salt_b64 = crypto::base64_encode(salt.as_slice());
        let summary = String::new();
        let r = Session {
            version: 1,
            created_at_ms: now_ms(),
            system_prompt,
            messages: Vec::new(),
            memory: Vec::new(),
            summary,
            redaction: RedactionState::new(salt_b64),
        };
        proof {
            assert(r@.messages =~= Seq::empty());
            assert(r@.memory =~= Seq::empty());
            assert(r@.summary =~= Seq::empty());
            assert(r@.redaction.salt_b64 == base64_text(salt@));
        }
        r
    }

    /// A session that goes on from a bare conversation.
    pub fn from_history(history: Vec<ChatMessage>) -> (r: Session)
        ensures
            r@.messages == message_views(history@),
            is_new_session(
                SessionView { messages: Seq::empty(), ..r@ },
                "You are a helpful assistant."@,
            ),
    {
        let mut s = Session::new(String::from_str("You are a helpful assistant."));
        let ghost before = s@;
        s.messages = history;
        proof {
            assert(SessionView { messages: Seq::empty(), ..s@ } =~= before);
        }
        s
    }

    /// Adds something to remember, under a fresh identifier.
    pub fn push_memory(&mut self, text: String, tags: Vec<String>)
        ensures
            final(self)@ == (SessionView { memory: final(self)@.memory, ..old(self)@ }),
            final(self)@.memory.len() == old(self)@.memory.len() + 1,
            final(self)@.memory.drop_last() == old(self)@.memory,
            is_new_memory(final(self)@.memory.last(), text@, views(tags@)),
    {
        let ghost before = self.memory@;
        let item = MemoryItem { id: crypto::random_uuid(), created_at_ms: now_ms(), text, tags };
        self.memory.push(item);
        proof {
            assert(memory_views(self.memory@).drop_last() =~= memory_views(before));
        }
    }
}

/// Whether something to remember is new: under a random identifier, with some
/// time.
pub open spec fn is_new_memory(item: MemoryView, text: Seq<char>, tags: Seq<Seq<char>>) -> bool {
    &&& crypto::is_random_uuid(item.id)
    &&& is_time_ms(item.created_at_ms)
    &&& item.text == text
    &&& item.tags == tags
}

/// A session encrypted at rest.
#[derive(Debug)]
pub struct EncryptedSession {
    pub enc_version: u32,
    pub salt_b64: String,
    pub nonce_b64: String,
    pub ciphertext_b64: String,
}

/// What an encrypted session holds.
pub struct EncryptedView {
    pub enc_version: u32,
    pub salt_b64: Seq<char>,
    pub nonce_b64: Seq<char>,
    pub ciphertext_b64: Seq<char>,
}

impl View for EncryptedSession {
    type V = EncryptedView;

    open spec fn view(&self) -> EncryptedView {
        EncryptedView {
            enc_version: self.enc_version,
            salt_b64: self.salt_b64@,
            nonce_b64: self.nonce_b64@,
            ciphertext_b64: self.ciphertext_b64@,
        }
    }
}

/// Why an encrypted session cannot be opened or made.
#[derive(Debug, Copy, Clone, PartialEq, Eq, Structural)]
pub enum SessionError {
    UnsupportedVersion(u32),
    MissingKey,
    InvalidSalt,
    SaltLength,
    InvalidNonce,
    NonceLength,
    InvalidCiphertext,
    DecryptFailed,
    EncryptFailed,
}

impl SessionError {
    /// The message of the error.
    pub open spec fn spec_message(self) -> Seq<char> {
        match self {
            SessionError::UnsupportedVersion(v) => "unsupported session enc_version="@ + decimal(
                v as nat,
            ),
            SessionError::MissingKey => "session file is encrypted; provide --session-key-b64"@,
            SessionError::InvalidSalt => "invalid encrypted session salt"@,
            SessionError::SaltLength => "encrypted session salt must be 16 bytes"@,
            SessionError::InvalidNonce => "invalid encrypted session nonce"@,
            SessionError::NonceLength => "encrypted session nonce must be 12 bytes"@,
            SessionError::InvalidCiphertext => "invalid encrypted session ciphertext"@,
            SessionError::DecryptFailed => "session decrypt failed"@,
            SessionError::EncryptFailed => "encrypt session failed"@,
        }
    }

    /// The message of the error.
    pub fn message(&self) -> (r: String)
        ensures
            r@ == self.spec_message(),
    {
        match self {
            SessionError::UnsupportedVersion(v) => {
                let mut m = String::from_str("unsupported session enc_version=");
                m.append(text::decimal_text(*v as u64).as_str());
                m
            },
            SessionError::MissingKey => String::from_str(
                "session file is encrypted; provide --session-key-b64",
            ),
            SessionError::InvalidSalt => String::from_str("invalid encrypted session salt"),
            SessionError::SaltLength => String::from_str("encrypted session salt must be 16 bytes"),
            SessionError::InvalidNonce => String::from_str("invalid encrypted session nonce"),
            SessionError::NonceLength => String::from_str(
                "encrypted session nonce must be 12 bytes",
            ),
            SessionError::InvalidCiphertext => String::from_str(
                "invalid encrypted session ciphertext",
            ),
            SessionError::DecryptFailed => String::from_str("session decrypt failed"),
            SessionError::EncryptFailed => String::from_str("encrypt session failed"),
        }
    }
}

/// The label of the session key and what the ciphertext is bound to.
pub open spec fn session_label() -> Seq<u8> {
    encode_utf8("zk-llm-session-v1"@)
}

/// The key of a record under a master key.
pub open spec fn session_key(master: Seq<u8>, salt: Seq<u8>) -> Seq<u8> {
    hkdf_key(Some(salt), master, session_label())
}

/// The record made with a given salt and nonce.
pub open spec fn session_record(
    master: Seq<u8>,
    salt: Seq<u8>,
    nonce: Seq<u8>,
    plaintext: Seq<u8>,
) -> EncryptedView {
    EncryptedView {
        enc_version: 1,
        salt_b64: base64_text(salt),
        nonce_b64: base64_text(nonce),
        ciphertext_b64: base64_text(
            aead_ciphertext(session_key(master, salt), nonce, session_label(), plaintext),
        ),
    }
}

/// What opening a record gives.
pub open spec fn opened_session(record: EncryptedView, master: Option<Seq<u8>>) -> Result<
    Seq<u8>,
    SessionError,
> {
    if record.enc_version != 1 {
        Err(SessionError::UnsupportedVersion(record.enc_version))
    } else if master is None {
        Err(SessionError::MissingKey)
    } else {
        match (base64_bytes(record.salt_b64), base64_bytes(record.nonce_b64)) {
            (None, _) => Err(SessionError::InvalidSalt),
            (Some(salt), nonce_bytes) => if salt.len() != 16 {
                Err(SessionError::SaltLength)
            } else {
                match nonce_bytes {
                    None => Err(SessionError::InvalidNonce),
                    Some(nonce) => if nonce.len() != 12 {
                        Err(SessionError::NonceLength)
                    } else {
                        match base64_bytes(record.ciphertext_b64) {
                            None => Err(SessionError::InvalidCiphertext),
                            Some(ciphertext) => match aead_opened(
                                session_key(master->0, salt),
                                nonce,
                                session_label(),
                                ciphertext,
                            ) {
                                None => Err(SessionError::DecryptFailed),
                                Some(plaintext) => Ok(plaintext),
                            },
                        }
                    },
                }
            },
        }
    }
}

/// A new session has nothing in it but its system prompt, a time and a salt of
/// thirty-two bytes, and something new to remember has its text and its tags.
pub proof fn law_new_session_is_empty(
    s: SessionView,
    system_prompt: Seq<char>,
    item: MemoryView,
    text: Seq<char>,
    tags: Seq<Seq<char>>,
)
    ensures
        is_new_session(s, system_prompt) ==> {
            &&& s.version == 1
            &&& s.system_prompt == system_prompt
            &&& s.messages.len() == 0
            &&& s.memory.len() == 0
            &&& s.summary.len() == 0
            &&& s.redaction.entries.len() == 0
            &&& s.redaction.custom_terms.len() == 0
            &&& base64_bytes(s.redaction.salt_b64) is Some
            &&& base64_bytes(s.redaction.salt_b64)->0.len() == 32
            &&& is_time_ms(s.created_at_ms)
        },
        is_new_memory(item, text, tags) ==> {
            &&& item.text == text
            &&& item.tags == tags
            &&& item.id.len() == 16
            &&& item.id[6] / 16 == 4
            &&& item.id[8] / 64 == 2
            &&& is_time_ms(item.created_at_ms)
        },
{
}

/// A session is encrypted under a key of its own, which its salt and the master key
/// give for sessions, and is bound to that use.
pub proof fn law_session_is_sealed_under_its_own_key(
    master: Seq<u8>,
    salt: Seq<u8>,
    nonce: Seq<u8>,
    plaintext: Seq<u8>,
)
    ensures
        ({
            let record = session_record(master, salt, nonce, plaintext);
            &&& record.enc_version == 1
            &&& record.salt_b64 == base64_text(salt)
            &&& record.nonce_b64 == base64_text(nonce)
            &&& record.ciphertext_b64 == base64_text(
                aead_ciphertext(
                    hkdf_key(Some(salt), master, encode_utf8("zk-llm-session-v1"@)),
                    nonce,
                    encode_utf8("zk-llm-session-v1"@),
                    plaintext,
                ),
            )
        }),
{
}

/// An encrypted session is opened exactly where its version is the first, a key is
/// given, its salt has sixteen bytes, its nonce twelve, its ciphertext is base64, and
/// the cipher finds it authentic. The first of these that fails is reported.
pub proof fn law_session_opens_only_if_authentic(record: EncryptedView, master: Option<Seq<u8>>)
    ensures
        ({
            let salt = base64_bytes(record.salt_b64);
            let nonce = base64_bytes(record.nonce_b64);
            let ciphertext = base64_bytes(record.ciphertext_b64);
            let message = aead_opened(
                hkdf_key(salt, master->0, encode_utf8("zk-llm-session-v1"@)),
                nonce->0,
                encode_utf8("zk-llm-session-v1"@),
                ciphertext->0,
            );
            opened_session(record, master) == if record.enc_version != 1 {
                Err::<Seq<u8>, SessionError>(SessionError::UnsupportedVersion(record.enc_version))
            } else if master is None {
                Err::<Seq<u8>, SessionError>(SessionError::MissingKey)
            } else if salt is None {
                Err::<Seq<u8>, SessionError>(SessionError::InvalidSalt)
            } else if salt->0.len() != 16 {
                Err::<Seq<u8>, SessionError>(SessionError::SaltLength)
            } else if nonce is None {
                Err::<Seq<u8>, SessionError>(SessionError::InvalidNonce)
            } else if nonce->0.len() != 12 {
                Err::<Seq<u8>, SessionError>(SessionError::NonceLength)
            } else if ciphertext is None {
                Err::<Seq<u8>, SessionError>(SessionError::InvalidCiphertext)
            } else if message is None {
                Err::<Seq<u8>, SessionError>(SessionError::DecryptFailed)
            } else {
                Ok::<Seq<u8>, SessionError>(message->0)
            }
        }),
{
}

fn derive_session_key(master: &[u8; 32], salt: &[u8; 16]) -> (r: [u8; 32])
    ensures
        r@ == session_key(master@, salt@),
{
    crypto::hkdf_sha256(
        Some(salt.as_slice()),
        master.as_slice(),
        "zk-llm-session-v1".as_bytes(),
    ).unwrap()
}

/// Encrypts a serialized session with a given salt and nonce.
pub fn seal_session_with(
    master: &[u8; 32],
    salt: [u8; 16],
    nonce: [u8; 12],
    plaintext: Vec<u8>,
) -> (r: Result<EncryptedSession, SessionError>)
    ensures
        r is Ok <==> aead_fits(plaintext@.len()),
        r matches Err(e) ==> e == SessionError::EncryptFailed,
        r matches Ok(record) ==> {
            &&& record@ == session_record(master@, salt@, nonce@, plaintext@)
            &&& opened_session(record@, Some(master@)) == Ok::<Seq<u8>, SessionError>(plaintext@)
        },
{
    let mut key = derive_session_key(master, &salt);
    let sealed = crypto::aead_seal(
        &key,
        &nonce,
        "zk-llm-session-v1".as_bytes(),
        plaintext.as_slice(),
    );
    let mut used = plaintext;
    crypto::wipe(&mut used);
    crypto::wipe_key(&mut key);
    match sealed {
        None => Err(SessionError::EncryptFailed),
        Some(ciphertext) => Ok(
            EncryptedSession {
                enc_version: 1,
                salt_b64: crypto::base64_encode(salt.as_slice()),
                nonce_b64: crypto::base64_encode(nonce.as_slice()),
                ciphertext_b64: crypto::base64_encode(ciphertext.as_slice()),
            },
        ),
    }
}

/// Encrypts a serialized session under a fresh salt and nonce.
pub fn seal_session(master: &[u8; 32], plaintext: Vec<u8>) -> (r: Result<
    EncryptedSession,
    SessionError,
>)
    ensures
        r is Ok <==> aead_fits(plaintext@.len()),
        r matches Err(e) ==> e == SessionError::EncryptFailed,
        r matches Ok(record) ==> {
            &&& exists|salt: Seq<u8>, nonce: Seq<u8>|
                salt.len() == 16 && nonce.len() == 12 && record@ == #[trigger] session_record(
                    master@,
                    salt,
                    nonce,
                    plaintext@,
                )
            &&& opened_session(record@, Some(master@)) == Ok::<Seq<u8>, SessionError>(plaintext@)
        },
{
    let salt_bytes = crypto::random_bytes(16);
    let nonce_bytes = crypto::random_bytes(12);
    let salt = crypto::to_array::<16>(salt_bytes.as_slice());
    let nonce = crypto::to_array::<12>(nonce_bytes.as_slice());
    seal_session_with(master, salt, nonce, plaintext)
}

/// Decrypts a serialized session.
pub fn open_session(record: &EncryptedSession, master: Option<[u8; 32]>) -> (r: Result<
    Vec<u8>,
    SessionError,
>)
    ensures
        match opened_session(
            record@,
            match master {
                Some(key) => Some(key@),
                None => None,
            },
        ) {
            Ok(plaintext) => r is Ok && r->Ok_0@ == plaintext,
            Err(e) => r == Err::<Vec<u8>, SessionError>(e),
        },
{
    if record.enc_version != 1 {
        return Err(SessionError::UnsupportedVersion(record.enc_version));
    }
    let key = match master {
        Some(key) => key,
        None => return Err(SessionError::MissingKey),
    };
    let salt_bytes = match crypto::base64_decode(record.salt_b64.as_str()) {
        Ok(bytes) => bytes,
        Err(_) => return Err(SessionError::InvalidSalt),
    };
    if salt_bytes.len() != 16 {
        return Err(SessionError::SaltLength);
    }
    let nonce_bytes = match crypto::base64_decode(record.nonce_b64.as_str()) {
        Ok(bytes) => bytes,
        Err(_) => return Err(SessionError::InvalidNonce),
    };
    if nonce_bytes.len() != 12 {
        return Err(SessionError::NonceLength);
    }
    let ciphertext = match crypto::base64_decode(record.ciphertext_b64.as_str()) {
        Ok(bytes) => bytes,
        Err(_) => return Err(SessionError::InvalidCiphertext),
    };
    let salt = crypto::to_array::<16>(salt_bytes.as_slice());
    let nonce = crypto::to_array::<12>(nonce_bytes.as_slice());
    let mut aead_key = derive_session_key(&key, &salt);
    let opened = crypto::aead_open(
        &aead_key,
        &nonce,
        "zk-llm-session-v1".as_bytes(),
        ciphertext.as_slice(),
    );
    crypto::wipe_key(&mut aead_key);
    match opened {
        Some(plaintext) => Ok(plaintext),
        None => Err(SessionError::DecryptFailed),
    }
}

/// An encrypted session is not read without a key.
pub proof fn law_encrypted_session_needs_a_key(record: EncryptedView)
    ensures
        opened_session(record, None) is Err,
        record.enc_version == 1 ==> opened_session(record, None) == Err::<Seq<u8>, SessionError>(
            SessionError::MissingKey,
        ),
{
}

/// An encrypted session is not read under a key whose derived key the cipher
/// refuses.
pub proof fn law_encrypted_session_needs_its_key(record: EncryptedView, other: Seq<u8>)
    requires
        base64_bytes(record.salt_b64) matches Some(salt) && base64_bytes(
            record.nonce_b64,
        ) matches Some(nonce) && base64_bytes(record.ciphertext_b64) matches Some(ciphertext)
            && aead_opened(session_key(other, salt), nonce, session_label(), ciphertext) is None,
    ensures
        opened_session(record, Some(other)) is Err,
{
}

} // verus!
