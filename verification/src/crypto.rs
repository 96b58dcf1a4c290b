//! Cryptographic primitives, randomness and identifiers.
//!
//! Each function here hands one call to an outside crate. What such a call
//! returns is given a name that depends on its arguments alone; the few facts
//! that the rest of the library rests on stand beside the name.

use base64::engine::general_purpose::STANDARD as B64;
use base64::Engine as _;
use chacha20poly1305::aead::{Aead, Payload};
use chacha20poly1305::{ChaCha20Poly1305, Key, KeyInit, Nonce};
use hkdf::Hkdf;
use rand::rngs::OsRng;
use rand::{Rng, RngCore};
use sha2::{Digest, Sha256};
use vstd::prelude::*;
use vstd::utf8::encode_utf8;
use x25519_dalek::{PublicKey, StaticSecret};
use zeroize::Zeroize;

use crate::text::hex;

verus! {

/// The error of a base64 decoder.
#[verifier::external_type_specification]
#[verifier::external_body]
pub struct ExDecodeError(base64::DecodeError);

/// The error of an authenticated cipher.
#[verifier::external_type_specification]
#[verifier::external_body]
pub struct ExAeadError(chacha20poly1305::Error);

/// The error of a key derivation whose output is too long.
#[verifier::external_type_specification]
#[verifier::external_body]
pub struct ExInvalidLength(hkdf::InvalidLength);

/// The padded standard base64 text of some bytes.
pub uninterp spec fn base64_text(bytes: Seq<u8>) -> Seq<char>;

/// The bytes that a padded standard base64 text stands for, if it is one.
pub uninterp spec fn base64_bytes(text: Seq<char>) -> Option<Seq<u8>>;

/// The length of a padded base64 text for `n` bytes.
pub open spec fn base64_len(n: nat) -> nat {
    ((n + 2) / 3) * 4
}

/// Calls `base64`'s `STANDARD.encode`. The text depends on the bytes alone, is
/// made of single-byte characters in groups of four for every three bytes, and
/// decodes to the bytes again. (A byte slice never exceeds `isize::MAX`, so the
/// length of the text does not overflow.)
#[verifier::external_body]
pub(crate) fn base64_encode(bytes: &[u8]) -> (r: String)
    ensures
        r@ == base64_text(bytes@),
        base64_bytes(r@) == Some(bytes@),
        r@.len() == base64_len(bytes@.len()),
        encode_utf8(r@).len() == base64_len(bytes@.len()),
{
    B64.encode(bytes)
}

/// Calls `base64`'s `STANDARD.decode`. The outcome depends on the text alone
/// and is given the name `base64_bytes`. Only the one canonical text of some bytes
/// is accepted, with all its padding and no stray bits, so that the bytes fix it
/// and its length.
#[verifier::external_body]
pub(crate) fn base64_decode(text: &str) -> (r: Result<Vec<u8>, base64::DecodeError>)
    ensures
        r matches Ok(bytes) ==> base64_bytes(text@) == Some(bytes@),
        r matches Ok(bytes) ==> base64_text(bytes@) == text@,
        r matches Ok(bytes) ==> text@.len() == base64_len(bytes@.len()),
        r is Err ==> base64_bytes(text@) is None,
{
    B64.decode(text)
}

/// What ChaCha20-Poly1305 makes of a message.
pub uninterp spec fn aead_ciphertext(
    key: Seq<u8>,
    nonce: Seq<u8>,
    aad: Seq<u8>,
    message: Seq<u8>,
) -> Seq<u8>;

/// The message that a ChaCha20-Poly1305 ciphertext stands for, if it is
/// authentic.
pub uninterp spec fn aead_plaintext(
    key: Seq<u8>,
    nonce: Seq<u8>,
    aad: Seq<u8>,
    ciphertext: Seq<u8>,
) -> Option<Seq<u8>>;

/// The longest message that the 32-bit block counter has blocks for: all but two
/// of those that it can count, of 64 bytes each.
pub const MAX_AEAD_BYTES: u64 = 274_877_906_816;

/// Whether the block counter has blocks for a message.
pub open spec fn aead_fits(len: nat) -> bool {
    len <= MAX_AEAD_BYTES
}

/// Whether the cipher answers for a message of some length. It refuses one with
/// as many whole blocks as the counter can count, and does not return on one
/// that has fewer but is too long for the blocks that are left.
pub open spec fn aead_answers(len: int) -> bool {
    len <= MAX_AEAD_BYTES || len >= MAX_AEAD_BYTES + 64
}

/// Calls `ChaCha20Poly1305::encrypt`. It succeeds exactly on messages that fit
/// the block counter; the ciphertext depends on the arguments alone, is sixteen
/// bytes longer than the message and opens to the message again. It panics where
/// the counter runs out under way.
#[verifier::external_body]
pub(crate) fn aead_encrypt(
    key: &[u8; 32],
    nonce: &[u8; 12],
    aad: &[u8],
    message: &[u8],
) -> (r: Result<Vec<u8>, chacha20poly1305::Error>)
    requires
        aead_answers(message@.len() as int),
    ensures
        r is Ok <==> aead_fits(message@.len()),
        r matches Ok(c) ==> c@ == aead_ciphertext(key@, nonce@, aad@, message@),
        r matches Ok(c) ==> aead_plaintext(key@, nonce@, aad@, c@) == Some(message@),
        r matches Ok(c) ==> c@.len() == message@.len() + 16,
{
    let aead = ChaCha20Poly1305::new(Key::from_slice(key));
    aead.encrypt(Nonce::from_slice(nonce), Payload { msg: message, aad })
}

/// Calls `ChaCha20Poly1305::decrypt`. The outcome depends on the arguments
/// alone and is given the name `aead_plaintext`; a message is sixteen bytes
/// shorter than its ciphertext. It panics where the counter runs out under way.
#[verifier::external_body]
pub(crate) fn aead_decrypt(
    key: &[u8; 32],
    nonce: &[u8; 12],
    aad: &[u8],
    ciphertext: &[u8],
) -> (r: Result<Vec<u8>, chacha20poly1305::Error>)
    requires
        aead_answers(ciphertext@.len() - 16),
    ensures
        r matches Ok(m) ==> aead_plaintext(key@, nonce@, aad@, ciphertext@) == Some(m@),
        r matches Ok(m) ==> m@.len() + 16 == ciphertext@.len(),
        r is Err ==> aead_plaintext(key@, nonce@, aad@, ciphertext@) is None,
{
    let aead = ChaCha20Poly1305::new(Key::from_slice(key));
    aead.decrypt(Nonce::from_slice(nonce), Payload { msg: ciphertext, aad })
}

/// The message that a ciphertext stands for, if it is authentic and short enough
/// for the block counter.
pub open spec fn aead_opened(
    key: Seq<u8>,
    nonce: Seq<u8>,
    aad: Seq<u8>,
    ciphertext: Seq<u8>,
) -> Option<Seq<u8>> {
    if ciphertext.len() > MAX_AEAD_BYTES + 16 {
        None
    } else {
        aead_plaintext(key, nonce, aad, ciphertext)
    }
}

/// Opens a ciphertext, unless it is too long for the block counter.
pub(crate) fn aead_open(
    key: &[u8; 32],
    nonce: &[u8; 12],
    aad: &[u8],
    ciphertext: &[u8],
) -> (r: Option<Vec<u8>>)
    ensures
        match aead_opened(key@, nonce@, aad@, ciphertext@) {
            Some(message) => r is Some && r->0@ == message,
            None => r is None,
        },
{
    if ciphertext.len() as u64 > MAX_AEAD_BYTES + 16 {
        return None;
    }
    match aead_decrypt(key, nonce, aad, ciphertext) {
        Ok(message) => Some(message),
        Err(_) => None,
    }
}

/// Seals a message, unless it is too long for the block counter.
pub(crate) fn aead_seal(
    key: &[u8; 32],
    nonce: &[u8; 12],
    aad: &[u8],
    message: &[u8],
) -> (r: Option<Vec<u8>>)
    ensures
        r is Some <==> aead_fits(message@.len()),
        r matches Some(c) ==> {
            &&& c@ == aead_ciphertext(key@, nonce@, aad@, message@)
            &&& aead_opened(key@, nonce@, aad@, c@) == Some(message@)
            &&& c@.len() == message@.len() + 16
        },
{
    if message.len() as u64 > MAX_AEAD_BYTES {
        return None;
    }
    match aead_encrypt(key, nonce, aad, message) {
        Ok(ciphertext) => Some(ciphertext),
        Err(_) => None,
    }
}

/// Thirty-two bytes of HKDF-SHA256 output.
pub uninterp spec fn hkdf_key(salt: Option<Seq<u8>>, secret: Seq<u8>, info: Seq<u8>) -> Seq<u8>;

/// Optional bytes by what they hold.
pub open spec fn optional_bytes(bytes: Option<&[u8]>) -> Option<Seq<u8>> {
    match bytes {
        Some(b) => Some(b@),
        None => None,
    }
}

/// Calls `Hkdf::<Sha256>::new` and `expand` for thirty-two bytes, a length that
/// `expand` always grants. The key depends on the arguments alone.
#[verifier::external_body]
pub(crate) fn hkdf_sha256(
    salt: Option<&[u8]>,
    secret: &[u8],
    info: &[u8],
) -> (r: Result<[u8; 32], hkdf::InvalidLength>)
    ensures
        r is Ok,
        r->Ok_0@ == hkdf_key(optional_bytes(salt), secret@, info@),
{
    let mut okm = [0u8; 32];
    Hkdf::<Sha256>::new(salt, secret).expand(info, &mut okm)?;
    Ok(okm)
}

/// The SHA-256 digest of some bytes.
pub uninterp spec fn sha256_digest(bytes: Seq<u8>) -> Seq<u8>;

/// Calls `sha2`'s `Sha256::digest`. The digest depends on the bytes alone and
/// has thirty-two bytes.
#[verifier::external_body]
pub(crate) fn sha256_bytes(bytes: &[u8]) -> (r: Vec<u8>)
    ensures
        r@ == sha256_digest(bytes@),
        r@.len() == 32,
{
    Sha256::digest(bytes).to_vec()
}

/// The X25519 public key of a secret.
pub uninterp spec fn x25519_public_key(secret: Seq<u8>) -> Seq<u8>;

/// What X25519 makes of one side's secret and the other side's public key.
pub uninterp spec fn x25519_shared_secret(secret: Seq<u8>, public: Seq<u8>) -> Seq<u8>;

/// Calls `PublicKey::from` on an X25519 secret. The key depends on the secret
/// alone.
#[verifier::external_body]
pub(crate) fn x25519_public(secret: &[u8; 32]) -> (r: [u8; 32])
    ensures
        r@ == x25519_public_key(secret@),
{
    PublicKey::from(&StaticSecret::from(*secret)).to_bytes()
}

/// Calls `StaticSecret::diffie_hellman`. The shared secret depends on the
/// arguments alone, and whoever holds the secret behind `public` obtains the
/// same one from the public key of `secret`.
#[verifier::external_body]
pub(crate) fn x25519_shared(secret: &[u8; 32], public: &[u8; 32]) -> (r: [u8; 32])
    ensures
        r@ == x25519_shared_secret(secret@, public@),
        forall|other: Seq<u8>|
            other.len() == 32 && public@ == #[trigger] x25519_public_key(other) ==> r@
                == x25519_shared_secret(other, x25519_public_key(secret@)),
{
    StaticSecret::from(*secret).diffie_hellman(&PublicKey::from(*public)).to_bytes()
}

/// Calls `StaticSecret::random_from_rng` on the operating system's generator.
/// Nothing is claimed of the bytes.
#[verifier::external_body]
pub(crate) fn random_secret() -> (r: [u8; 32]) {
    StaticSecret::random_from_rng(OsRng).to_bytes()
}

/// Calls `OsRng.fill_bytes` on a fresh buffer: the result has the length asked
/// for, and nothing is claimed of the bytes.
#[verifier::external_body]
pub(crate) fn random_bytes(len: usize) -> (r: Vec<u8>)
    ensures
        r@.len() == len,
{
    let mut bytes = vec![0u8; len];
    OsRng.fill_bytes(&mut bytes);
    bytes
}

/// Calls `OsRng.gen_range(0..bound)`, which panics on an empty range: the
/// result lies below the bound, and nothing else is claimed of it.
#[verifier::external_body]
pub(crate) fn random_index(bound: usize) -> (r: usize)
    requires
        bound > 0,
    ensures
        r < bound,
{
    OsRng.gen_range(0..bound)
}

/// Calls `rand::thread_rng().gen_range(0..=max)`: the result does not exceed
/// `max`, and nothing else is claimed of it.
#[verifier::external_body]
pub(crate) fn random_up_to(max: u64) -> (r: u64)
    ensures
        r <= max,
{
    rand::thread_rng().gen_range(0..=max)
}

/// Calls `Vec::<u8>::zeroize`, which overwrites the bytes and leaves the vector
/// empty.
#[verifier::external_body]
pub(crate) fn wipe(bytes: &mut Vec<u8>)
    ensures
        final(bytes)@.len() == 0,
{
    bytes.zeroize()
}

/// Calls `<[u8; 32]>::zeroize`, which sets every byte to zero.
#[verifier::external_body]
pub(crate) fn wipe_key(key: &mut [u8; 32])
    ensures
        forall|i: int| 0 <= i < 32 ==> #[trigger] final(key)@[i] == 0u8,
{
    key.zeroize()
}

/// A universally unique identifier.
#[derive(Debug, Copy, Clone, PartialEq, Eq, Hash)]
pub struct Uuid {
    pub bytes: [u8; 16],
}

/// The hyphenated lower-case notation of sixteen bytes.
pub open spec fn uuid_notation(bytes: Seq<u8>) -> Seq<char> {
    let h = hex(bytes);
    h.subrange(0, 8) + seq!['-'] + h.subrange(8, 12) + seq!['-'] + h.subrange(12, 16) + seq!['-']
        + h.subrange(16, 20) + seq!['-'] + h.subrange(20, 32)
}

/// The notation of an identifier has thirty-six characters: the hexadecimal digits of
/// its bytes in order, with hyphens in four places.
pub proof fn law_identifiers_are_hyphenated(bytes: Seq<u8>)
    requires
        bytes.len() == 16,
    ensures
        ({
            let n = uuid_notation(bytes);
            &&& n.len() == 36
            &&& n[8] == '-' && n[13] == '-' && n[18] == '-' && n[23] == '-'
            &&& n.subrange(0, 8) + n.subrange(9, 13) + n.subrange(14, 18) + n.subrange(19, 23)
                + n.subrange(24, 36) == hex(bytes)
        }),
{
    crate::text::law_hex_has_two_digits_for_each_byte(bytes, 0);
    let n = uuid_notation(bytes);
    assert(n.subrange(0, 8) + n.subrange(9, 13) + n.subrange(14, 18) + n.subrange(19, 23)
        + n.subrange(24, 36) =~= hex(bytes));
}

/// Whether bytes bear the version and variant of a random identifier.
pub open spec fn is_random_uuid(bytes: Seq<u8>) -> bool {
    &&& bytes.len() == 16
    &&& bytes[6] / 16 == 4
    &&& bytes[8] / 64 == 2
}

/// Calls `uuid::Uuid::new_v4`: the version bits say four and the variant bits
/// are those of the standard; nothing is claimed of the other bits.
#[verifier::external_body]
pub(crate) fn random_uuid() -> (r: Uuid)
    ensures
        is_random_uuid(r.bytes@),
{
    Uuid { bytes: uuid::Uuid::new_v4().into_bytes() }
}

/// Calls `to_string` on a `uuid::Uuid`, which writes thirty-two lower-case
/// hexadecimal digits with hyphens after the eighth, twelfth, sixteenth and
/// twentieth.
#[verifier::external_body]
fn hyphenated(bytes: &[u8; 16]) -> (r: String)
    ensures
        r@ == uuid_notation(bytes@),
{
    uuid::Uuid::from_bytes(*bytes).to_string()
}

impl Uuid {
    /// Whether two identifiers are the same.
    pub fn same(&self, other: &Uuid) -> (r: bool)
        ensures
            r == (self.bytes@ == other.bytes@),
    {
        crate::text::bytes_eq(self.bytes.as_slice(), other.bytes.as_slice())
    }

    /// The hyphenated lower-case notation.
    pub fn text(&self) -> (r: String)
        ensures
            r@ == uuid_notation(self.bytes@),
    {
        hyphenated(&self.bytes)
    }
}

/// `N` bytes as an array.
pub fn to_array<const N: usize>(bytes: &[u8]) -> (r: [u8; N])
    requires
        bytes@.len() == N,
    ensures
        r@ == bytes@,
{
    let mut out: [u8; N] = [0u8; N];
    let mut i: usize = 0;
    while i < N
        invariant
            i <= N,
            bytes@.len() == N,
            forall|k: int| 0 <= k < i ==> out@[k] == bytes@[k],
        decreases N - i,
    {
        out[i] = bytes[i];
        i += 1;
    }
    proof {
        assert(out@ =~= bytes@);
    }
    out
}

/// Why a text is not the base64 of thirty-two bytes.
#[derive(Debug, Copy, Clone, PartialEq, Eq, Structural)]
pub enum KeyTextError {
    NotBase64,
    WrongLength,
}

/// The thirty-two bytes that a base64 text stands for.
pub open spec fn key_of_text(text: Seq<char>) -> Result<Seq<u8>, KeyTextError> {
    match base64_bytes(text) {
        None => Err(KeyTextError::NotBase64),
        Some(bytes) => if bytes.len() == 32 {
            Ok(bytes)
        } else {
            Err(KeyTextError::WrongLength)
        },
    }
}

/// A key is a base64 text of thirty-two bytes, and of no other number.
pub proof fn law_key_has_thirty_two_bytes(text: Seq<char>)
    ensures
        base64_bytes(text) is None ==> key_of_text(text) == Err::<Seq<u8>, KeyTextError>(
            KeyTextError::NotBase64,
        ),
        base64_bytes(text) matches Some(bytes) ==> key_of_text(text) == (if bytes.len() == 32 {
            Ok::<Seq<u8>, KeyTextError>(bytes)
        } else {
            Err::<Seq<u8>, KeyTextError>(KeyTextError::WrongLength)
        }),
{
}

/// Decodes the base64 of thirty-two bytes.
pub fn decode_b64_32(text: &str) -> (r: Result<[u8; 32], KeyTextError>)
    ensures
        match key_of_text(text@) {
            Ok(bytes) => r is Ok && r->Ok_0@ == bytes,
            Err(e) => r == Err::<[u8; 32], KeyTextError>(e),
        },
{
    match base64_decode(text) {
        Err(_) => Err(KeyTextError::NotBase64),
        Ok(bytes) => {
            if bytes.len() == 32 {
                Ok(to_array::<32>(bytes.as_slice()))
            } else {
                Err(KeyTextError::WrongLength)
            }
        },
    }
}

} // verus!
