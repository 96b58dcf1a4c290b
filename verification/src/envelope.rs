//! Relay-friendly encrypted envelopes.
//!
//! A request travels from the client to the gateway in an envelope that only
//! the gateway can open: X25519 between an ephemeral client key and the
//! gateway's static key, HKDF-SHA256 for a key per direction and token class,
//! ChaCha20-Poly1305 over a plaintext padded to the size of its class. The
//! response comes back under the same shared secret.

use vstd::prelude::*;
use vstd::string::*;
use vstd::utf8::encode_utf8;

use crate::crypto;
use crate::crypto::{
    aead_ciphertext, aead_opened, base64_bytes, base64_len, base64_text, hkdf_key,
    x25519_public_key, x25519_shared_secret,
};
use crate::text;
use crate::text::decimal;
use crate::token::{
    law_unpad_undoes_pad, pad_to_len, padded, trim_zero_padding, unpadded, PaddingError,
    TokenClass,
};

verus! {

/// An encrypted envelope.
#[derive(Debug)]
pub struct Envelope {
    /// Protocol version.
    pub version: u8,
    pub token_class: TokenClass,
    /// Base64-encoded client ephemeral public key.
    pub kem_pub_b64: String,
    /// Base64-encoded nonce.
    pub nonce_b64: String,
    /// Base64-encoded ciphertext.
    pub ciphertext_b64: String,
}

/// What an envelope holds.
pub struct EnvelopeView {
    pub version: u8,
    pub token_class: TokenClass,
    pub kem_pub_b64: Seq<char>,
    pub nonce_b64: Seq<char>,
    pub ciphertext_b64: Seq<char>,
}

impl View for Envelope {
    type V = EnvelopeView;

    open spec fn view(&self) -> EnvelopeView {
        EnvelopeView {
            version: self.version,
            token_class: self.token_class,
            kem_pub_b64: self.kem_pub_b64@,
            nonce_b64: self.nonce_b64@,
            ciphertext_b64: self.ciphertext_b64@,
        }
    }
}

impl Clone for Envelope {
    fn clone(&self) -> (r: Self)
        ensures
            r@ == self@,
    {
        Envelope {
            version: self.version,
            token_class: self.token_class,
            kem_pub_b64: self.kem_pub_b64.clone(),
            nonce_b64: self.nonce_b64.clone(),
            ciphertext_b64: self.ciphertext_b64.clone(),
        }
    }
}

impl Envelope {
    /// The only version that is spoken.
    pub const VERSION: u8 = 1;
}

/// Which way an envelope travels.
#[derive(Debug, Copy, Clone, PartialEq, Eq, Structural)]
pub enum KeyDirection {
    Request,
    Response,
}

/// Why an envelope could not be sealed or opened.
#[derive(Debug, Copy, Clone, PartialEq, Eq, Structural)]
pub enum EnvelopeError {
    UnsupportedVersion(u8),
    TokenClassMismatch,
    InvalidKemPub,
    KemPubLength,
    InvalidNonce,
    NonceLength,
    InvalidCiphertext,
    EncryptFailed,
    DecryptFailed,
    Padding(PaddingError),
}

impl EnvelopeError {
    /// The message of the error.
    pub open spec fn spec_message(self) -> Seq<char> {
        match self {
            EnvelopeError::UnsupportedVersion(v) => "unsupported envelope version: "@ + decimal(
                v as nat,
            ),
            EnvelopeError::TokenClassMismatch => "token class mismatch"@,
            EnvelopeError::InvalidKemPub => "invalid kem_pub_b64"@,
            EnvelopeError::KemPubLength => "kem_pub wrong length"@,
            EnvelopeError::InvalidNonce => "invalid nonce_b64"@,
            EnvelopeError::NonceLength => "nonce wrong length"@,
            EnvelopeError::InvalidCiphertext => "invalid ciphertext_b64"@,
            EnvelopeError::EncryptFailed => "AEAD encrypt failed"@,
            EnvelopeError::DecryptFailed => "AEAD decrypt failed"@,
            EnvelopeError::Padding(e) => e.spec_message(),
        }
    }

    /// The message of the error.
    pub fn message(&self) -> (r: String)
        ensures
            r@ == self.spec_message(),
    {
        match self {
            EnvelopeError::UnsupportedVersion(v) => {
                let mut m = String::from_str("unsupported envelope version: ");
                m.append(text::decimal_text(*v as u64).as_str());
                m
            },
            EnvelopeError::TokenClassMismatch => String::from_str("token class mismatch"),
            EnvelopeError::InvalidKemPub => String::from_str("invalid kem_pub_b64"),
            EnvelopeError::KemPubLength => String::from_str("kem_pub wrong length"),
            EnvelopeError::InvalidNonce => String::from_str("invalid nonce_b64"),
            EnvelopeError::NonceLength => String::from_str("nonce wrong length"),
            EnvelopeError::InvalidCiphertext => String::from_str("invalid ciphertext_b64"),
            EnvelopeError::EncryptFailed => String::from_str("AEAD encrypt failed"),
            EnvelopeError::DecryptFailed => String::from_str("AEAD decrypt failed"),
            EnvelopeError::Padding(e) => e.message(),
        }
    }
}

/// Static keypair with which the gateway opens envelopes.
///
/// The public key always belongs to the secret.
pub struct GatewayKeypair {
    secret: [u8; 32],
    public: [u8; 32],
}

impl GatewayKeypair {
    #[verifier::type_invariant]
    spec fn keys_belong_together(self) -> bool {
        self.public@ == x25519_public_key(self.secret@)
    }

    /// The secret key.
    pub closed spec fn secret(&self) -> Seq<u8> {
        self.secret@
    }

    /// The public key.
    pub open spec fn public(&self) -> Seq<u8> {
        x25519_public_key(self.secret())
    }

    /// A keypair with a secret from the operating system's generator.
    pub fn generate() -> (r: Self)
        ensures
            r.secret().len() == 32,
    {
        Self::from_secret_bytes(crypto::random_secret())
    }

    /// The keypair of a given secret.
    pub fn from_secret_bytes(secret_bytes: [u8; 32]) -> (r: Self)
        ensures
            r.secret() == secret_bytes@,
    {
        let public = crypto::x25519_public(&secret_bytes);
        GatewayKeypair { secret: secret_bytes, public }
    }

    pub fn public_bytes(&self) -> (r: [u8; 32])
        ensures
            r@ == self.public(),
    {
        proof {
            use_type_invariant(self);
        }
        self.public
    }

    pub fn secret_bytes(&self) -> (r: [u8; 32])
        ensures
            r@ == self.secret(),
    {
        self.secret
    }

    /// The public key as text.
    pub fn public_key_b64(&self) -> (r: String)
        ensures
            r@ == base64_text(self.public()),
    {
        crypto::base64_encode(self.public_bytes().as_slice())
    }

    /// The secret key as text.
    pub fn secret_key_b64(&self) -> (r: String)
        ensures
            r@ == base64_text(self.secret()),
    {
        crypto::base64_encode(self.secret.as_slice())
    }

    pub fn public_key(&self) -> (r: [u8; 32])
        ensures
            r@ == self.public(),
    {
        self.public_bytes()
    }

    pub fn secret_key(&self) -> (r: &[u8; 32])
        ensures
            r@ == self.secret(),
    {
        &self.secret
    }
}

impl Clone for GatewayKeypair {
    fn clone(&self) -> (r: Self)
        ensures
            r.secret() == self.secret(),
    {
        proof {
            use_type_invariant(self);
        }
        GatewayKeypair { secret: self.secret, public: self.public }
    }
}

/// The label that separates the keys of the two directions and of the classes.
pub open spec fn key_info(class: TokenClass, dir: KeyDirection) -> Seq<u8> {
    encode_utf8("zk-llm-gateway-envelope-v1"@) + (match dir {
        KeyDirection::Request => encode_utf8("/req"@),
        KeyDirection::Response => encode_utf8("/resp"@),
    }) + seq![class.rank()]
}

/// What the ciphertext is bound to besides its key.
pub open spec fn associated_data(class: TokenClass, dir: KeyDirection) -> Seq<u8> {
    seq![
        Envelope::VERSION,
        class.rank(),
        match dir {
            KeyDirection::Request => 1u8,
            KeyDirection::Response => 2u8,
        },
    ]
}

/// The key of a direction and a class under a shared secret.
pub open spec fn envelope_key(shared: Seq<u8>, dir: KeyDirection, class: TokenClass) -> Seq<u8> {
    hkdf_key(None, shared, key_info(class, dir))
}

/// The size of a padded plaintext.
pub open spec fn plaintext_size(class: TokenClass, dir: KeyDirection) -> nat {
    match dir {
        KeyDirection::Request => class.request_size(),
        KeyDirection::Response => class.response_size(),
    }
}

/// The ciphertext of a plaintext under a shared secret.
pub open spec fn envelope_ciphertext(
    shared: Seq<u8>,
    dir: KeyDirection,
    class: TokenClass,
    nonce: Seq<u8>,
    plaintext: Seq<u8>,
) -> Seq<u8> {
    aead_ciphertext(
        envelope_key(shared, dir, class),
        nonce,
        associated_data(class, dir),
        padded(plaintext, plaintext_size(class, dir)),
    )
}

fn hkdf_info(token_class: TokenClass, dir: KeyDirection) -> (r: Vec<u8>)
    ensures
        r@ == key_info(token_class, dir),
{
    let mut v = text::copy_bytes("zk-llm-gateway-envelope-v1".as_bytes());
    match dir {
        KeyDirection::Request => text::append_bytes(&mut v, "/req".as_bytes()),
        KeyDirection::Response => text::append_bytes(&mut v, "/resp".as_bytes()),
    }
    v.push(token_class.id_u8());
    proof {
        assert(v@ =~= key_info(token_class, dir));
    }
    v
}

fn aad_bytes(token_class: TokenClass, dir: KeyDirection) -> (r: Vec<u8>)
    ensures
        r@ == associated_data(token_class, dir),
{
    let d: u8 = match dir {
        KeyDirection::Request => 1u8,
        KeyDirection::Response => 2u8,
    };
    let r = vec![Envelope::VERSION, token_class.id_u8(), d];
    proof {
        assert(r@ =~= associated_data(token_class, dir));
    }
    r
}

fn derive_key(shared_secret: &[u8], dir: KeyDirection, token_class: TokenClass) -> (r: [u8; 32])
    ensures
        r@ == envelope_key(shared_secret@, dir, token_class),
{
    let info = hkdf_info(token_class, dir);
    crypto::hkdf_sha256(None, shared_secret, info.as_slice()).unwrap()
}

/// Bytes of a given length behind a base64 text.
pub open spec fn decoded_key(
    text: Seq<char>,
    len: nat,
    invalid: EnvelopeError,
    wrong_length: EnvelopeError,
) -> Result<Seq<u8>, EnvelopeError> {
    match base64_bytes(text) {
        None => Err(invalid),
        Some(bytes) => if bytes.len() == len {
            Ok(bytes)
        } else {
            Err(wrong_length)
        },
    }
}

fn decode_array<const N: usize>(
    text: &str,
    invalid: EnvelopeError,
    wrong_length: EnvelopeError,
) -> (r: Result<[u8; N], EnvelopeError>)
    ensures
        r matches Ok(a) ==> decoded_key(text@, N as nat, invalid, wrong_length) == Ok::<
            Seq<u8>,
            EnvelopeError,
        >(a@),
        r matches Err(e) ==> decoded_key(text@, N as nat, invalid, wrong_length) == Err::<
            Seq<u8>,
            EnvelopeError,
        >(e),
{
    match crypto::base64_decode(text) {
        Err(_) => Err(invalid),
        Ok(bytes) => {
            if bytes.len() == N {
                Ok(crypto::to_array::<N>(bytes.as_slice()))
            } else {
                Err(wrong_length)
            }
        },
    }
}

/// What opening a ciphertext gives under a shared secret.
pub open spec fn opened(
    shared: Seq<u8>,
    dir: KeyDirection,
    class: TokenClass,
    nonce: Seq<u8>,
    ciphertext: Seq<u8>,
) -> Result<Seq<u8>, EnvelopeError> {
    match aead_opened(
        envelope_key(shared, dir, class),
        nonce,
        associated_data(class, dir),
        ciphertext,
    ) {
        None => Err(EnvelopeError::DecryptFailed),
        Some(plain) => Ok(unpadded(plain)),
    }
}

/// What the gateway reads from a request envelope.
pub open spec fn opened_request(secret: Seq<u8>, env: EnvelopeView) -> Result<
    Seq<u8>,
    EnvelopeError,
> {
    if env.version != Envelope::VERSION {
        Err(EnvelopeError::UnsupportedVersion(env.version))
    } else {
        match decoded_key(
            env.kem_pub_b64,
            32,
            EnvelopeError::InvalidKemPub,
            EnvelopeError::KemPubLength,
        ) {
            Err(e) => Err(e),
            Ok(eph) => match decoded_key(
                env.nonce_b64,
                12,
                EnvelopeError::InvalidNonce,
                EnvelopeError::NonceLength,
            ) {
                Err(e) => Err(e),
                Ok(nonce) => match base64_bytes(env.ciphertext_b64) {
                    None => Err(EnvelopeError::InvalidCiphertext),
                    Some(ciphertext) => opened(
                        x25519_shared_secret(secret, eph),
                        KeyDirection::Request,
                        env.token_class,
                        nonce,
                        ciphertext,
                    ),
                },
            },
        }
    }
}

/// What a client reads from a response envelope.
pub open spec fn opened_response(
    eph_secret: Seq<u8>,
    gateway_public: Seq<u8>,
    class: TokenClass,
    env: EnvelopeView,
) -> Result<Seq<u8>, EnvelopeError> {
    if env.version != Envelope::VERSION {
        Err(EnvelopeError::UnsupportedVersion(env.version))
    } else if env.token_class != class {
        Err(EnvelopeError::TokenClassMismatch)
    } else {
        match decoded_key(
            env.nonce_b64,
            12,
            EnvelopeError::InvalidNonce,
            EnvelopeError::NonceLength,
        ) {
            Err(e) => Err(e),
            Ok(nonce) => match base64_bytes(env.ciphertext_b64) {
                None => Err(EnvelopeError::InvalidCiphertext),
                Some(ciphertext) => opened(
                    x25519_shared_secret(eph_secret, gateway_public),
                    KeyDirection::Response,
                    class,
                    nonce,
                    ciphertext,
                ),
            },
        }
    }
}

/// The outcome of an operation by the bytes it holds.
pub open spec fn bytes_outcome(r: Result<Vec<u8>, EnvelopeError>) -> Result<
    Seq<u8>,
    EnvelopeError,
> {
    match r {
        Ok(v) => Ok(v@),
        Err(e) => Err(e),
    }
}

fn open_ciphertext(
    shared: &[u8; 32],
    dir: KeyDirection,
    token_class: TokenClass,
    nonce: &[u8; 12],
    ciphertext: &[u8],
) -> (r: Result<Vec<u8>, EnvelopeError>)
    ensures
        bytes_outcome(r) == opened(shared@, dir, token_class, nonce@, ciphertext@),
{
    let key = derive_key(shared.as_slice(), dir, token_class);
    let aad = aad_bytes(token_class, dir);
    match crypto::aead_open(&key, nonce, aad.as_slice(), ciphertext) {
        None => Err(EnvelopeError::DecryptFailed),
        Some(plaintext_padded) => {
            Ok(text::copy_bytes(trim_zero_padding(plaintext_padded.as_slice())))
        },
    }
}

/// Client-side context needed to open the gateway's encrypted response.
///
/// It belongs in memory only, until the response has been opened.
pub struct ClientCryptoContext {
    eph_secret_bytes: [u8; 32],
    gateway_public_bytes: [u8; 32],
    token_class: TokenClass,
}

impl ClientCryptoContext {
    /// The one-time secret of the request.
    pub closed spec fn eph_secret(&self) -> Seq<u8> {
        self.eph_secret_bytes@
    }

    /// The public key of the gateway that the request went to.
    pub closed spec fn gateway_public(&self) -> Seq<u8> {
        self.gateway_public_bytes@
    }

    /// The class of the request.
    pub closed spec fn class(&self) -> TokenClass {
        self.token_class
    }

    pub fn token_class(&self) -> (r: TokenClass)
        ensures
            r == self.class(),
    {
        self.token_class
    }

    /// Decrypts an encrypted response from the gateway.
    pub fn open_response(&self, env: &Envelope) -> (r: Result<Vec<u8>, EnvelopeError>)
        ensures
            bytes_outcome(r) == opened_response(
                self.eph_secret(),
                self.gateway_public(),
                self.class(),
                env@,
            ),
    {
        if env.version != Envelope::VERSION {
            return Err(EnvelopeError::UnsupportedVersion(env.version));
        }
        if env.token_class != self.token_class {
            return Err(EnvelopeError::TokenClassMismatch);
        }
        let nonce: [u8; 12] = match decode_array::<12>(
            env.nonce_b64.as_str(),
            EnvelopeError::InvalidNonce,
            EnvelopeError::NonceLength,
        ) {
            Ok(nonce) => nonce,
            Err(e) => return Err(e),
        };
        let ciphertext = match crypto::base64_decode(env.ciphertext_b64.as_str()) {
            Ok(ciphertext) => ciphertext,
            Err(_) => return Err(EnvelopeError::InvalidCiphertext),
        };
        let shared = crypto::x25519_shared(&self.eph_secret_bytes, &self.gateway_public_bytes);
        open_ciphertext(
            &shared,
            KeyDirection::Response,
            self.token_class,
            &nonce,
            ciphertext.as_slice(),
        )
    }
}

/// The request envelope made with a given one-time secret and nonce.
pub open spec fn request_envelope(
    gateway_public: Seq<u8>,
    class: TokenClass,
    plaintext: Seq<u8>,
    eph_secret: Seq<u8>,
    nonce: Seq<u8>,
) -> EnvelopeView {
    EnvelopeView {
        version: Envelope::VERSION,
        token_class: class,
        kem_pub_b64: base64_text(x25519_public_key(eph_secret)),
        nonce_b64: base64_text(nonce),
        ciphertext_b64: base64_text(
            envelope_ciphertext(
                x25519_shared_secret(eph_secret, gateway_public),
                KeyDirection::Request,
                class,
                nonce,
                plaintext,
            ),
        ),
    }
}

/// The response envelope made with a given nonce.
pub open spec fn response_envelope(
    secret: Seq<u8>,
    request: EnvelopeView,
    eph_public: Seq<u8>,
    plaintext: Seq<u8>,
    nonce: Seq<u8>,
) -> EnvelopeView {
    EnvelopeView {
        version: Envelope::VERSION,
        token_class: request.token_class,
        kem_pub_b64: request.kem_pub_b64,
        nonce_b64: base64_text(nonce),
        ciphertext_b64: base64_text(
            envelope_ciphertext(
                x25519_shared_secret(secret, eph_public),
                KeyDirection::Response,
                request.token_class,
                nonce,
                plaintext,
            ),
        ),
    }
}

/// Whether every holder of the secret behind `gateway_public` reads
/// `plaintext`, up to the zero bytes it ends in, from a request envelope.
pub open spec fn gateway_reads(
    gateway_public: Seq<u8>,
    env: EnvelopeView,
    plaintext: Seq<u8>,
) -> bool {
    forall|secret: Seq<u8>|
        secret.len() == 32 && gateway_public == #[trigger] x25519_public_key(secret)
            ==> opened_request(secret, env) == Ok::<Seq<u8>, EnvelopeError>(unpadded(plaintext))
}

/// Whether every client whose one-time public key is `eph_public` reads
/// `plaintext`, up to the zero bytes it ends in, from a response envelope.
pub open spec fn client_reads(
    eph_public: Seq<u8>,
    gateway_public: Seq<u8>,
    env: EnvelopeView,
    plaintext: Seq<u8>,
) -> bool {
    forall|secret: Seq<u8>|
        secret.len() == 32 && eph_public == #[trigger] x25519_public_key(secret)
            ==> opened_response(secret, gateway_public, env.token_class, env) == Ok::<
            Seq<u8>,
            EnvelopeError,
        >(unpadded(plaintext))
}

/// Whether a ciphertext text has the one length that its class and direction
/// allow, whatever the plaintext was.
pub open spec fn has_class_size(ciphertext_b64: Seq<char>, size: nat) -> bool {
    &&& base64_bytes(ciphertext_b64) is Some
    &&& base64_bytes(ciphertext_b64)->0.len() == size + 16
    &&& ciphertext_b64.len() == base64_len(size + 16)
    &&& encode_utf8(ciphertext_b64).len() == base64_len(size + 16)
}

/// Why a plaintext does not fit its class.
pub open spec fn oversize(len: nat, max: nat) -> EnvelopeError {
    EnvelopeError::Padding(PaddingError::TooLarge { len: len as usize, max: max as usize })
}

fn seal_plaintext(
    shared: &[u8; 32],
    dir: KeyDirection,
    token_class: TokenClass,
    nonce: &[u8; 12],
    padded_plaintext: &Vec<u8>,
) -> (r: Vec<u8>)
    requires
        padded_plaintext@.len() == plaintext_size(token_class, dir),
    ensures
        r@ == aead_ciphertext(
            envelope_key(shared@, dir, token_class),
            nonce@,
            associated_data(token_class, dir),
            padded_plaintext@,
        ),
        r@.len() == padded_plaintext@.len() + 16,
        opened(shared@, dir, token_class, nonce@, r@) == Ok::<Seq<u8>, EnvelopeError>(
            unpadded(padded_plaintext@),
        ),
{
    let key = derive_key(shared.as_slice(), dir, token_class);
    let aad = aad_bytes(token_class, dir);
    crypto::aead_seal(&key, nonce, aad.as_slice(), padded_plaintext.as_slice()).unwrap()
}

/// Encrypts a request for the gateway with a given one-time secret and nonce.
pub fn seal_request_with(
    gateway_public_bytes: [u8; 32],
    token_class: TokenClass,
    plaintext_json: &[u8],
    eph_secret: [u8; 32],
    nonce: [u8; 12],
) -> (r: Result<(Envelope, ClientCryptoContext), EnvelopeError>)
    ensures
        r is Ok <==> plaintext_json@.len() <= token_class.request_size(),
        r matches Err(e) ==> e == oversize(plaintext_json@.len(), token_class.request_size()),
        r matches Ok((env, ctx)) ==> {
            &&& env@ == request_envelope(
                gateway_public_bytes@,
                token_class,
                plaintext_json@,
                eph_secret@,
                nonce@,
            )
            &&& ctx.eph_secret() == eph_secret@
            &&& ctx.gateway_public() == gateway_public_bytes@
            &&& ctx.class() == token_class
            &&& base64_bytes(env@.kem_pub_b64) == Some(x25519_public_key(eph_secret@))
            &&& has_class_size(env@.ciphertext_b64, token_class.request_size())
            &&& gateway_reads(gateway_public_bytes@, env@, plaintext_json@)
        },
{
    let mut plaintext_padded = match pad_to_len(
        text::copy_bytes(plaintext_json),
        token_class.envelope_request_plaintext_bytes(),
    ) {
        Ok(p) => p,
        Err(e) => return Err(EnvelopeError::Padding(e)),
    };
    let eph_pub = crypto::x25519_public(&eph_secret);
    let shared = crypto::x25519_shared(&eph_secret, &gateway_public_bytes);
    let ciphertext = seal_plaintext(
        &shared,
        KeyDirection::Request,
        token_class,
        &nonce,
        &plaintext_padded,
    );
    proof {
        law_unpad_undoes_pad(plaintext_json@, token_class.request_size());
    }
    crypto::wipe(&mut plaintext_padded);
    let env = Envelope {
        version: Envelope::VERSION,
        token_class,
        kem_pub_b64: crypto::base64_encode(eph_pub.as_slice()),
        nonce_b64: crypto::base64_encode(nonce.as_slice()),
        ciphertext_b64: crypto::base64_encode(ciphertext.as_slice()),
    };
    let ctx = ClientCryptoContext {
        eph_secret_bytes: eph_secret,
        gateway_public_bytes,
        token_class,
    };
    Ok((env, ctx))
}

/// Encrypts a request for the gateway.
///
/// Returns the envelope to send, possibly through a relay, and the context with
/// which the encrypted response is opened. The one-time secret and the nonce
/// come from the operating system's generator.
pub fn seal_request_for_gateway(
    gateway_public_bytes: [u8; 32],
    token_class: TokenClass,
    plaintext_json: &[u8],
) -> (r: Result<(Envelope, ClientCryptoContext), EnvelopeError>)
    ensures
        r is Ok <==> plaintext_json@.len() <= token_class.request_size(),
        r matches Err(e) ==> e == oversize(plaintext_json@.len(), token_class.request_size()),
        r matches Ok((env, ctx)) ==> {
            &&& exists|nonce: Seq<u8>|
                nonce.len() == 12 && env@ == #[trigger] request_envelope(
                    gateway_public_bytes@,
                    token_class,
                    plaintext_json@,
                    ctx.eph_secret(),
                    nonce,
                )
            &&& ctx.eph_secret().len() == 32
            &&& ctx.gateway_public() == gateway_public_bytes@
            &&& ctx.class() == token_class
            &&& base64_bytes(env@.kem_pub_b64) == Some(x25519_public_key(ctx.eph_secret()))
            &&& has_class_size(env@.ciphertext_b64, token_class.request_size())
            &&& gateway_reads(gateway_public_bytes@, env@, plaintext_json@)
        },
{
    let eph_secret = crypto::random_secret();
    let nonce_bytes = crypto::random_bytes(12);
    let nonce = crypto::to_array::<12>(nonce_bytes.as_slice());
    seal_request_with(gateway_public_bytes, token_class, plaintext_json, eph_secret, nonce)
}

/// Decrypts a request envelope at the gateway.
///
/// Returns the JSON bytes without their padding.
pub fn open_request_at_gateway(keypair: &GatewayKeypair, env: &Envelope) -> (r: Result<
    Vec<u8>,
    EnvelopeError,
>)
    ensures
        bytes_outcome(r) == opened_request(keypair.secret(), env@),
{
    if env.version != Envelope::VERSION {
        return Err(EnvelopeError::UnsupportedVersion(env.version));
    }
    let eph_pub: [u8; 32] = match decode_array::<32>(
        env.kem_pub_b64.as_str(),
        EnvelopeError::InvalidKemPub,
        EnvelopeError::KemPubLength,
    ) {
        Ok(bytes) => bytes,
        Err(e) => return Err(e),
    };
    let nonce: [u8; 12] = match decode_array::<12>(
        env.nonce_b64.as_str(),
        EnvelopeError::InvalidNonce,
        EnvelopeError::NonceLength,
    ) {
        Ok(bytes) => bytes,
        Err(e) => return Err(e),
    };
    let ciphertext = match crypto::base64_decode(env.ciphertext_b64.as_str()) {
        Ok(bytes) => bytes,
        Err(_) => return Err(EnvelopeError::InvalidCiphertext),
    };
    let shared = crypto::x25519_shared(keypair.secret_key(), &eph_pub);
    open_ciphertext(
        &shared,
        KeyDirection::Request,
        env.token_class,
        &nonce,
        ciphertext.as_slice(),
    )
}

/// Why a response to a request envelope cannot be sealed, if it cannot.
pub open spec fn response_refusal(request: EnvelopeView, len: nat) -> Option<EnvelopeError> {
    if request.version != Envelope::VERSION {
        Some(EnvelopeError::UnsupportedVersion(request.version))
    } else {
        match decoded_key(
            request.kem_pub_b64,
            32,
            EnvelopeError::InvalidKemPub,
            EnvelopeError::KemPubLength,
        ) {
            Err(e) => Some(e),
            Ok(_) => if len > request.token_class.response_size() {
                Some(oversize(len, request.token_class.response_size()))
            } else {
                None
            },
        }
    }
}

/// Encrypts a response at the gateway with a given nonce.
pub fn seal_response_with(
    keypair: &GatewayKeypair,
    request_env: &Envelope,
    plaintext_json: &[u8],
    nonce: [u8; 12],
) -> (r: Result<Envelope, EnvelopeError>)
    ensures
        match response_refusal(request_env@, plaintext_json@.len()) {
            Some(e) => r == Err::<Envelope, EnvelopeError>(e),
            None => {
                let eph = base64_bytes(request_env@.kem_pub_b64)->0;
                &&& r is Ok
                &&& r->Ok_0@ == response_envelope(
                    keypair.secret(),
                    request_env@,
                    eph,
                    plaintext_json@,
                    nonce@,
                )
                &&& has_class_size(
                    r->Ok_0@.ciphertext_b64,
                    request_env@.token_class.response_size(),
                )
                &&& client_reads(eph, keypair.public(), r->Ok_0@, plaintext_json@)
            },
        },
{
    if request_env.version != Envelope::VERSION {
        return Err(EnvelopeError::UnsupportedVersion(request_env.version));
    }
    let eph_pub: [u8; 32] = match decode_array::<32>(
        request_env.kem_pub_b64.as_str(),
        EnvelopeError::InvalidKemPub,
        EnvelopeError::KemPubLength,
    ) {
        Ok(bytes) => bytes,
        Err(e) => return Err(e),
    };
    let token_class = request_env.token_class;
    let mut plaintext_padded = match pad_to_len(
        text::copy_bytes(plaintext_json),
        token_class.envelope_response_plaintext_bytes(),
    ) {
        Ok(p) => p,
        Err(e) => return Err(EnvelopeError::Padding(e)),
    };
    let shared = crypto::x25519_shared(keypair.secret_key(), &eph_pub);
    let ciphertext = seal_plaintext(
        &shared,
        KeyDirection::Response,
        token_class,
        &nonce,
        &plaintext_padded,
    );
    proof {
        law_unpad_undoes_pad(plaintext_json@, token_class.response_size());
    }
    crypto::wipe(&mut plaintext_padded);
    Ok(
        Envelope {
            version: Envelope::VERSION,
            token_class,
            kem_pub_b64: request_env.kem_pub_b64.clone(),
            nonce_b64: crypto::base64_encode(nonce.as_slice()),
            ciphertext_b64: crypto::base64_encode(ciphertext.as_slice()),
        },
    )
}

/// Encrypts a response at the gateway under the shared secret of the request.
///
/// The response is padded to a fixed size per token class. The nonce comes from
/// the operating system's generator.
pub fn seal_response_at_gateway(
    keypair: &GatewayKeypair,
    request_env: &Envelope,
    plaintext_json: &[u8],
) -> (r: Result<Envelope, EnvelopeError>)
    ensures
        match response_refusal(request_env@, plaintext_json@.len()) {
            Some(e) => r == Err::<Envelope, EnvelopeError>(e),
            None => {
                let eph = base64_bytes(request_env@.kem_pub_b64)->0;
                &&& r is Ok
                &&& exists|nonce: Seq<u8>|
                    nonce.len() == 12 && r->Ok_0@ == #[trigger] response_envelope(
                        keypair.secret(),
                        request_env@,
                        eph,
                        plaintext_json@,
                        nonce,
                    )
                &&& has_class_size(
                    r->Ok_0@.ciphertext_b64,
                    request_env@.token_class.response_size(),
                )
                &&& client_reads(eph, keypair.public(), r->Ok_0@, plaintext_json@)
            },
        },
{
    let nonce_bytes = crypto::random_bytes(12);
    let nonce = crypto::to_array::<12>(nonce_bytes.as_slice());
    seal_response_with(keypair, request_env, plaintext_json, nonce)
}

/// Keys and associated data of different directions or classes differ in what
/// they are bound to: no two pairs of a direction and a class share a label.
pub proof fn law_labels_are_distinct(
    class1: TokenClass,
    dir1: KeyDirection,
    class2: TokenClass,
    dir2: KeyDirection,
)
    ensures
        key_info(class1, dir1) == key_info(class2, dir2) <==> class1 == class2 && dir1 == dir2,
        associated_data(class1, dir1) == associated_data(class2, dir2) <==> class1 == class2 && dir1
            == dir2,
{
    reveal_strlit("/req");
    reveal_strlit("/resp");
    vstd::utf8::is_ascii_chars_encode_utf8("/req"@);
    vstd::utf8::is_ascii_chars_encode_utf8("/resp"@);
    let i1 = key_info(class1, dir1);
    let i2 = key_info(class2, dir2);
    if dir1 != dir2 {
        assert(i1.len() != i2.len());
    } else {
        assert(i1.last() == class1.rank() && i2.last() == class2.rank());
    }
    let a1 = associated_data(class1, dir1);
    let a2 = associated_data(class2, dir2);
    assert(a1[1] == class1.rank() && a2[1] == class2.rank());
    assert(a1[2] == a2[2] <==> dir1 == dir2);
}

/// What a ciphertext is made with: the key that the shared secret gives for the
/// protocol, the direction and the class; the nonce; the version, the class and the
/// direction beside it; and the plaintext, padded to the one size of its class and
/// direction.
pub proof fn law_ciphertext_is_bound_to_its_envelope(
    shared: Seq<u8>,
    class: TokenClass,
    nonce: Seq<u8>,
    plaintext: Seq<u8>,
)
    ensures
        envelope_ciphertext(shared, KeyDirection::Request, class, nonce, plaintext)
            == aead_ciphertext(
            hkdf_key(
                None,
                shared,
                encode_utf8("zk-llm-gateway-envelope-v1"@) + encode_utf8("/req"@) + seq![
                    class.rank(),
                ],
            ),
            nonce,
            seq![1u8, class.rank(), 1u8],
            padded(plaintext, class.request_size()),
        ),
        envelope_ciphertext(shared, KeyDirection::Response, class, nonce, plaintext)
            == aead_ciphertext(
            hkdf_key(
                None,
                shared,
                encode_utf8("zk-llm-gateway-envelope-v1"@) + encode_utf8("/resp"@) + seq![
                    class.rank(),
                ],
            ),
            nonce,
            seq![1u8, class.rank(), 2u8],
            padded(plaintext, class.response_size()),
        ),
{
    assert(associated_data(class, KeyDirection::Request) =~= seq![1u8, class.rank(), 1u8]);
    assert(associated_data(class, KeyDirection::Response) =~= seq![1u8, class.rank(), 2u8]);
}

/// What an envelope shows: the version, the class, a public key, the nonce and the
/// ciphertext. A request shows the one-time public key of the client, and a response
/// the key and the class of its request.
pub proof fn law_envelope_shows_no_more(
    gateway_public: Seq<u8>,
    gateway_secret: Seq<u8>,
    class: TokenClass,
    plaintext: Seq<u8>,
    eph_secret: Seq<u8>,
    request: EnvelopeView,
    eph_public: Seq<u8>,
    nonce: Seq<u8>,
)
    ensures
        ({
            let env = request_envelope(gateway_public, class, plaintext, eph_secret, nonce);
            &&& env.version == 1
            &&& env.token_class == class
            &&& env.kem_pub_b64 == base64_text(x25519_public_key(eph_secret))
            &&& env.nonce_b64 == base64_text(nonce)
            &&& env.ciphertext_b64 == base64_text(
                envelope_ciphertext(
                    x25519_shared_secret(eph_secret, gateway_public),
                    KeyDirection::Request,
                    class,
                    nonce,
                    plaintext,
                ),
            )
        }),
        ({
            let env = response_envelope(gateway_secret, request, eph_public, plaintext, nonce);
            &&& env.version == 1
            &&& env.token_class == request.token_class
            &&& env.kem_pub_b64 == request.kem_pub_b64
            &&& env.nonce_b64 == base64_text(nonce)
            &&& env.ciphertext_b64 == base64_text(
                envelope_ciphertext(
                    x25519_shared_secret(gateway_secret, eph_public),
                    KeyDirection::Response,
                    request.token_class,
                    nonce,
                    plaintext,
                ),
            )
        }),
{
}

/// What it means that an envelope is read: every holder of the matching secret opens
/// it to the plaintext, without the zero bytes at its end.
pub proof fn law_readers_open_the_plaintext(
    secret: Seq<u8>,
    public: Seq<u8>,
    env: EnvelopeView,
    plaintext: Seq<u8>,
)
    requires
        secret.len() == 32,
    ensures
        gateway_reads(x25519_public_key(secret), env, plaintext) ==> opened_request(secret, env)
            == Ok::<Seq<u8>, EnvelopeError>(unpadded(plaintext)),
        client_reads(x25519_public_key(secret), public, env, plaintext) ==> opened_response(
            secret,
            public,
            env.token_class,
            env,
        ) == Ok::<Seq<u8>, EnvelopeError>(unpadded(plaintext)),
{
}

/// An envelope is opened exactly where its version is the first, its key has
/// thirty-two bytes, its nonce twelve, its ciphertext is base64, and the cipher finds
/// it authentic under the key of its class and direction. The first of these that
/// fails is reported.
pub proof fn law_request_opens_only_if_authentic(secret: Seq<u8>, env: EnvelopeView)
    ensures
        ({
            let eph = base64_bytes(env.kem_pub_b64);
            let nonce = base64_bytes(env.nonce_b64);
            let ciphertext = base64_bytes(env.ciphertext_b64);
            let message = aead_opened(
                envelope_key(
                    x25519_shared_secret(secret, eph->0),
                    KeyDirection::Request,
                    env.token_class,
                ),
                nonce->0,
                associated_data(env.token_class, KeyDirection::Request),
                ciphertext->0,
            );
            opened_request(secret, env) == if env.version != 1 {
                Err::<Seq<u8>, EnvelopeError>(EnvelopeError::UnsupportedVersion(env.version))
            } else if eph is None {
                Err::<Seq<u8>, EnvelopeError>(EnvelopeError::InvalidKemPub)
            } else if eph->0.len() != 32 {
                Err::<Seq<u8>, EnvelopeError>(EnvelopeError::KemPubLength)
            } else if nonce is None {
                Err::<Seq<u8>, EnvelopeError>(EnvelopeError::InvalidNonce)
            } else if nonce->0.len() != 12 {
                Err::<Seq<u8>, EnvelopeError>(EnvelopeError::NonceLength)
            } else if ciphertext is None {
                Err::<Seq<u8>, EnvelopeError>(EnvelopeError::InvalidCiphertext)
            } else if message is None {
                Err::<Seq<u8>, EnvelopeError>(EnvelopeError::DecryptFailed)
            } else {
                Ok::<Seq<u8>, EnvelopeError>(unpadded(message->0))
            }
        }),
{
}

/// A client opens a response exactly where its version is the first, its class is that
/// of the request, its nonce has twelve bytes, its ciphertext is base64, and the cipher
/// finds it authentic. The first of these that fails is reported.
pub proof fn law_response_opens_only_if_authentic(
    eph_secret: Seq<u8>,
    gateway_public: Seq<u8>,
    class: TokenClass,
    env: EnvelopeView,
)
    ensures
        ({
            let nonce = base64_bytes(env.nonce_b64);
            let ciphertext = base64_bytes(env.ciphertext_b64);
            let message = aead_opened(
                envelope_key(
                    x25519_shared_secret(eph_secret, gateway_public),
                    KeyDirection::Response,
                    class,
                ),
                nonce->0,
                associated_data(class, KeyDirection::Response),
                ciphertext->0,
            );
            opened_response(eph_secret, gateway_public, class, env) == if env.version != 1 {
                Err::<Seq<u8>, EnvelopeError>(EnvelopeError::UnsupportedVersion(env.version))
            } else if env.token_class != class {
                Err::<Seq<u8>, EnvelopeError>(EnvelopeError::TokenClassMismatch)
            } else if nonce is None {
                Err::<Seq<u8>, EnvelopeError>(EnvelopeError::InvalidNonce)
            } else if nonce->0.len() != 12 {
                Err::<Seq<u8>, EnvelopeError>(EnvelopeError::NonceLength)
            } else if ciphertext is None {
                Err::<Seq<u8>, EnvelopeError>(EnvelopeError::InvalidCiphertext)
            } else if message is None {
                Err::<Seq<u8>, EnvelopeError>(EnvelopeError::DecryptFailed)
            } else {
                Ok::<Seq<u8>, EnvelopeError>(unpadded(message->0))
            }
        }),
{
}

/// A response is refused exactly where the request's version is not the first, its key
/// has not thirty-two bytes, or the answer is larger than the class allows.
pub proof fn law_answers_that_fit_are_sealed(request: EnvelopeView, len: nat)
    ensures
        response_refusal(request, len) is None <==> request.version == 1 && base64_bytes(
            request.kem_pub_b64,
        ) is Some && base64_bytes(request.kem_pub_b64)->0.len() == 32 && len
            <= request.token_class.response_size(),
        request.version == 1 && base64_bytes(request.kem_pub_b64) is Some && base64_bytes(
            request.kem_pub_b64,
        )->0.len() == 32 && len > request.token_class.response_size() ==> response_refusal(
            request,
            len,
        ) == Some(
            EnvelopeError::Padding(
                PaddingError::TooLarge {
                    len: len as usize,
                    max: request.token_class.response_size() as usize,
                },
            ),
        ),
{
}

/// An envelope of another version is never opened, on either side, and a client
/// opens no response of another class than that of its request.
pub proof fn law_relabelled_envelope_is_refused(
    secret: Seq<u8>,
    gateway_public: Seq<u8>,
    class: TokenClass,
    env: EnvelopeView,
)
    requires
        env.version != Envelope::VERSION || env.token_class != class,
    ensures
        opened_response(secret, gateway_public, class, env) is Err,
        env.version != Envelope::VERSION ==> opened_request(secret, env) == Err::<
            Seq<u8>,
            EnvelopeError,
        >(EnvelopeError::UnsupportedVersion(env.version)),
{
}

/// A request envelope that bears another class than it was sealed under is refused
/// wherever the cipher refuses its ciphertext under the key and the associated
/// data of that class, which differ from those it was sealed with.
pub proof fn law_other_class_is_refused(
    secret: Seq<u8>,
    env: EnvelopeView,
    sealed_under: TokenClass,
)
    requires
        env.token_class != sealed_under,
        base64_bytes(env.kem_pub_b64) matches Some(eph) && base64_bytes(env.nonce_b64) matches Some(
            nonce,
        ) && base64_bytes(env.ciphertext_b64) matches Some(ciphertext) && aead_opened(
            envelope_key(x25519_shared_secret(secret, eph), KeyDirection::Request, env.token_class),
            nonce,
            associated_data(env.token_class, KeyDirection::Request),
            ciphertext,
        ) is None,
    ensures
        opened_request(secret, env) is Err,
        key_info(env.token_class, KeyDirection::Request) != key_info(
            sealed_under,
            KeyDirection::Request,
        ),
        associated_data(env.token_class, KeyDirection::Request) != associated_data(
            sealed_under,
            KeyDirection::Request,
        ),
{
    law_labels_are_distinct(
        env.token_class,
        KeyDirection::Request,
        sealed_under,
        KeyDirection::Request,
    );
}

} // verus!
