//! Anonymous usage tickets and their verifiers.

use vstd::prelude::*;
use vstd::string::*;

use crate::crypto;
use crate::crypto::sha256_digest;
use crate::text;
use crate::token::TokenClass;

verus! {

/// Bytes that travel as base64 text.
#[derive(Debug, PartialEq, Eq, Hash)]
pub struct B64Bytes(pub Vec<u8>);

impl Clone for B64Bytes {
    fn clone(&self) -> (r: Self)
        ensures
            r.0@ == self.0@,
    {
        B64Bytes(text::copy_bytes(self.0.as_slice()))
    }
}

/// Anonymous usage authorization for a single call.
#[derive(Debug)]
pub struct ZkTicket {
    /// Merkle root (or other accumulator) of valid commitments.
    pub commitment_root: B64Bytes,
    /// Unique per ticket. The gateway makes sure that it is not used twice.
    pub nullifier: B64Bytes,
    /// Billed class that the proof binds to.
    pub token_class: TokenClass,
    /// Opaque proof bytes.
    pub proof: B64Bytes,
}

/// What a ticket holds.
pub struct TicketView {
    pub commitment_root: Seq<u8>,
    pub nullifier: Seq<u8>,
    pub token_class: TokenClass,
    pub proof: Seq<u8>,
}

impl View for ZkTicket {
    type V = TicketView;

    open spec fn view(&self) -> TicketView {
        TicketView {
            commitment_root: self.commitment_root.0@,
            nullifier: self.nullifier.0@,
            token_class: self.token_class,
            proof: self.proof.0@,
        }
    }
}

impl Clone for ZkTicket {
    fn clone(&self) -> (r: Self)
        ensures
            r@ == self@,
    {
        ZkTicket {
            commitment_root: self.commitment_root.clone(),
            nullifier: self.nullifier.clone(),
            token_class: self.token_class,
            proof: self.proof.clone(),
        }
    }
}

/// What a verifier reports of a good ticket.
#[derive(Debug)]
pub struct VerifiedTicket {
    pub token_class: TokenClass,
    /// A stable identifier for replay protection, typically a hash of the
    /// nullifier.
    pub nullifier_key: Vec<u8>,
}

impl Clone for VerifiedTicket {
    fn clone(&self) -> (r: Self)
        ensures
            r.token_class == self.token_class,
            r.nullifier_key@ == self.nullifier_key@,
    {
        VerifiedTicket {
            token_class: self.token_class,
            nullifier_key: text::copy_bytes(self.nullifier_key.as_slice()),
        }
    }
}

/// Why a ticket was not accepted.
#[derive(Debug)]
pub enum ZkVerifyError {
    InvalidProof,
    Internal(String),
}

impl ZkVerifyError {
    /// The message of the error.
    pub open spec fn spec_message(self) -> Seq<char> {
        match self {
            ZkVerifyError::InvalidProof => "invalid proof"@,
            ZkVerifyError::Internal(detail) => "internal verifier error: "@ + detail@,
        }
    }

    /// The message of the error.
    pub fn message(&self) -> (r: String)
        ensures
            r@ == self.spec_message(),
    {
        match self {
            ZkVerifyError::InvalidProof => String::from_str("invalid proof"),
            ZkVerifyError::Internal(detail) => {
                let mut m = String::from_str("internal verifier error: ");
                m.append(detail.as_str());
                m
            },
        }
    }
}

/// Verifies anonymous usage tickets.
pub trait ZkVerifier: Send + Sync {
    fn verify(&self, ticket: &ZkTicket) -> Result<VerifiedTicket, ZkVerifyError>;
}

/// A deliberately insecure verifier with which the gateway can be wired
/// together end to end. For local development only.
#[derive(Debug)]
pub struct DummyVerifier;

impl Default for DummyVerifier {
    fn default() -> (r: Self)
        ensures
            r == DummyVerifier,
    {
        DummyVerifier
    }
}

impl ZkVerifier for DummyVerifier {
    fn verify(&self, ticket: &ZkTicket) -> (r: Result<VerifiedTicket, ZkVerifyError>)
        ensures
            r is Ok <==> ticket@.proof.len() > 0 && ticket@.nullifier.len() > 0,
            r matches Ok(v) ==> v.token_class == ticket@.token_class && v.nullifier_key@
                == ticket@.nullifier,
            r matches Err(e) ==> e == ZkVerifyError::InvalidProof,
    {
        if ticket.proof.0.len() == 0 || ticket.nullifier.0.len() == 0 {
            return Err(ZkVerifyError::InvalidProof);
        }
        Ok(
            VerifiedTicket {
                token_class: ticket.token_class,
                nullifier_key: text::copy_bytes(ticket.nullifier.0.as_slice()),
            },
        )
    }
}

/// The SHA-256 digest of some bytes.
pub fn sha256(bytes: &[u8]) -> (r: Vec<u8>)
    ensures
        r@ == sha256_digest(bytes@),
        r@.len() == 32,
{
    crypto::sha256_bytes(bytes)
}

/// A stable replay key for a ticket.
///
/// A database should hold this rather than raw nullifiers, which may have a
/// structure that is useful to others.
pub fn replay_key(ticket: &ZkTicket) -> (r: Vec<u8>)
    ensures
        r@ == sha256_digest(ticket@.nullifier),
        r@.len() == 32,
{
    sha256(ticket.nullifier.0.as_slice())
}

} // verus!
