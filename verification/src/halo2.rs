//! A place for a Halo2/Plonk verifier.
//!
//! No circuit is shipped, so no verifier can be set up and none accepts a
//! ticket.

use vstd::prelude::*;
use vstd::string::*;

use crate::zk::{VerifiedTicket, ZkTicket, ZkVerifier, ZkVerifyError};

verus! {

/// Where the artifacts of a circuit lie. What they hold depends on the circuit.
#[derive(Debug)]
pub struct Halo2PlonkVerifierConfig {
    /// Path to a verifying key file.
    pub verifying_key_path: String,
    /// Path to parameters, where the verifying key does not hold them.
    pub params_path: Option<String>,
}

/// A verifier for a Halo2/Plonk circuit.
#[derive(Debug)]
pub struct Halo2PlonkVerifier;

/// Why a verifier cannot be set up: this build has no circuit.
#[derive(Debug, Copy, Clone, PartialEq, Eq, Structural)]
pub struct Halo2Disabled;

impl Halo2Disabled {
    /// The message of the error.
    pub fn message(&self) -> (r: &'static str)
        ensures
            r@ == "Halo2 verifier not enabled in this build. Recompile with --features halo2"@,
    {
        "Halo2 verifier not enabled in this build. Recompile with --features halo2"
    }
}

impl Halo2PlonkVerifier {
    /// Sets up a verifier. It fails at once, whatever the configuration.
    pub fn new(cfg: Halo2PlonkVerifierConfig) -> (r: Result<Halo2PlonkVerifier, Halo2Disabled>)
        ensures
            r == Err::<Halo2PlonkVerifier, Halo2Disabled>(Halo2Disabled),
    {
        Err(Halo2Disabled)
    }
}

impl ZkVerifier for Halo2PlonkVerifier {
    fn verify(&self, ticket: &ZkTicket) -> (r: Result<VerifiedTicket, ZkVerifyError>)
        ensures
            r is Err,
            r->Err_0 is Internal,
            r->Err_0->Internal_0@ == "halo2 verifier not enabled in this build"@,
    {
        Err(ZkVerifyError::Internal(String::from_str("halo2 verifier not enabled in this build")))
    }
}

} // verus!
