//! The privacy relay: what it answers for what comes of forwarding an envelope.
//!
//! The relay adds nothing to an envelope that would tell the gateway who sent
//! it, and it cannot read what it forwards.

use vstd::prelude::*;

use crate::envelope::Envelope;

verus! {

/// Why an envelope was not answered.
#[derive(Debug, Copy, Clone, PartialEq, Eq, Structural)]
pub enum RelayError {
    Timeout,
    Unreachable,
    GatewayError,
}

impl RelayError {
    /// The HTTP status of the error.
    pub open spec fn spec_status(self) -> u16 {
        match self {
            RelayError::Timeout => 504,
            RelayError::Unreachable => 502,
            RelayError::GatewayError => 502,
        }
    }

    /// The message of the error.
    pub open spec fn spec_message(self) -> Seq<char> {
        match self {
            RelayError::Timeout => "gateway timeout"@,
            RelayError::Unreachable => "gateway unreachable"@,
            RelayError::GatewayError => "gateway error"@,
        }
    }

    /// The HTTP status of the error.
    pub fn status(&self) -> (r: u16)
        ensures
            r == self.spec_status(),
    {
        match self {
            RelayError::Timeout => 504,
            RelayError::Unreachable => 502,
            RelayError::GatewayError => 502,
        }
    }

    /// The message of the error.
    pub fn message(&self) -> (r: &'static str)
        ensures
            r@ == self.spec_message(),
    {
        match self {
            RelayError::Timeout => "gateway timeout",
            RelayError::Unreachable => "gateway unreachable",
            RelayError::GatewayError => "gateway error",
        }
    }
}

/// The statuses and messages of the errors, which say nothing of what was forwarded.
pub proof fn law_relay_errors(e: RelayError)
    ensures
        e == RelayError::Timeout ==> e.spec_status() == 504 && e.spec_message()
            == "gateway timeout"@,
        e == RelayError::Unreachable ==> e.spec_status() == 502 && e.spec_message()
            == "gateway unreachable"@,
        e == RelayError::GatewayError ==> e.spec_status() == 502 && e.spec_message()
            == "gateway error"@,
{
}

/// What came of forwarding an envelope to the gateway.
pub enum ForwardReply {
    /// No answer in time.
    TimedOut,
    /// The gateway could not be reached.
    NotSent,
    /// The body of the answer could not be read, whatever the status.
    NotRead,
    /// An answer with its status and, where the body is one, the envelope in it.
    Answered { status: u16, envelope: Option<Envelope> },
}

/// Whether a status says success.
pub open spec fn is_success(status: u16) -> bool {
    200 <= status < 300
}

/// What the relay answers: the gateway's envelope, or an error without details.
pub fn relay(reply: ForwardReply) -> (r: Result<Envelope, RelayError>)
    ensures
        match reply {
            ForwardReply::TimedOut => r == Err::<Envelope, RelayError>(RelayError::Timeout),
            ForwardReply::NotSent => r == Err::<Envelope, RelayError>(RelayError::Unreachable),
            ForwardReply::NotRead => r == Err::<Envelope, RelayError>(RelayError::Unreachable),
            ForwardReply::Answered { status, envelope } => if is_success(status) && envelope
                is Some {
                r == Ok::<Envelope, RelayError>(envelope->0)
            } else {
                r == Err::<Envelope, RelayError>(RelayError::GatewayError)
            },
        },
        r is Ok <==> (reply matches ForwardReply::Answered { status, envelope } && 200 <= status
            && status <= 299 && envelope is Some),
{
    match reply {
        ForwardReply::TimedOut => Err(RelayError::Timeout),
        ForwardReply::NotSent => Err(RelayError::Unreachable),
        ForwardReply::NotRead => Err(RelayError::Unreachable),
        ForwardReply::Answered { status, envelope } => {
            if status < 200 || status >= 300 {
                return Err(RelayError::GatewayError);
            }
            match envelope {
                Some(env) => Ok(env),
                None => Err(RelayError::GatewayError),
            }
        },
    }
}

} // verus!
