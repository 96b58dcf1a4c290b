//! What a gateway may be started with, and the unpaid compatibility routes.

use vstd::prelude::*;
use vstd::string::*;

use crate::crypto;
use crate::crypto::{key_of_text, KeyTextError};
use crate::json;
use crate::json::{members, parsed_json, Json, JsonTree};

verus! {

/// Which verifier a gateway runs.
#[derive(Debug, Copy, Clone, PartialEq, Eq, Structural)]
pub enum ZkVerifierKind {
    Dummy,
    Halo2,
    Actum,
}

/// The address that a gateway listens on.
#[derive(Debug, Copy, Clone)]
pub enum ListenAddr {
    V4 { octets: [u8; 4], port: u16 },
    V6 { segments: [u16; 8], port: u16 },
}

impl ListenAddr {
    /// Whether the address reaches no further than this host: `127.0.0.0/8` or
    /// `::1`.
    pub open spec fn loopback(&self) -> bool {
        match self {
            ListenAddr::V4 { octets, .. } => octets@[0] == 127,
            ListenAddr::V6 { segments, .. } => segments@ == seq![
                0u16,
                0u16,
                0u16,
                0u16,
                0u16,
                0u16,
                0u16,
                1u16,
            ],
        }
    }

    /// Whether the address reaches no further than this host.
    pub fn is_loopback(&self) -> (r: bool)
        ensures
            r == self.loopback(),
    {
        match self {
            ListenAddr::V4 { octets, .. } => octets[0] == 127,
            ListenAddr::V6 { segments, .. } => {
                let r = segments[0] == 0 && segments[1] == 0 && segments[2] == 0 && segments[3] == 0
                    && segments[4] == 0 && segments[5] == 0 && segments[6] == 0 && segments[7] == 1;
                proof {
                    let one = seq![0u16, 0u16, 0u16, 0u16, 0u16, 0u16, 0u16, 1u16];
                    if r {
                        assert(segments@ =~= one);
                    }
                }
                r
            },
        }
    }
}

/// Whether the insecure dummy verifier may listen on an address.
pub fn is_dummy_bind_allowed(addr: ListenAddr, allow_non_loopback_local_demo: bool) -> (r: bool)
    ensures
        r == (addr.loopback() || allow_non_loopback_local_demo),
{
    addr.is_loopback() || allow_non_loopback_local_demo
}

/// Whether the unpaid compatibility routes may be as they are asked for: off,
/// or on for an isolated demo with the dummy verifier.
pub open spec fn compat_allowed(
    enabled: bool,
    verifier: ZkVerifierKind,
    allow_dummy: bool,
    addr: ListenAddr,
    allow_docker_demo: bool,
) -> bool {
    !enabled || (verifier == ZkVerifierKind::Dummy && allow_dummy && (addr.loopback()
        || allow_docker_demo))
}

/// Whether the unpaid compatibility routes may be as they are asked for.
pub fn is_compat_mode_allowed(
    enabled: bool,
    verifier: ZkVerifierKind,
    allow_dummy: bool,
    addr: ListenAddr,
    allow_docker_demo: bool,
) -> (r: bool)
    ensures
        r == compat_allowed(enabled, verifier, allow_dummy, addr, allow_docker_demo),
{
    !enabled || (verifier == ZkVerifierKind::Dummy && allow_dummy && is_dummy_bind_allowed(
        addr,
        allow_docker_demo,
    ))
}

/// The addresses that reach no further than this host are those that begin with 127,
/// and the one of the newer protocol that is zero but for a final one.
pub proof fn law_loopback_addresses(octets: [u8; 4], segments: [u16; 8], port: u16)
    ensures
        (ListenAddr::V4 { octets, port }).loopback() <==> octets@[0] == 127,
        (ListenAddr::V6 { segments, port }).loopback() <==> segments@[7] == 1 && forall|i: int|
            0 <= i < 7 ==> #[trigger] segments@[i] == 0,
{
    let one = seq![0u16, 0u16, 0u16, 0u16, 0u16, 0u16, 0u16, 1u16];
    if segments@ == one {
        assert forall|i: int| 0 <= i < 7 implies #[trigger] segments@[i] == 0 by {
            assert(one[i] == 0);
        }
        assert(one[7] == 1);
    }
    if segments@[7] == 1 && forall|i: int| 0 <= i < 7 ==> #[trigger] segments@[i] == 0 {
        assert(segments@ =~= one);
    }
}

/// Unpaid routes are served by an isolated demo alone: with the dummy verifier, which
/// has to be allowed, and on this host unless the demo is said to be contained.
pub proof fn law_unpaid_routes_are_for_demos(
    verifier: ZkVerifierKind,
    allow_dummy: bool,
    addr: ListenAddr,
    allow_docker_demo: bool,
)
    ensures
        compat_allowed(true, verifier, allow_dummy, addr, allow_docker_demo) <==> verifier
            == ZkVerifierKind::Dummy && allow_dummy && (addr.loopback() || allow_docker_demo),
        compat_allowed(false, verifier, allow_dummy, addr, allow_docker_demo),
{
}

/// Each verifier needs its own configuration and no other: the dummy one a permission,
/// the proof verifier its key, and the payment service an address, a credential and an
/// audience.
pub proof fn law_verifiers_need_their_own(
    allow_dummy: bool,
    has_verifying_key: bool,
    has_actum_url: bool,
    has_actum_token: bool,
    has_actum_audience: bool,
)
    ensures
        verifier_gap(
            ZkVerifierKind::Dummy,
            allow_dummy,
            has_verifying_key,
            has_actum_url,
            has_actum_token,
            has_actum_audience,
        ) == if allow_dummy {
            None::<StartupError>
        } else {
            Some(StartupError::DummyDisabled)
        },
        verifier_gap(
            ZkVerifierKind::Halo2,
            allow_dummy,
            has_verifying_key,
            has_actum_url,
            has_actum_token,
            has_actum_audience,
        ) == if has_verifying_key {
            None::<StartupError>
        } else {
            Some(StartupError::MissingVerifyingKey)
        },
        verifier_gap(
            ZkVerifierKind::Actum,
            allow_dummy,
            has_verifying_key,
            has_actum_url,
            has_actum_token,
            has_actum_audience,
        ) is None <==> has_actum_url && has_actum_token && has_actum_audience,
        !has_actum_url ==> verifier_gap(
            ZkVerifierKind::Actum,
            allow_dummy,
            has_verifying_key,
            has_actum_url,
            has_actum_token,
            has_actum_audience,
        ) == Some(StartupError::MissingActumUrl),
        has_actum_url && !has_actum_token ==> verifier_gap(
            ZkVerifierKind::Actum,
            allow_dummy,
            has_verifying_key,
            has_actum_url,
            has_actum_token,
            has_actum_audience,
        ) == Some(StartupError::MissingActumToken),
        has_actum_url && has_actum_token && !has_actum_audience ==> verifier_gap(
            ZkVerifierKind::Actum,
            allow_dummy,
            has_verifying_key,
            has_actum_url,
            has_actum_token,
            has_actum_audience,
        ) == Some(StartupError::MissingActumAudience),
{
}

/// A gateway starts with a secret key of thirty-two bytes, and says what is wrong with
/// any other.
pub proof fn law_secret_key_has_thirty_two_bytes(text: Seq<char>)
    ensures
        configured_secret(None) == Err::<Seq<u8>, StartupError>(StartupError::MissingSecretKey),
        crypto::base64_bytes(text) is None ==> configured_secret(Some(text)) == Err::<
            Seq<u8>,
            StartupError,
        >(StartupError::SecretKeyNotBase64),
        crypto::base64_bytes(text) matches Some(bytes) ==> configured_secret(Some(text)) == (
        if bytes.len() == 32 {
            Ok::<Seq<u8>, StartupError>(bytes)
        } else {
            Err::<Seq<u8>, StartupError>(StartupError::SecretKeyLength)
        }),
{
}

/// A verifier that takes payment never runs with unpaid routes.
pub proof fn law_paid_verifiers_have_no_unpaid_routes(
    verifier: ZkVerifierKind,
    allow_dummy: bool,
    addr: ListenAddr,
    allow_docker_demo: bool,
)
    requires
        verifier != ZkVerifierKind::Dummy,
    ensures
        !compat_allowed(true, verifier, allow_dummy, addr, allow_docker_demo),
        compat_allowed(false, verifier, allow_dummy, addr, allow_docker_demo),
{
}

/// Why a gateway does not start.
#[derive(Debug, Copy, Clone, PartialEq, Eq, Structural)]
pub enum StartupError {
    MissingSecretKey,
    SecretKeyNotBase64,
    SecretKeyLength,
    DummyBind,
    CompatNotIsolated,
    DummyDisabled,
    MissingVerifyingKey,
    MissingActumUrl,
    MissingActumToken,
    MissingActumAudience,
}

/// The secret key that is configured.
pub open spec fn configured_secret(text: Option<Seq<char>>) -> Result<Seq<u8>, StartupError> {
    match text {
        None => Err(StartupError::MissingSecretKey),
        Some(t) => match key_of_text(t) {
            Ok(bytes) => Ok(bytes),
            Err(KeyTextError::NotBase64) => Err(StartupError::SecretKeyNotBase64),
            Err(KeyTextError::WrongLength) => Err(StartupError::SecretKeyLength),
        },
    }
}

/// An optional text by what it holds.
pub open spec fn optional_text(text: Option<&str>) -> Option<Seq<char>> {
    match text {
        Some(t) => Some(t@),
        None => None,
    }
}

/// The secret key that is configured.
pub fn secret_key(text: Option<&str>) -> (r: Result<[u8; 32], StartupError>)
    ensures
        match configured_secret(optional_text(text)) {
            Ok(bytes) => r is Ok && r->Ok_0@ == bytes,
            Err(e) => r == Err::<[u8; 32], StartupError>(e),
        },
{
    match text {
        None => Err(StartupError::MissingSecretKey),
        Some(t) => match crypto::decode_b64_32(t) {
            Ok(bytes) => Ok(bytes),
            Err(KeyTextError::NotBase64) => Err(StartupError::SecretKeyNotBase64),
            Err(KeyTextError::WrongLength) => Err(StartupError::SecretKeyLength),
        },
    }
}

/// Checks where the dummy verifier may listen and when the compatibility routes
/// may be on.
pub fn check_bind(
    verifier: ZkVerifierKind,
    addr: ListenAddr,
    allow_dummy: bool,
    allow_non_loopback_local_demo: bool,
    enable_compat: bool,
) -> (r: Result<(), StartupError>)
    ensures
        r == if verifier == ZkVerifierKind::Dummy && !addr.loopback()
            && !allow_non_loopback_local_demo {
            Err::<(), StartupError>(StartupError::DummyBind)
        } else if !compat_allowed(
            enable_compat,
            verifier,
            allow_dummy,
            addr,
            allow_non_loopback_local_demo,
        ) {
            Err::<(), StartupError>(StartupError::CompatNotIsolated)
        } else {
            Ok::<(), StartupError>(())
        },
{
    if verifier == ZkVerifierKind::Dummy && !is_dummy_bind_allowed(
        addr,
        allow_non_loopback_local_demo,
    ) {
        return Err(StartupError::DummyBind);
    }
    if !is_compat_mode_allowed(
        enable_compat,
        verifier,
        allow_dummy,
        addr,
        allow_non_loopback_local_demo,
    ) {
        return Err(StartupError::CompatNotIsolated);
    }
    Ok(())
}

/// What the configuration of each verifier lacks, if it lacks something.
pub open spec fn verifier_gap(
    verifier: ZkVerifierKind,
    allow_dummy: bool,
    has_verifying_key: bool,
    has_actum_url: bool,
    has_actum_token: bool,
    has_actum_audience: bool,
) -> Option<StartupError> {
    match verifier {
        ZkVerifierKind::Dummy => if allow_dummy {
            None
        } else {
            Some(StartupError::DummyDisabled)
        },
        ZkVerifierKind::Halo2 => if has_verifying_key {
            None
        } else {
            Some(StartupError::MissingVerifyingKey)
        },
        ZkVerifierKind::Actum => if !has_actum_url {
            Some(StartupError::MissingActumUrl)
        } else if !has_actum_token {
            Some(StartupError::MissingActumToken)
        } else if !has_actum_audience {
            Some(StartupError::MissingActumAudience)
        } else {
            None
        },
    }
}

/// Checks that what the chosen verifier needs is configured.
pub fn check_verifier(
    verifier: ZkVerifierKind,
    allow_dummy: bool,
    has_verifying_key: bool,
    has_actum_url: bool,
    has_actum_token: bool,
    has_actum_audience: bool,
) -> (r: Option<StartupError>)
    ensures
        r == verifier_gap(
            verifier,
            allow_dummy,
            has_verifying_key,
            has_actum_url,
            has_actum_token,
            has_actum_audience,
        ),
{
    match verifier {
        ZkVerifierKind::Dummy => if allow_dummy {
            None
        } else {
            Some(StartupError::DummyDisabled)
        },
        ZkVerifierKind::Halo2 => if has_verifying_key {
            None
        } else {
            Some(StartupError::MissingVerifyingKey)
        },
        ZkVerifierKind::Actum => if !has_actum_url {
            Some(StartupError::MissingActumUrl)
        } else if !has_actum_token {
            Some(StartupError::MissingActumToken)
        } else if !has_actum_audience {
            Some(StartupError::MissingActumAudience)
        } else {
            None
        },
    }
}

impl StartupError {
    /// The message of the error, without the address that it may be about.
    pub open spec fn spec_message(self) -> Seq<char> {
        match self {
            StartupError::MissingSecretKey =>
                "GATEWAY_SECRET_KEY_B64 is required (or use --generate-keys)"@,
            StartupError::SecretKeyNotBase64 => "invalid base64 in GATEWAY_SECRET_KEY_B64"@,
            StartupError::SecretKeyLength => "GATEWAY_SECRET_KEY_B64 must decode to 32 bytes"@,
            StartupError::DummyBind =>
                "insecure dummy verifier; use a loopback listen address or configure a real verifier"@,
            StartupError::CompatNotIsolated =>
                "compatibility routes require an explicitly enabled isolated dummy-verifier demo"@,
            StartupError::DummyDisabled =>
                "dummy verifier selected but disabled. For dev: set GATEWAY_ALLOW_DUMMY_VERIFIER=true"@,
            StartupError::MissingVerifyingKey =>
                "HALO2_VK_PATH is required when --zk-verifier halo2"@,
            StartupError::MissingActumUrl =>
                "ACTUM_VERIFIER_URL is required when --zk-verifier actum"@,
            StartupError::MissingActumToken =>
                "ACTUM_VERIFIER_BEARER_TOKEN is required when --zk-verifier actum"@,
            StartupError::MissingActumAudience =>
                "ACTUM_AUDIENCE is required when --zk-verifier actum"@,
        }
    }

    /// The message of the error, without the address that it may be about.
    pub fn message(&self) -> (r: &'static str)
        ensures
            r@ == self.spec_message(),
    {
        match self {
            StartupError::MissingSecretKey =>
                "GATEWAY_SECRET_KEY_B64 is required (or use --generate-keys)",
            StartupError::SecretKeyNotBase64 => "invalid base64 in GATEWAY_SECRET_KEY_B64",
            StartupError::SecretKeyLength => "GATEWAY_SECRET_KEY_B64 must decode to 32 bytes",
            StartupError::DummyBind =>
                "insecure dummy verifier; use a loopback listen address or configure a real verifier",
            StartupError::CompatNotIsolated =>
                "compatibility routes require an explicitly enabled isolated dummy-verifier demo",
            StartupError::DummyDisabled =>
                "dummy verifier selected but disabled. For dev: set GATEWAY_ALLOW_DUMMY_VERIFIER=true",
            StartupError::MissingVerifyingKey =>
                "HALO2_VK_PATH is required when --zk-verifier halo2",
            StartupError::MissingActumUrl =>
                "ACTUM_VERIFIER_URL is required when --zk-verifier actum",
            StartupError::MissingActumToken =>
                "ACTUM_VERIFIER_BEARER_TOKEN is required when --zk-verifier actum",
            StartupError::MissingActumAudience =>
                "ACTUM_AUDIENCE is required when --zk-verifier actum",
        }
    }
}

/// What came of a call to the provider on a compatibility route.
pub enum CompatReply {
    Unreachable,
    ErrorStatus,
    ReadError,
    Body { status: u16, bytes: Vec<u8> },
}

/// What a compatibility route answers: a status and a JSON body.
pub struct CompatResponse {
    pub status: u16,
    pub body: Json,
}

/// The JSON of an error with a code and perhaps a message.
pub open spec fn error_tree(code: Seq<char>, message: Option<Seq<char>>) -> JsonTree {
    JsonTree::Fields(
        seq![
            (
                "error"@,
                JsonTree::Fields(
                    match message {
                        None => seq![("code"@, JsonTree::Text(code))],
                        Some(m) => seq![
                            ("code"@, JsonTree::Text(code)),
                            ("message"@, JsonTree::Text(m)),
                        ],
                    },
                ),
            ),
        ],
    )
}

fn error_json(code: &str, message: Option<&str>) -> (r: Json)
    ensures
        r.tree() == error_tree(code@, optional_text(message)),
{
    let mut inner: Vec<(String, Json)> = vec![
        (String::from_str("code"), Json::Text(String::from_str(code))),
    ];
    if let Some(m) = message {
        inner.push((String::from_str("message"), Json::Text(String::from_str(m))));
    }
    proof {
        json::law_fields_tree(inner);
        match message {
            None => {
                assert(members(inner@) =~= seq![("code"@, JsonTree::Text(code@))]);
            },
            Some(m) => {
                assert(members(inner@) =~= seq![
                    ("code"@, JsonTree::Text(code@)),
                    ("message"@, JsonTree::Text(m@)),
                ]);
            },
        }
    }
    let outer: Vec<(String, Json)> = vec![(String::from_str("error"), Json::Fields(inner))];
    proof {
        json::law_fields_tree(outer);
        assert(members(outer@) =~= seq![("error"@, outer@[0].1.tree())]);
    }
    Json::Fields(outer)
}

/// The status with which a compatibility route refuses a call, whatever router it
/// came through: that of a route that does not exist, unless the routes are
/// enabled.
pub fn compat_refusal(compatibility_enabled: bool) -> (r: Option<u16>)
    ensures
        r == if compatibility_enabled {
            None::<u16>
        } else {
            Some(404u16)
        },
{
    if compatibility_enabled {
        None
    } else {
        Some(404)
    }
}

/// What a compatibility route answers to a reply of the provider.
pub open spec fn compat_answer(reply: CompatReply) -> (u16, JsonTree) {
    match reply {
        CompatReply::Unreachable => (
            502,
            error_tree("upstream_unreachable"@, Some("upstream network error"@)),
        ),
        CompatReply::ErrorStatus => (502, error_tree("upstream_error"@, None)),
        CompatReply::ReadError => (
            502,
            error_tree("upstream_unreachable"@, Some("upstream read error"@)),
        ),
        CompatReply::Body { status, bytes } => match parsed_json(bytes@) {
            Some(tree) => (status, tree),
            None => (502, error_tree("upstream_parse"@, None)),
        },
    }
}

/// A good body passes through with its status. Everything else is answered with the
/// status of a bad gateway and a code, and nothing of a bad body goes along.
pub proof fn law_compat_routes_reflect_no_errors(reply: CompatReply)
    ensures
        match reply {
            CompatReply::Body { status, bytes } => parsed_json(bytes@) is Some ==> compat_answer(
                reply,
            ) == (status, parsed_json(bytes@)->0),
            _ => true,
        },
        !(reply matches CompatReply::Body { bytes, .. } && parsed_json(bytes@) is Some) ==> {
            let answer = compat_answer(reply);
            let error = json::get_member(answer.1, "error"@);
            &&& answer.0 == 502
            &&& error is Some
            &&& json::get_member(error->0, "code"@) == Some(
                JsonTree::Text(
                    match reply {
                        CompatReply::Unreachable => "upstream_unreachable"@,
                        CompatReply::ErrorStatus => "upstream_error"@,
                        CompatReply::ReadError => "upstream_unreachable"@,
                        CompatReply::Body { .. } => "upstream_parse"@,
                    },
                ),
            )
            &&& json::get_member(error->0, "message"@) == match reply {
                CompatReply::Unreachable => Some(JsonTree::Text("upstream network error"@)),
                CompatReply::ReadError => Some(JsonTree::Text("upstream read error"@)),
                _ => None,
            }
        },
{
    if !(reply matches CompatReply::Body { bytes, .. } && parsed_json(bytes@) is Some) {
        reveal_strlit("code");
        reveal_strlit("message");
        assert("code"@.len() == 4);
        assert("message"@.len() == 7);
        let answer = compat_answer(reply);
        let outer = answer.1->Fields_0;
        json::law_last_member_counts(outer, 0, "error"@);
        assert(outer.len() == 1 && outer[0].0 == "error"@);
        let inner = outer[0].1->Fields_0;
        json::law_last_member_counts(inner, 0, "code"@);
        json::law_last_member_counts(inner, 1, "message"@);
        assert(inner[0].0 == "code"@);
    }
}

/// Passes a good JSON body on and answers everything else with a categorical
/// error.
pub fn compat_proxy(reply: CompatReply) -> (r: CompatResponse)
    ensures
        (r.status, r.body.tree()) == compat_answer(reply),
{
    match reply {
        CompatReply::Unreachable => CompatResponse {
            status: 502,
            body: error_json("upstream_unreachable", Some("upstream network error")),
        },
        CompatReply::ErrorStatus => CompatResponse {
            status: 502,
            body: error_json("upstream_error", None),
        },
        CompatReply::ReadError => CompatResponse {
            status: 502,
            body: error_json("upstream_unreachable", Some("upstream read error")),
        },
        CompatReply::Body { status, bytes } => match Json::parse(bytes.as_slice()) {
            Ok(body) => CompatResponse { status, body },
            Err(_) => CompatResponse { status: 502, body: error_json("upstream_parse", None) },
        },
    }
}

} // verus!
