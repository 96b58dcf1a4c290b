//! Bounded input and upstream-response checks.
//!
//! These checks do not mint authority, attest a model or replace the
//! verification of a ticket.

use vstd::prelude::*;
use vstd::string::*;
use vstd::utf8::encode_utf8;

use crate::crypto;
use crate::crypto::{base64_bytes, base64_len, Uuid};
use crate::envelope::{has_class_size, Envelope, EnvelopeView};
use crate::json;
use crate::json::{member, number_value, JsonTree};
use crate::text;
use crate::text::trimmed;
use crate::types::{InferenceRequest, MessageView, RequestView};

verus! {

/// Why the outside of an envelope is refused, if it is.
pub open spec fn size_refusal(env: EnvelopeView) -> Option<Seq<char>> {
    let expected = env.token_class.request_size() + 16;
    if env.version != Envelope::VERSION {
        Some("unsupported_envelope_version"@)
    } else if text::byte_len(env.ciphertext_b64) != base64_len(expected) {
        Some("envelope_size_mismatch"@)
    } else {
        match base64_bytes(env.ciphertext_b64) {
            None => Some("invalid_ciphertext"@),
            Some(bytes) => if bytes.len() != expected {
                Some("envelope_size_mismatch"@)
            } else {
                None
            },
        }
    }
}

/// An outcome whose error is a code.
pub open spec fn code_outcome(r: Result<(), &'static str>) -> Option<Seq<char>> {
    match r {
        Ok(_) => None,
        Err(code) => Some(code@),
    }
}

/// Checks the version of an envelope and that its ciphertext has the one size
/// of its class. The length of the text is checked before it is decoded.
pub fn check_envelope_size(env: &Envelope) -> (r: Result<(), &'static str>)
    ensures
        code_outcome(r) == size_refusal(env@),
{
    if env.version != Envelope::VERSION {
        return Err("unsupported_envelope_version");
    }
    let expected: usize = env.token_class.envelope_request_plaintext_bytes() + 16;
    if text::text_bytes(env.ciphertext_b64.as_str()) != ((expected + 2) / 3) * 4 {
        return Err("envelope_size_mismatch");
    }
    match crypto::base64_decode(env.ciphertext_b64.as_str()) {
        Err(_) => Err("invalid_ciphertext"),
        Ok(ciphertext) => {
            if ciphertext.len() != expected {
                Err("envelope_size_mismatch")
            } else {
                Ok(())
            }
        },
    }
}

/// An envelope of the spoken version whose ciphertext has the size that sealing
/// gives it is admitted.
pub proof fn law_sealed_request_is_admitted(env: EnvelopeView)
    requires
        env.version == Envelope::VERSION,
        has_class_size(env.ciphertext_b64, env.token_class.request_size()),
    ensures
        size_refusal(env) is None,
{
}

/// Options that a request may not carry: its own structural members, other ways
/// to set an output budget, and credentials.
pub open spec fn reserved_options() -> Seq<Seq<char>> {
    seq![
        "request_id"@,
        "model"@,
        "messages"@,
        "max_tokens"@,
        "temperature"@,
        "stream"@,
        "token_class"@,
        "ticket"@,
        "provider_options"@,
        "max_completion_tokens"@,
        "max_output_tokens"@,
        "api_key"@,
        "authorization"@,
    ]
}

/// Whether a reserved option is given.
pub open spec fn has_reserved_option(options: Seq<(Seq<char>, JsonTree)>) -> bool {
    exists|i: int|
        0 <= i < reserved_options().len() && member(options, #[trigger] reserved_options()[i])
            is Some
}

/// Whether a message carries a member of its own named like a structural one.
pub open spec fn has_reserved_field(m: MessageView) -> bool {
    member(m.extra, "role"@) is Some || member(m.extra, "content"@) is Some
}

/// Whether a JSON value is the number one.
pub open spec fn is_one(tree: JsonTree) -> bool {
    tree matches JsonTree::Number(n) && number_value(n) == Some(1u64)
}

/// Why a request is refused by policy, if it is.
pub open spec fn request_refusal(envelope_id: Seq<u8>, req: RequestView) -> Option<Seq<char>> {
    if req.request_id != envelope_id {
        Some("request_id_mismatch"@)
    } else if trimmed(req.model).len() == 0 || req.messages.len() == 0 {
        Some("invalid_request"@)
    } else if has_reserved_option(req.provider_options) {
        Some("reserved_provider_option"@)
    } else if member(req.provider_options, "n"@) is Some && !is_one(
        member(req.provider_options, "n"@)->0,
    ) {
        Some("multiple_completions_unsupported"@)
    } else if member(req.provider_options, "store"@) is Some && member(
        req.provider_options,
        "store"@,
    )->0 != JsonTree::Bool(false) {
        Some("provider_storage_unsupported"@)
    } else if exists|i: int|
        0 <= i < req.messages.len() && has_reserved_field(#[trigger] req.messages[i]) {
        Some("reserved_message_field"@)
    } else {
        None
    }
}

/// Whether a name is reserved: a structural member, another way to set an output
/// budget, or a credential.
pub open spec fn is_reserved_name(name: Seq<char>) -> bool {
    ||| name == "request_id"@
    ||| name == "model"@
    ||| name == "messages"@
    ||| name == "max_tokens"@
    ||| name == "temperature"@
    ||| name == "stream"@
    ||| name == "token_class"@
    ||| name == "ticket"@
    ||| name == "provider_options"@
    ||| name == "max_completion_tokens"@
    ||| name == "max_output_tokens"@
    ||| name == "api_key"@
    ||| name == "authorization"@
}

proof fn lemma_reserved_options(options: Seq<(Seq<char>, JsonTree)>)
    ensures
        has_reserved_option(options) <==> exists|name: Seq<char>|
            is_reserved_name(name) && #[trigger] member(options, name) is Some,
{
    let all = reserved_options();
    assert(all.len() == 13);
    if has_reserved_option(options) {
        let i = choose|i: int|
            0 <= i < all.len() && member(options, #[trigger] all[i]) is Some;
        assert(is_reserved_name(all[i]));
    }
    if exists|name: Seq<char>| is_reserved_name(name) && #[trigger] member(options, name) is Some {
        let name = choose|name: Seq<char>|
            is_reserved_name(name) && #[trigger] member(options, name) is Some;
        assert(all[0] == "request_id"@);
        assert(all[1] == "model"@);
        assert(all[2] == "messages"@);
        assert(all[3] == "max_tokens"@);
        assert(all[4] == "temperature"@);
        assert(all[5] == "stream"@);
        assert(all[6] == "token_class"@);
        assert(all[7] == "ticket"@);
        assert(all[8] == "provider_options"@);
        assert(all[9] == "max_completion_tokens"@);
        assert(all[10] == "max_output_tokens"@);
        assert(all[11] == "api_key"@);
        assert(all[12] == "authorization"@);
        assert(exists|i: int| 0 <= i < all.len() && #[trigger] all[i] == name);
        let i = choose|i: int| 0 <= i < all.len() && #[trigger] all[i] == name;
        assert(member(options, all[i]) is Some);
    }
}

/// A request passes the option policy if and only if it bears the identifier of its
/// envelope, names a model, says something, sets no reserved option, asks for one
/// completion at most, does not ask the provider to store anything, and none of its
/// messages bears a second role or content. Otherwise the first of these that fails
/// says why.
pub proof fn law_policy_admits_exactly_these(envelope_id: Seq<u8>, req: RequestView)
    ensures
        ({
            let reserved = exists|name: Seq<char>|
                is_reserved_name(name) && #[trigger] member(req.provider_options, name) is Some;
            let n = member(req.provider_options, "n"@);
            let store = member(req.provider_options, "store"@);
            let one = match n {
                None => true,
                Some(JsonTree::Number(x)) => number_value(x) == Some(1u64),
                Some(_) => false,
            };
            let doubled = exists|i: int|
                0 <= i < req.messages.len() && (member(
                    (#[trigger] req.messages[i]).extra,
                    "role"@,
                ) is Some || member(req.messages[i].extra, "content"@) is Some);
            request_refusal(envelope_id, req) == if req.request_id != envelope_id {
                Some("request_id_mismatch"@)
            } else if trimmed(req.model).len() == 0 || req.messages.len() == 0 {
                Some("invalid_request"@)
            } else if reserved {
                Some("reserved_provider_option"@)
            } else if !one {
                Some("multiple_completions_unsupported"@)
            } else if !(store is None || store == Some(JsonTree::Bool(false))) {
                Some("provider_storage_unsupported"@)
            } else if doubled {
                Some("reserved_message_field"@)
            } else {
                None
            }
        }),
{
    lemma_reserved_options(req.provider_options);
    if exists|i: int| 0 <= i < req.messages.len() && has_reserved_field(#[trigger] req.messages[i]) {
        let i = choose|i: int|
            0 <= i < req.messages.len() && has_reserved_field(#[trigger] req.messages[i]);
        assert(member(req.messages[i].extra, "role"@) is Some || member(
            req.messages[i].extra,
            "content"@,
        ) is Some);
    }
    if exists|i: int|
        0 <= i < req.messages.len() && (member((#[trigger] req.messages[i]).extra, "role"@) is Some
            || member(req.messages[i].extra, "content"@) is Some) {
        let i = choose|i: int|
            0 <= i < req.messages.len() && (member((#[trigger] req.messages[i]).extra, "role"@)
                is Some || member(req.messages[i].extra, "content"@) is Some);
        assert(has_reserved_field(req.messages[i]));
    }
}

/// An envelope passes the size check if and only if it is of the first version and
/// its ciphertext is the base64 text of exactly as many bytes as the padded request
/// of its class and sixteen bytes of authentication take.
pub proof fn law_size_check_admits_one_size(env: EnvelopeView)
    ensures
        size_refusal(env) is None <==> {
            &&& env.version == 1
            &&& text::byte_len(env.ciphertext_b64) == 4 * ((env.token_class.request_size() + 16
                + 2) / 3)
            &&& base64_bytes(env.ciphertext_b64) is Some
            &&& base64_bytes(env.ciphertext_b64)->0.len() == env.token_class.request_size() + 16
        },
        env.version != 1 ==> size_refusal(env) == Some("unsupported_envelope_version"@),
        size_refusal(env) is Some ==> size_refusal(env)->0 == "unsupported_envelope_version"@
            || size_refusal(env)->0 == "envelope_size_mismatch"@ || size_refusal(env)->0
            == "invalid_ciphertext"@,
{
}

/// A body is begun to be read unless it is said to be compressed, or said to be
/// longer than the limit.
pub proof fn law_announced_body_is_begun(
    content_encoding: Option<Seq<u8>>,
    content_length: Option<u64>,
    limit: nat,
)
    ensures
        content_encoding is Some && content_encoding->0 != encode_utf8("identity"@)
            ==> body_refusal(content_encoding, content_length, limit) == Some(
            "compressed_upstream_unsupported"@,
        ),
        (content_encoding is None || content_encoding->0 == encode_utf8("identity"@))
            && content_length is Some && content_length->0 > limit ==> body_refusal(
            content_encoding,
            content_length,
            limit,
        ) == Some("upstream_too_large"@),
        (content_encoding is None || content_encoding->0 == encode_utf8("identity"@)) && (
        content_length is None || content_length->0 <= limit) ==> body_refusal(
            content_encoding,
            content_length,
            limit,
        ) is None,
{
}

fn reserved_keys() -> (r: Vec<&'static str>)
    ensures
        r@.len() == reserved_options().len(),
        forall|i: int| 0 <= i < r@.len() ==> (#[trigger] r@[i])@ == reserved_options()[i],
{
    vec![
        "request_id",
        "model",
        "messages",
        "max_tokens",
        "temperature",
        "stream",
        "token_class",
        "ticket",
        "provider_options",
        "max_completion_tokens",
        "max_output_tokens",
        "api_key",
        "authorization",
    ]
}

fn carries_reserved_option(options: &Vec<(String, json::Json)>) -> (r: bool)
    ensures
        r == has_reserved_option(json::members(options@)),
{
    let keys = reserved_keys();
    let mut i: usize = 0;
    while i < keys.len()
        invariant
            i <= keys@.len(),
            keys@.len() == reserved_options().len(),
            forall|k: int| 0 <= k < keys@.len() ==> (#[trigger] keys@[k])@ == reserved_options()[k],
            forall|k: int|
                0 <= k < i ==> member(json::members(options@), #[trigger] reserved_options()[k])
                    is None,
        decreases keys@.len() - i,
    {
        if json::find_field(options, keys[i]).is_some() {
            proof {
                assert(member(json::members(options@), reserved_options()[i as int]) is Some);
            }
            return true;
        }
        i += 1;
    }
    false
}

/// Checks a decrypted request against the envelope it came in and against the
/// option policy, before any verification, spending or dispatch.
///
/// This does not claim to validate every option that a provider may know.
pub fn check_request(envelope_id: &Uuid, req: &InferenceRequest) -> (r: Result<(), &'static str>)
    ensures
        code_outcome(r) == request_refusal(envelope_id.bytes@, req@),
{
    if !req.request_id.same(envelope_id) {
        return Err("request_id_mismatch");
    }
    if text::is_blank(req.model.as_str()) || req.messages.len() == 0 {
        return Err("invalid_request");
    }
    if carries_reserved_option(&req.provider_options) {
        return Err("reserved_provider_option");
    }
    if let Some(value) = json::find_field(&req.provider_options, "n") {
        let one: bool = match value.as_u64() {
            Some(n) => n == 1,
            None => false,
        };
        if !one {
            return Err("multiple_completions_unsupported");
        }
    }
    if let Some(value) = json::find_field(&req.provider_options, "store") {
        let off: bool = match value.as_bool() {
            Some(b) => !b,
            None => false,
        };
        if !off {
            return Err("provider_storage_unsupported");
        }
    }
    let mut i: usize = 0;
    while i < req.messages.len()
        invariant
            i <= req.messages@.len(),
            forall|k: int| 0 <= k < i ==> !has_reserved_field(#[trigger] req@.messages[k]),
            request_refusal(envelope_id.bytes@, req@) == (if exists|k: int|
                0 <= k < req@.messages.len() && has_reserved_field(#[trigger] req@.messages[k]) {
                Some("reserved_message_field"@)
            } else {
                None
            }),
        decreases req.messages@.len() - i,
    {
        let message = &req.messages[i];
        let reserved = json::find_field(&message.extra, "role").is_some()
            || json::find_field(&message.extra, "content").is_some();
        proof {
            assert(req@.messages[i as int] == message@);
        }
        if reserved {
            return Err("reserved_message_field");
        }
        i += 1;
    }
    Ok(())
}

/// A response body that is read piece by piece and never grows past a limit.
pub struct BoundedBody {
    limit: usize,
    body: Vec<u8>,
}

/// Why a body is not even begun to be read, if it is not.
pub open spec fn body_refusal(
    content_encoding: Option<Seq<u8>>,
    content_length: Option<u64>,
    limit: nat,
) -> Option<Seq<char>> {
    if content_encoding is Some && content_encoding->0 != encode_utf8("identity"@) {
        Some("compressed_upstream_unsupported"@)
    } else if content_length is Some && content_length->0 > limit {
        Some("upstream_too_large"@)
    } else {
        None
    }
}

impl BoundedBody {
    #[verifier::type_invariant]
    spec fn within_limit(self) -> bool {
        self.body@.len() <= self.limit
    }

    /// How many bytes the body may have.
    pub closed spec fn limit(&self) -> nat {
        self.limit as nat
    }

    /// What has been read so far.
    pub closed spec fn bytes(&self) -> Seq<u8> {
        self.body@
    }

    /// Begins to read a body, given the headers that announce it.
    pub fn begin(
        content_encoding: Option<&[u8]>,
        content_length: Option<u64>,
        limit: usize,
    ) -> (r: Result<BoundedBody, &'static str>)
        ensures
            match body_refusal(crypto::optional_bytes(content_encoding), content_length, limit as nat) {
                Some(code) => r is Err && r->Err_0@ == code,
                None => r is Ok && r->Ok_0.limit() == limit && r->Ok_0.bytes() == Seq::<
                    u8,
                >::empty(),
            },
    {
        if let Some(encoding) = content_encoding {
            if !text::bytes_eq(encoding, "identity".as_bytes()) {
                return Err("compressed_upstream_unsupported");
            }
        }
        if let Some(length) = content_length {
            if length > limit as u64 {
                return Err("upstream_too_large");
            }
        }
        Ok(BoundedBody { limit, body: Vec::new() })
    }

    /// Takes in the next piece, unless it does not fit.
    pub fn push(&mut self, chunk: &[u8]) -> (r: Result<(), &'static str>)
        ensures
            final(self).limit() == old(self).limit(),
            r is Ok <==> old(self).bytes().len() + chunk@.len() <= old(self).limit(),
            r is Ok ==> final(self).bytes() == old(self).bytes() + chunk@,
            r matches Err(code) ==> code@ == "upstream_too_large"@ && final(self).bytes()
                == old(self).bytes(),
    {
        proof {
            use_type_invariant(&*self);
        }
        if chunk.len() > self.limit - self.body.len() {
            return Err("upstream_too_large");
        }
        let mut grown: Vec<u8> = Vec::new();
        std::mem::swap(&mut grown, &mut self.body);
        text::append_bytes(&mut grown, chunk);
        self.body = grown;
        Ok(())
    }

    /// The whole body.
    pub fn finish(self) -> (r: Vec<u8>)
        ensures
            r@ == self.bytes(),
            r@.len() <= self.limit(),
    {
        proof {
            use_type_invariant(&self);
        }
        self.body
    }
}

/// The body after some pieces, if all of them fit.
pub open spec fn body_after(limit: nat, chunks: Seq<Seq<u8>>) -> Option<Seq<u8>>
    decreases chunks.len(),
{
    if chunks.len() == 0 {
        Some(Seq::empty())
    } else {
        match body_after(limit, chunks.drop_last()) {
            None => None,
            Some(body) => if body.len() + chunks.last().len() <= limit {
                Some(body + chunks.last())
            } else {
                None
            },
        }
    }
}

/// A body is read in full exactly when its pieces together fit the limit,
/// however it is cut into pieces.
pub proof fn law_body_is_read_iff_it_fits(limit: nat, chunks: Seq<Seq<u8>>)
    ensures
        body_after(limit, chunks) == if chunks.flatten().len() <= limit {
            Some(chunks.flatten())
        } else {
            None
        },
    decreases chunks.len(),
{
    if chunks.len() > 0 {
        law_body_is_read_iff_it_fits(limit, chunks.drop_last());
        chunks.lemma_flatten_and_flatten_alt_are_equivalent();
        chunks.drop_last().lemma_flatten_and_flatten_alt_are_equivalent();
    }
}

} // verus!
