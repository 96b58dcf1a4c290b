//! What travels inside the encrypted envelopes.

use vstd::prelude::*;
use vstd::string::*;
use vstd::utf8::encode_utf8;

use crate::bytes;
use crate::bytes::be_bytes;
use crate::crypto;
use crate::crypto::{sha256_digest, uuid_notation, Uuid};
use crate::json;
use crate::json::{
    canonical, json_text, member, members, unsigned_number, Json, JsonTree,
};
use crate::text;
use crate::token::TokenClass;
use crate::zk::{TicketView, ZkTicket};

verus! {

/// A minimal OpenAI-compatible chat message.
pub struct ChatMessage {
    pub role: String,
    pub content: String,
    /// Further members of the message.
    pub extra: Vec<(String, Json)>,
}

/// What a message holds.
#[verifier::ext_equal]
pub struct MessageView {
    pub role: Seq<char>,
    pub content: Seq<char>,
    pub extra: Seq<(Seq<char>, JsonTree)>,
}

impl View for ChatMessage {
    type V = MessageView;

    open spec fn view(&self) -> MessageView {
        MessageView { role: self.role@, content: self.content@, extra: members(self.extra@) }
    }
}

impl Clone for ChatMessage {
    fn clone(&self) -> (r: Self)
        ensures
            r@ == self@,
    {
        ChatMessage {
            role: self.role.clone(),
            content: self.content.clone(),
            extra: json::copy_fields(&self.extra),
        }
    }
}

/// What some messages hold.
pub open spec fn message_views(messages: Seq<ChatMessage>) -> Seq<MessageView> {
    Seq::new(messages.len(), |i: int| messages[i]@)
}

/// A copy of some messages.
pub fn copy_messages(messages: &Vec<ChatMessage>) -> (r: Vec<ChatMessage>)
    ensures
        message_views(r@) == message_views(messages@),
{
    let mut out: Vec<ChatMessage> = Vec::new();
    let mut i: usize = 0;
    while i < messages.len()
        invariant
            i <= messages@.len(),
            out@.len() == i,
            forall|k: int| 0 <= k < i ==> (#[trigger] out@[k])@ == messages@[k]@,
        decreases messages@.len() - i,
    {
        out.push(messages[i].clone());
        i += 1;
    }
    proof {
        assert(message_views(out@) =~= message_views(messages@));
    }
    out
}

/// A message with nothing but a role and a content.
pub open spec fn plain_view(role: Seq<char>, content: Seq<char>) -> MessageView {
    MessageView { role, content, extra: Seq::empty() }
}

/// A message with nothing but a role and a content.
pub fn plain_message(role: &str, content: String) -> (r: ChatMessage)
    ensures
        r@ == plain_view(role@, content@),
{
    let r = ChatMessage { role: String::from_str(role), content, extra: Vec::new() };
    proof {
        assert(members(r.extra@) =~= Seq::empty());
    }
    r
}

/// The JSON of a message: the role, the content and the further members, which
/// replace the first two where they bear the same name.
pub open spec fn message_tree(m: MessageView) -> JsonTree {
    JsonTree::Fields(
        seq![("role"@, JsonTree::Text(m.role)), ("content"@, JsonTree::Text(m.content))] + m.extra,
    )
}

/// The JSON of some messages.
pub open spec fn messages_tree(messages: Seq<MessageView>) -> JsonTree {
    JsonTree::List(Seq::new(messages.len(), |i: int| message_tree(messages[i])))
}

fn message_json(m: &ChatMessage) -> (r: Json)
    ensures
        r.tree() == message_tree(m@),
{
    let mut fields: Vec<(String, Json)> = vec![
        (String::from_str("role"), Json::Text(m.role.clone())),
        (String::from_str("content"), Json::Text(m.content.clone())),
    ];
    let mut extra = json::copy_fields(&m.extra);
    let ghost head = fields@;
    let ghost tail = extra@;
    fields.append(&mut extra);
    proof {
        json::law_fields_tree(fields);
        assert(fields@ == head + tail);
        assert(members(tail) == members(m.extra@));
        assert(members(fields@) =~= members(head) + members(tail));
        assert(members(head) =~= seq![
            ("role"@, JsonTree::Text(m.role@)),
            ("content"@, JsonTree::Text(m.content@)),
        ]);
    }
    Json::Fields(fields)
}

/// The JSON of some messages.
pub fn messages_json(messages: &Vec<ChatMessage>) -> (r: Json)
    ensures
        r.tree() == messages_tree(message_views(messages@)),
{
    let mut out: Vec<Json> = Vec::new();
    let mut i: usize = 0;
    while i < messages.len()
        invariant
            i <= messages@.len(),
            out@.len() == i,
            forall|k: int| 0 <= k < i ==> (#[trigger] out@[k]).tree() == message_tree(messages@[k]@),
        decreases messages@.len() - i,
    {
        out.push(message_json(&messages[i]));
        i += 1;
    }
    proof {
        json::law_list_tree(out);
        assert(json::trees(out@) =~= messages_tree(message_views(messages@))->List_0);
    }
    Json::List(out)
}

/// What a member takes beside others that an object holds: what an object of it
/// alone takes, with one comma in the place of the two braces.
pub open spec fn member_size(key: Seq<char>, value: Seq<char>) -> nat {
    let alone = text::byte_len(
        json_text(canonical(JsonTree::Fields(seq![(key, JsonTree::Text(value))]))),
    );
    if alone > 0 {
        (alone - 1) as nat
    } else {
        0
    }
}

/// What the role and the content take that stand in a message a second time,
/// because a further member bears the same name.
pub open spec fn repeated_size(m: MessageView) -> nat {
    (if member(m.extra, "role"@) is Some {
        member_size("role"@, m.role)
    } else {
        0
    }) + (if member(m.extra, "content"@) is Some {
        member_size("content"@, m.content)
    } else {
        0
    })
}

/// What stands a second time in some messages.
pub open spec fn repeated_sizes(messages: Seq<MessageView>) -> nat
    decreases messages.len(),
{
    if messages.len() == 0 {
        0
    } else {
        repeated_sizes(messages.drop_last()) + repeated_size(messages.last())
    }
}

/// The size of the compact JSON of some messages, as far as it can be counted.
/// Every member is written: the role, the content and the further ones, also
/// where those bear the same name.
pub open spec fn prompt_size(messages: Seq<MessageView>) -> nat {
    let size = text::byte_len(json_text(canonical(messages_tree(messages)))) + repeated_sizes(
        messages,
    );
    if size > usize::MAX {
        usize::MAX as nat
    } else {
        size
    }
}

/// The size of a prompt is that of its compact JSON, where no message bears a second
/// role or content, as far as it can be counted.
pub proof fn law_prompt_size_is_that_of_its_json(messages: Seq<MessageView>)
    requires
        forall|i: int|
            0 <= i < messages.len() ==> member((#[trigger] messages[i]).extra, "role"@) is None
                && member(messages[i].extra, "content"@) is None,
    ensures
        ({
            let size = encode_utf8(json_text(canonical(messages_tree(messages)))).len();
            prompt_size(messages) == if size <= usize::MAX {
                size
            } else {
                usize::MAX as nat
            }
        }),
{
    lemma_nothing_repeated(messages);
}

/// A role or a content that stands in a message a second time counts too: as much as an
/// object of it alone takes, less one byte.
pub proof fn law_doubled_members_count(messages: Seq<MessageView>, m: MessageView)
    requires
        json_text(canonical(JsonTree::Fields(seq![("role"@, JsonTree::Text(m.role))]))).len() > 0,
        json_text(canonical(JsonTree::Fields(seq![("content"@, JsonTree::Text(m.content))]))).len()
            > 0,
    ensures
        ({
            let role = encode_utf8(
                json_text(canonical(JsonTree::Fields(seq![("role"@, JsonTree::Text(m.role))]))),
            ).len() - 1;
            let content = encode_utf8(
                json_text(
                    canonical(JsonTree::Fields(seq![("content"@, JsonTree::Text(m.content))])),
                ),
            ).len() - 1;
            repeated_sizes(messages.push(m)) == repeated_sizes(messages) + (if member(
                m.extra,
                "role"@,
            ) is Some {
                role
            } else {
                0
            }) + (if member(m.extra, "content"@) is Some {
                content
            } else {
                0
            })
        }),
{
    assert(messages.push(m).drop_last() =~= messages);
    text::lemma_byte_len_zero(
        json_text(canonical(JsonTree::Fields(seq![("role"@, JsonTree::Text(m.role))]))),
    );
    text::lemma_byte_len_zero(
        json_text(canonical(JsonTree::Fields(seq![("content"@, JsonTree::Text(m.content))]))),
    );
}

proof fn lemma_nothing_repeated(messages: Seq<MessageView>)
    requires
        forall|i: int|
            0 <= i < messages.len() ==> member((#[trigger] messages[i]).extra, "role"@) is None
                && member(messages[i].extra, "content"@) is None,
    ensures
        repeated_sizes(messages) == 0,
    decreases messages.len(),
{
    if messages.len() > 0 {
        let front = messages.drop_last();
        assert forall|i: int| 0 <= i < front.len() implies member(
            (#[trigger] front[i]).extra,
            "role"@,
        ) is None && member(front[i].extra, "content"@) is None by {
            assert(front[i] == messages[i]);
        }
        lemma_nothing_repeated(front);
        assert(member(messages[messages.len() - 1].extra, "role"@) is None);
    }
}

/// What a message says when a JSON value stands for its content: a text as it is,
/// nothing for null or for what is missing, and compact JSON for anything else.
pub proof fn law_content_is_what_the_value_says(value: JsonTree)
    ensures
        content_of(None).len() == 0,
        content_of(Some(JsonTree::Null)).len() == 0,
        value matches JsonTree::Text(s) ==> content_of(Some(value)) == s,
        !(value is Text) && !(value is Null) ==> content_of(Some(value)) == json_text(
            canonical(value),
        ),
{
}

fn member_bytes(key: &str, value: &str) -> (r: usize)
    ensures
        r == member_size(key@, value@),
{
    let alone: usize = text::text_bytes(json::single(key, json::word(value)).text().as_str());
    if alone > 0 {
        alone - 1
    } else {
        0
    }
}

/// The size of the compact JSON of some messages, in bytes.
pub fn approx_prompt_bytes(messages: &Vec<ChatMessage>) -> (r: usize)
    ensures
        r == prompt_size(message_views(messages@)),
{
    let ghost all = message_views(messages@);
    let ghost base = text::byte_len(json_text(canonical(messages_tree(all))));
    let mut size: usize = text::text_bytes(messages_json(messages).text().as_str());
    let mut i: usize = 0;
    proof {
        assert(all.take(0) =~= Seq::empty());
    }
    while i < messages.len()
        invariant
            i <= messages@.len(),
            all == message_views(messages@),
            size == if base + repeated_sizes(all.take(i as int)) > usize::MAX {
                usize::MAX as nat
            } else {
                base + repeated_sizes(all.take(i as int))
            },
        decreases messages@.len() - i,
    {
        let m = &messages[i];
        let role: usize = if json::find_field(&m.extra, "role").is_some() {
            member_bytes("role", m.role.as_str())
        } else {
            0
        };
        let content: usize = if json::find_field(&m.extra, "content").is_some() {
            member_bytes("content", m.content.as_str())
        } else {
            0
        };
        proof {
            assert(all.take(i + 1).drop_last() =~= all.take(i as int));
            assert(all.take(i + 1).last() == m@);
        }
        size = size.saturating_add(role).saturating_add(content);
        i += 1;
    }
    proof {
        assert(all.take(all.len() as int) =~= all);
    }
    size
}

/// The content that a message has when the JSON member reads so.
pub open spec fn content_of(value: Option<JsonTree>) -> Seq<char> {
    match value {
        None => Seq::empty(),
        Some(JsonTree::Null) => Seq::empty(),
        Some(JsonTree::Text(s)) => s,
        Some(other) => json_text(canonical(other)),
    }
}

/// The text content that a JSON value stands for: nothing for null, a text for
/// itself, compact JSON for all else.
pub fn chat_message_content(value: Option<&Json>) -> (r: String)
    ensures
        r@ == content_of(
            match value {
                Some(json) => Some(json.tree()),
                None => None,
            },
        ),
{
    proof {
        reveal_strlit("");
        assert(""@ =~= Seq::empty());
    }
    match value {
        None => String::from_str(""),
        Some(Json::Null) => String::from_str(""),
        Some(Json::Text(s)) => s.clone(),
        Some(other) => other.text(),
    }
}

/// Request payload that is sent inside the encrypted envelope.
///
/// The gateway does not persist it, and the client keeps long-term memory to
/// itself and sends no more context than the task needs.
pub struct InferenceRequest {
    /// Client-generated request id.
    pub request_id: Uuid,
    /// Model identifier (OpenAI-compatible) to route.
    pub model: String,
    /// Chat messages to send to the model.
    pub messages: Vec<ChatMessage>,
    /// Requested max completion tokens. The gateway goes by the class instead.
    pub max_tokens: Option<u32>,
    /// Sampling temperature.
    pub temperature: Option<serde_json::Number>,
    /// Streaming is not offered: `true` is refused.
    pub stream: Option<bool>,
    /// The privacy and billing bucket of the request.
    pub token_class: TokenClass,
    /// Anonymous usage authorization.
    pub ticket: ZkTicket,
    /// Further OpenAI-compatible members that go to the upstream provider.
    pub provider_options: Vec<(String, Json)>,
}

/// What a request holds.
pub struct RequestView {
    pub request_id: Seq<u8>,
    pub model: Seq<char>,
    pub messages: Seq<MessageView>,
    pub max_tokens: Option<u32>,
    pub temperature: Option<serde_json::Number>,
    pub stream: Option<bool>,
    pub token_class: TokenClass,
    pub ticket: TicketView,
    pub provider_options: Seq<(Seq<char>, JsonTree)>,
}

impl View for InferenceRequest {
    type V = RequestView;

    open spec fn view(&self) -> RequestView {
        RequestView {
            request_id: self.request_id.bytes@,
            model: self.model@,
            messages: message_views(self.messages@),
            max_tokens: self.max_tokens,
            temperature: self.temperature,
            stream: self.stream,
            token_class: self.token_class,
            ticket: self.ticket@,
            provider_options: members(self.provider_options@),
        }
    }
}

/// The members that an authorization binds to. The ticket is not among them,
/// since it holds the commitment.
pub open spec fn committed_members(req: RequestView) -> Seq<(Seq<char>, JsonTree)> {
    seq![
        ("request_id"@, JsonTree::Text(uuid_notation(req.request_id))),
        ("model"@, JsonTree::Text(req.model)),
        ("messages"@, messages_tree(req.messages)),
        (
            "max_tokens"@,
            match req.max_tokens {
                Some(n) => JsonTree::Number(unsigned_number(n as u64)),
                None => JsonTree::Null,
            },
        ),
        (
            "temperature"@,
            match req.temperature {
                Some(n) => JsonTree::Number(n),
                None => JsonTree::Null,
            },
        ),
        (
            "stream"@,
            match req.stream {
                Some(b) => JsonTree::Bool(b),
                None => JsonTree::Null,
            },
        ),
        ("token_class"@, JsonTree::Text(req.token_class.name())),
        ("provider_options"@, JsonTree::Fields(req.provider_options)),
    ]
}

/// The compact canonical JSON of what an authorization binds to.
pub open spec fn committed_text(req: RequestView) -> Seq<char> {
    json_text(canonical(JsonTree::Fields(committed_members(req))))
}

/// The bytes that are hashed into a commitment: a domain label, the length of
/// the JSON and the JSON.
pub open spec fn commitment_input(req: RequestView) -> Seq<u8> {
    let encoded = encode_utf8(committed_text(req));
    encode_utf8("ZEROK-ACTUM-INFERENCE-AUTHORIZATION-V1\0"@) + be_bytes(encoded.len(), 8) + encoded
}

/// The commitment of a request.
pub open spec fn request_commitment(req: RequestView) -> Seq<u8> {
    sha256_digest(commitment_input(req))
}

fn optional_number(n: &Option<serde_json::Number>) -> (r: Json)
    ensures
        r.tree() == match *n {
            Some(x) => JsonTree::Number(x),
            None => JsonTree::Null,
        },
{
    match n {
        Some(x) => Json::Number(json::copy_number(x)),
        None => Json::Null,
    }
}

impl InferenceRequest {
    fn committed_json(&self) -> (r: Json)
        ensures
            r.tree() == JsonTree::Fields(committed_members(self@)),
    {
        let options = json::copy_fields(&self.provider_options);
        proof {
            json::law_fields_tree(options);
        }
        let fields: Vec<(String, Json)> = vec![
            (String::from_str("request_id"), Json::Text(self.request_id.text())),
            (String::from_str("model"), Json::Text(self.model.clone())),
            (String::from_str("messages"), messages_json(&self.messages)),
            (
                String::from_str("max_tokens"),
                match self.max_tokens {
                    Some(n) => json::unsigned(n as u64),
                    None => Json::Null,
                },
            ),
            (String::from_str("temperature"), optional_number(&self.temperature)),
            (
                String::from_str("stream"),
                match self.stream {
                    Some(b) => Json::Bool(b),
                    None => Json::Null,
                },
            ),
            (
                String::from_str("token_class"),
                Json::Text(String::from_str(self.token_class.wire_name())),
            ),
            (String::from_str("provider_options"), Json::Fields(options)),
        ];
        proof {
            json::law_fields_tree(fields);
            assert(members(fields@) =~= committed_members(self@));
        }
        Json::Fields(fields)
    }

    /// Computes the stable, domain-separated commitment that an authorization
    /// binds to.
    ///
    /// The ticket does not enter it, which would be circular. Objects are
    /// sorted at every depth, so that the order in which a client gives members
    /// does not matter.
    pub fn authorization_commitment(&self) -> (r: Result<Vec<u8>, serde_json::Error>)
        ensures
            r is Ok,
            r->Ok_0@ == request_commitment(self@),
            r->Ok_0@.len() == 32,
    {
        let encoded = self.committed_json().text();
        let encoded_bytes = encoded.as_str().as_bytes();
        let mut input = text::copy_bytes(
            "ZEROK-ACTUM-INFERENCE-AUTHORIZATION-V1\0".as_bytes(),
        );
        let len = bytes::u64_to_be(encoded_bytes.len() as u64);
        text::append_bytes(&mut input, len.as_slice());
        text::append_bytes(&mut input, encoded_bytes);
        proof {
            assert(input@ =~= commitment_input(self@));
        }
        Ok(crypto::sha256_bytes(input.as_slice()))
    }
}

/// Whether two lists of members give every key the same value, whatever their
/// order.
pub open spec fn same_members(
    f: Seq<(Seq<char>, JsonTree)>,
    g: Seq<(Seq<char>, JsonTree)>,
) -> bool {
    forall|k: Seq<char>| #[trigger] member(f, k) == member(g, k)
}

/// Whether two requests differ in their tickets and in the order of members
/// alone.
pub open spec fn same_but_for_order(a: RequestView, b: RequestView) -> bool {
    &&& a.request_id == b.request_id
    &&& a.model == b.model
    &&& a.messages.len() == b.messages.len()
    &&& forall|i: int|
        0 <= i < a.messages.len() ==> {
            &&& (#[trigger] a.messages[i]).role == b.messages[i].role
            &&& a.messages[i].content == b.messages[i].content
            &&& same_members(a.messages[i].extra, b.messages[i].extra)
        }
    &&& a.max_tokens == b.max_tokens
    &&& a.temperature == b.temperature
    &&& a.stream == b.stream
    &&& a.token_class == b.token_class
    &&& same_members(a.provider_options, b.provider_options)
}

/// A commitment depends neither on the ticket nor on the order in which members
/// are given.
pub proof fn law_commitment_ignores_order_and_ticket(a: RequestView, b: RequestView)
    requires
        same_but_for_order(a, b),
    ensures
        request_commitment(a) == request_commitment(b),
{
    let v = messages_tree(a.messages)->List_0;
    let w = messages_tree(b.messages)->List_0;
    assert forall|i: int| 0 <= i < v.len() implies canonical(#[trigger] v[i]) == canonical(
        w[i],
    ) by {
        let m = a.messages[i];
        let n = b.messages[i];
        let head = seq![
            ("role"@, JsonTree::Text(m.role)),
            ("content"@, JsonTree::Text(m.content)),
        ];
        assert(v[i] == JsonTree::Fields(head + m.extra));
        assert(w[i] == JsonTree::Fields(head + n.extra));
        assert forall|k: Seq<char>| #[trigger] member(head + m.extra, k) == member(
            head + n.extra,
            k,
        ) by {
            json::law_later_members_prevail(head, m.extra, k);
            json::law_later_members_prevail(head, n.extra, k);
            assert(member(m.extra, k) == member(n.extra, k));
        }
        json::law_canonical_depends_on_members(head + m.extra, head + n.extra);
    }
    json::law_canonical_list_pointwise(v, w);
    json::law_canonical_depends_on_members(a.provider_options, b.provider_options);
    json::law_canonical_fields_pointwise(committed_members(a), committed_members(b));
}

/// Whether a message has no further member that bears the name of its role or of its
/// content, as no admitted message has.
pub open spec fn is_unambiguous(m: MessageView) -> bool {
    member(m.extra, "role"@) is None && member(m.extra, "content"@) is None
}

proof fn lemma_message_members(m: MessageView, key: Seq<char>)
    ensures
        message_tree(m) is Fields,
        is_unambiguous(m) ==> member(message_tree(m)->Fields_0, "role"@) == Some(
            JsonTree::Text(m.role),
        ),
        is_unambiguous(m) ==> member(message_tree(m)->Fields_0, "content"@) == Some(
            JsonTree::Text(m.content),
        ),
        key != "role"@ && key != "content"@ ==> member(message_tree(m)->Fields_0, key) == member(
            m.extra,
            key,
        ),
{
    let head = seq![("role"@, JsonTree::Text(m.role)), ("content"@, JsonTree::Text(m.content))];
    reveal_strlit("role");
    reveal_strlit("content");
    assert("role"@.len() == 4);
    assert("content"@.len() == 7);
    json::law_later_members_prevail(head, m.extra, "role"@);
    json::law_later_members_prevail(head, m.extra, "content"@);
    json::law_later_members_prevail(head, m.extra, key);
    json::law_last_member_counts(head, 0, "role"@);
    json::law_last_member_counts(head, 1, "content"@);
    json::law_last_member_counts(head, 0, key);
    assert(head[0].0 == "role"@ && head[1].0 == "content"@);
}

/// The JSON of messages is a list with one element for each message, in order. Each
/// element says the role, the content and every further member of its message.
pub proof fn law_messages_are_written_in_full(messages: Seq<MessageView>, i: int, key: Seq<char>)
    requires
        0 <= i < messages.len(),
        is_unambiguous(messages[i]),
    ensures
        messages_tree(messages) is List,
        messages_tree(messages)->List_0.len() == messages.len(),
        messages_tree(messages)->List_0[i] is Fields,
        ({
            let written = messages_tree(messages)->List_0[i]->Fields_0;
            &&& member(written, "role"@) == Some(JsonTree::Text(messages[i].role))
            &&& member(written, "content"@) == Some(JsonTree::Text(messages[i].content))
            &&& key != "role"@ && key != "content"@ ==> member(written, key) == member(
                messages[i].extra,
                key,
            )
        }),
{
    lemma_message_members(messages[i], key);
}

proof fn lemma_committed_names()
    ensures
        "request_id"@.len() == 10,
        "model"@.len() == 5,
        "messages"@.len() == 8,
        "max_tokens"@.len() == 10,
        "max_tokens"@[0] == 'm',
        "request_id"@[0] == 'r',
        "temperature"@.len() == 11,
        "temperature"@[2] == 'm',
        "token_class"@.len() == 11,
        "token_class"@[2] == 'k',
        "stream"@.len() == 6,
        "provider_options"@.len() == 16,
{
    reveal_strlit("request_id");
    reveal_strlit("model");
    reveal_strlit("messages");
    reveal_strlit("max_tokens");
    reveal_strlit("temperature");
    reveal_strlit("stream");
    reveal_strlit("token_class");
    reveal_strlit("provider_options");
}

/// An authorization binds to all of a request but its ticket: the identifier, the
/// model, a list of all messages, the limits, the class and the further options,
/// each under its own name, and to nothing else.
#[verifier::spinoff_prover]
#[verifier::rlimit(40)]
pub proof fn law_committed_json_says_all(req: RequestView, key: Seq<char>)
    ensures
        ({
            let f = committed_members(req);
            &&& member(f, "request_id"@) == Some(JsonTree::Text(uuid_notation(req.request_id)))
            &&& member(f, "model"@) == Some(JsonTree::Text(req.model))
            &&& member(f, "messages"@) is Some
            &&& member(f, "messages"@)->0 is List
            &&& member(f, "messages"@)->0->List_0.len() == req.messages.len()
            &&& forall|i: int|
                0 <= i < req.messages.len() ==> (#[trigger] member(f, "messages"@)->0->List_0[i])
                    is Fields
            &&& forall|i: int, k: Seq<char>|
                0 <= i < req.messages.len() && k != "role"@ && k != "content"@ ==> #[trigger] member(
                    member(f, "messages"@)->0->List_0[i]->Fields_0,
                    k,
                ) == member(req.messages[i].extra, k)
            &&& forall|i: int|
                0 <= i < req.messages.len() && is_unambiguous(#[trigger] req.messages[i]) ==> {
                    let written = member(f, "messages"@)->0->List_0[i]->Fields_0;
                    &&& member(written, "role"@) == Some(JsonTree::Text(req.messages[i].role))
                    &&& member(written, "content"@) == Some(
                        JsonTree::Text(req.messages[i].content),
                    )
                }
            &&& member(f, "max_tokens"@) == Some(
                match req.max_tokens {
                    Some(n) => JsonTree::Number(unsigned_number(n as u64)),
                    None => JsonTree::Null,
                },
            )
            &&& member(f, "temperature"@) == Some(
                match req.temperature {
                    Some(n) => JsonTree::Number(n),
                    None => JsonTree::Null,
                },
            )
            &&& member(f, "stream"@) == Some(
                match req.stream {
                    Some(b) => JsonTree::Bool(b),
                    None => JsonTree::Null,
                },
            )
            &&& member(f, "token_class"@) == Some(JsonTree::Text(req.token_class.name()))
            &&& member(f, "provider_options"@) == Some(JsonTree::Fields(req.provider_options))
            &&& member(f, key) is Some ==> key == "request_id"@ || key == "model"@ || key
                == "messages"@ || key == "max_tokens"@ || key == "temperature"@ || key == "stream"@
                || key == "token_class"@ || key == "provider_options"@
        }),
{
    let f = committed_members(req);
    lemma_committed_names();
    assert(f.len() == 8);
    json::law_last_member_counts(f, 0, "request_id"@);
    json::law_last_member_counts(f, 1, "model"@);
    json::law_last_member_counts(f, 2, "messages"@);
    json::law_last_member_counts(f, 3, "max_tokens"@);
    json::law_last_member_counts(f, 4, "temperature"@);
    json::law_last_member_counts(f, 5, "stream"@);
    json::law_last_member_counts(f, 6, "token_class"@);
    json::law_last_member_counts(f, 7, "provider_options"@);
    json::law_last_member_counts(f, 0, key);
    assert(f[0].0 == "request_id"@ && f[1].0 == "model"@ && f[2].0 == "messages"@ && f[3].0
        == "max_tokens"@ && f[4].0 == "temperature"@ && f[5].0 == "stream"@ && f[6].0
        == "token_class"@ && f[7].0 == "provider_options"@);
    let list = messages_tree(req.messages)->List_0;
    assert(member(f, "messages"@) == Some(messages_tree(req.messages)));
    assert forall|i: int, k: Seq<char>|
        0 <= i < req.messages.len() && k != "role"@ && k != "content"@ implies #[trigger] member(
        list[i]->Fields_0,
        k,
    ) == member(req.messages[i].extra, k) by {
        lemma_message_members(req.messages[i], k);
    }
    assert forall|i: int|
        0 <= i < req.messages.len() && is_unambiguous(#[trigger] req.messages[i]) implies {
        let written = list[i]->Fields_0;
        &&& member(written, "role"@) == Some(JsonTree::Text(req.messages[i].role))
        &&& member(written, "content"@) == Some(JsonTree::Text(req.messages[i].content))
    } by {
        lemma_message_members(req.messages[i], key);
    }
}

/// Whether two lists of members say the same for every key, but for the order in
/// which objects hold their members.
pub open spec fn say_the_same(
    f: Seq<(Seq<char>, JsonTree)>,
    g: Seq<(Seq<char>, JsonTree)>,
) -> bool {
    forall|k: Seq<char>|
        match (#[trigger] member(f, k), member(g, k)) {
            (Some(x), Some(y)) => canonical(x) == canonical(y),
            (None, None) => true,
            _ => false,
        }
}

/// Whether JSON texts tell apart what they are written from: two values whose
/// objects are in order and that are written alike are the same, and so are two
/// numbers.
pub open spec fn writing_is_faithful() -> bool {
    &&& forall|s: JsonTree, t: JsonTree|
        json::ordered(s) && json::ordered(t) && #[trigger] json_text(s) == #[trigger] json_text(t)
            ==> s == t
    &&& forall|m: u64, n: u64| #[trigger] unsigned_number(m) == #[trigger] unsigned_number(n)
        ==> m == n
}

proof fn lemma_same_member(
    f: Seq<(Seq<char>, JsonTree)>,
    g: Seq<(Seq<char>, JsonTree)>,
    key: Seq<char>,
)
    requires
        canonical(JsonTree::Fields(f)) == canonical(JsonTree::Fields(g)),
    ensures
        match (member(f, key), member(g, key)) {
            (Some(x), Some(y)) => canonical(x) == canonical(y),
            (None, None) => true,
            _ => false,
        },
{
    json::law_canonical_keeps_what_is_said(JsonTree::Fields(f), key);
    json::law_canonical_keeps_what_is_said(JsonTree::Fields(g), key);
}

proof fn lemma_notation_determines_the_id(a: Seq<u8>, b: Seq<u8>)
    requires
        a.len() == 16,
        b.len() == 16,
        uuid_notation(a) == uuid_notation(b),
    ensures
        a == b,
{
    text::law_hex_has_two_digits_for_each_byte(a, 0);
    text::law_hex_has_two_digits_for_each_byte(b, 0);
    let x = text::hex(a);
    let y = text::hex(b);
    assert forall|i: int| 0 <= i < 32 implies x[i] == y[i] by {
        let j: int = if i < 8 {
            i
        } else if i < 12 {
            i + 1
        } else if i < 16 {
            i + 2
        } else if i < 20 {
            i + 3
        } else {
            i + 4
        };
        assert(uuid_notation(a)[j] == x[i]);
        assert(uuid_notation(b)[j] == y[i]);
    }
    assert(x =~= y);
    text::law_hex_determines_the_bytes(a, b);
}

/// The committed JSON determines the request, but for its ticket and the order of
/// members. Two requests with the same committed text have the same identifier, the
/// same model, equally many messages with the same role, content and further members
/// at every position, the same limits, the same class and the same options. It is
/// presumed that JSON texts tell apart what they are written from.
#[verifier::spinoff_prover]
#[verifier::rlimit(40)]
pub proof fn law_committed_text_determines_the_request(a: RequestView, b: RequestView)
    requires
        writing_is_faithful(),
        committed_text(a) == committed_text(b),
        a.request_id.len() == 16,
        b.request_id.len() == 16,
        forall|i: int| 0 <= i < a.messages.len() ==> is_unambiguous(#[trigger] a.messages[i]),
        forall|i: int| 0 <= i < b.messages.len() ==> is_unambiguous(#[trigger] b.messages[i]),
    ensures
        a.request_id == b.request_id,
        a.model == b.model,
        a.messages.len() == b.messages.len(),
        forall|i: int|
            0 <= i < a.messages.len() ==> (#[trigger] a.messages[i]).role == b.messages[i].role
                && a.messages[i].content == b.messages[i].content && say_the_same(
                a.messages[i].extra,
                b.messages[i].extra,
            ),
        a.max_tokens == b.max_tokens,
        a.temperature == b.temperature,
        a.stream == b.stream,
        a.token_class == b.token_class,
        say_the_same(a.provider_options, b.provider_options),
{
    let f = committed_members(a);
    let g = committed_members(b);
    json::law_canonical_is_ordered(JsonTree::Fields(f));
    json::law_canonical_is_ordered(JsonTree::Fields(g));
    assert(canonical(JsonTree::Fields(f)) == canonical(JsonTree::Fields(g)));
    let none = Seq::<char>::empty();
    law_committed_json_says_all(a, none);
    law_committed_json_says_all(b, none);
    assert(canonical(JsonTree::Text(a.model)) == JsonTree::Text(a.model));
    lemma_same_member(f, g, "request_id"@);
    lemma_notation_determines_the_id(a.request_id, b.request_id);
    lemma_same_member(f, g, "model"@);
    lemma_same_member(f, g, "max_tokens"@);
    lemma_same_member(f, g, "temperature"@);
    lemma_same_member(f, g, "stream"@);
    lemma_same_member(f, g, "token_class"@);
    crate::token::law_name_determines_the_class(a.token_class, b.token_class);
    lemma_same_member(f, g, "provider_options"@);
    assert forall|k: Seq<char>|
        match (#[trigger] member(a.provider_options, k), member(b.provider_options, k)) {
            (Some(x), Some(y)) => canonical(x) == canonical(y),
            (None, None) => true,
            _ => false,
        } by {
        lemma_same_member(a.provider_options, b.provider_options, k);
    }
    lemma_same_member(f, g, "messages"@);
    let v = member(f, "messages"@)->0;
    let w = member(g, "messages"@)->0;
    json::law_canonical_keeps_what_is_said(v, none);
    json::law_canonical_keeps_what_is_said(w, none);
    assert forall|i: int| 0 <= i < a.messages.len() implies (#[trigger] a.messages[i]).role
        == b.messages[i].role && a.messages[i].content == b.messages[i].content && say_the_same(
        a.messages[i].extra,
        b.messages[i].extra,
    ) by {
        let x = v->List_0[i];
        let y = w->List_0[i];
        assert(canonical(v)->List_0[i] == canonical(x));
        assert(canonical(w)->List_0[i] == canonical(y));
        assert(is_unambiguous(b.messages[i]));
        assert(x is Fields && y is Fields);
        let p = x->Fields_0;
        let q = y->Fields_0;
        lemma_same_member(p, q, "role"@);
        lemma_same_member(p, q, "content"@);
        assert forall|k: Seq<char>|
            match (#[trigger] member(a.messages[i].extra, k), member(b.messages[i].extra, k)) {
                (Some(s), Some(t)) => canonical(s) == canonical(t),
                (None, None) => true,
                _ => false,
            } by {
            lemma_same_member(p, q, k);
            if k != "role"@ && k != "content"@ {
                assert(member(p, k) == member(a.messages[i].extra, k));
                assert(member(q, k) == member(b.messages[i].extra, k));
            }
        }
    }
}

/// The hashed bytes determine the request, but for its ticket and the order of
/// members, where JSON texts tell apart what they are written from.
pub proof fn law_commitment_binds_the_messages(a: RequestView, b: RequestView)
    requires
        writing_is_faithful(),
        commitment_input(a) == commitment_input(b),
        a.request_id.len() == 16,
        b.request_id.len() == 16,
        forall|i: int| 0 <= i < a.messages.len() ==> is_unambiguous(#[trigger] a.messages[i]),
        forall|i: int| 0 <= i < b.messages.len() ==> is_unambiguous(#[trigger] b.messages[i]),
    ensures
        a.request_id == b.request_id,
        a.model == b.model,
        a.messages.len() == b.messages.len(),
        forall|i: int|
            0 <= i < a.messages.len() ==> (#[trigger] a.messages[i]).role == b.messages[i].role
                && a.messages[i].content == b.messages[i].content,
        a.token_class == b.token_class,
{
    law_commitment_input_is_injective(a, b);
    law_committed_text_determines_the_request(a, b);
}

/// What is hashed begins with the label of the protocol and the length of the JSON in
/// eight bytes, most significant first, and ends with the JSON.
pub proof fn law_commitment_is_domain_separated(req: RequestView)
    ensures
        ({
            let label = encode_utf8("ZEROK-ACTUM-INFERENCE-AUTHORIZATION-V1\0"@);
            let json = encode_utf8(
                json_text(canonical(JsonTree::Fields(committed_members(req)))),
            );
            &&& request_commitment(req) == sha256_digest(commitment_input(req))
            &&& commitment_input(req) == label + be_bytes(json.len(), 8) + json
        }),
{
}

/// The hashed bytes determine the committed JSON text.
pub proof fn law_commitment_input_is_injective(a: RequestView, b: RequestView)
    requires
        commitment_input(a) == commitment_input(b),
    ensures
        committed_text(a) == committed_text(b),
{
    let label = encode_utf8("ZEROK-ACTUM-INFERENCE-AUTHORIZATION-V1\0"@);
    let x = encode_utf8(committed_text(a));
    let y = encode_utf8(committed_text(b));
    lemma_be_len(x.len(), 8);
    lemma_be_len(y.len(), 8);
    assert(x =~= commitment_input(a).skip((label.len() + 8) as int));
    assert(y =~= commitment_input(b).skip((label.len() + 8) as int));
    vstd::utf8::encode_utf8_decode_utf8(committed_text(a));
    vstd::utf8::encode_utf8_decode_utf8(committed_text(b));
}

proof fn lemma_be_len(n: nat, len: nat)
    ensures
        be_bytes(n, len).len() == len,
    decreases len,
{
    if len > 0 {
        lemma_be_len(n / 256, (len - 1) as nat);
    }
}

/// Response payload that comes back inside the encrypted envelope.
pub struct InferenceResponse {
    pub request_id: Uuid,
    pub model: String,
    /// Assistant output text.
    pub output: String,
    /// Coarse usage, which does not reveal exact token counts.
    pub billed_token_class: TokenClass,
    /// Raw upstream response body, for members that are specific to a provider.
    pub upstream: Option<Json>,
}

/// A machine-readable error response.
#[derive(Debug)]
pub struct ErrorResponse {
    pub request_id: Option<Uuid>,
    pub code: String,
    pub message: String,
}

/// The plaintext that a gateway envelope holds.
///
/// Errors travel in it too, so that a relay learns nothing of them.
pub enum GatewayEnvelopePayload {
    Success { response: InferenceResponse },
    Failure { error: ErrorResponse },
}

/// What a response holds.
pub struct ResponseView {
    pub request_id: Seq<u8>,
    pub model: Seq<char>,
    pub output: Seq<char>,
    pub billed_token_class: TokenClass,
    pub upstream: Option<JsonTree>,
}

/// What an error response holds.
pub struct ErrorView {
    pub request_id: Option<Seq<u8>>,
    pub code: Seq<char>,
    pub message: Seq<char>,
}

/// What a payload holds.
pub enum PayloadView {
    Success(ResponseView),
    Failure(ErrorView),
}

impl View for InferenceResponse {
    type V = ResponseView;

    open spec fn view(&self) -> ResponseView {
        ResponseView {
            request_id: self.request_id.bytes@,
            model: self.model@,
            output: self.output@,
            billed_token_class: self.billed_token_class,
            upstream: match self.upstream {
                Some(json) => Some(json.tree()),
                None => None,
            },
        }
    }
}

impl View for ErrorResponse {
    type V = ErrorView;

    open spec fn view(&self) -> ErrorView {
        ErrorView {
            request_id: match self.request_id {
                Some(id) => Some(id.bytes@),
                None => None,
            },
            code: self.code@,
            message: self.message@,
        }
    }
}

impl View for GatewayEnvelopePayload {
    type V = PayloadView;

    open spec fn view(&self) -> PayloadView {
        match self {
            GatewayEnvelopePayload::Success { response } => PayloadView::Success(response@),
            GatewayEnvelopePayload::Failure { error } => PayloadView::Failure(error@),
        }
    }
}

} // verus!
