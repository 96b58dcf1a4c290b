//! What the models of values say of them: every field, as it is.

use vstd::prelude::*;

use crate::crypto::Uuid;
use crate::envelope::Envelope;
use crate::gateway::{ProviderChatCompletionRequest, ProviderChatCompletionResult};
use crate::json::{members, trees, Json, JsonTree};
use crate::manager::{info_views, SessionInfo};
use crate::memory_store::{doc_views, Doc, TermHits};
use crate::redaction::{entry_views, RedactionEntry, RedactionState};
use crate::replay::SwapRequest;
use crate::session::{memory_views, EncryptedSession, MemoryItem, Session};
use crate::text::{pair_views, views};
use crate::types::{
    message_views, ChatMessage, ErrorResponse, InferenceRequest, InferenceResponse,
};
use crate::zk::ZkTicket;

verus! {

/// The model of a JSON value says what it is, down to its members and elements.
pub proof fn law_json_model_says_all(
    b: bool,
    n: serde_json::Number,
    s: String,
    list: Vec<Json>,
    fields: Vec<(String, Json)>,
    i: int,
)
    ensures
        Json::Null.tree() == JsonTree::Null,
        Json::Bool(b).tree() == JsonTree::Bool(b),
        Json::Number(n).tree() == JsonTree::Number(n),
        Json::Text(s).tree() == JsonTree::Text(s@),
        trees(list@).len() == list@.len(),
        0 <= i < list@.len() ==> trees(list@)[i] == list@[i].tree(),
        Json::List(list).tree() == JsonTree::List(trees(list@)),
        members(fields@).len() == fields@.len(),
        0 <= i < fields@.len() ==> members(fields@)[i] == (fields@[i].0@, fields@[i].1.tree()),
        Json::Fields(fields).tree() == JsonTree::Fields(members(fields@)),
{
    crate::json::law_list_tree(list);
    crate::json::law_fields_tree(fields);
}

/// The models of lists have an element for each element, in order.
pub proof fn law_list_models_say_all(
    texts: Seq<String>,
    pairs: Seq<(String, String)>,
    messages: Seq<ChatMessage>,
    docs: Seq<Doc>,
    items: Seq<MemoryItem>,
    entries: Seq<RedactionEntry>,
    infos: Seq<SessionInfo>,
    i: int,
)
    ensures
        views(texts).len() == texts.len(),
        0 <= i < texts.len() ==> views(texts)[i] == texts[i]@,
        pair_views(pairs).len() == pairs.len(),
        0 <= i < pairs.len() ==> pair_views(pairs)[i] == (pairs[i].0@, pairs[i].1@),
        message_views(messages).len() == messages.len(),
        0 <= i < messages.len() ==> message_views(messages)[i] == messages[i]@,
        doc_views(docs).len() == docs.len(),
        0 <= i < docs.len() ==> doc_views(docs)[i] == docs[i]@,
        memory_views(items).len() == items.len(),
        0 <= i < items.len() ==> memory_views(items)[i] == items[i]@,
        entry_views(entries).len() == entries.len(),
        0 <= i < entries.len() ==> entry_views(entries)[i] == entries[i]@,
        info_views(infos).len() == infos.len(),
        0 <= i < infos.len() ==> info_views(infos)[i] == infos[i]@,
{
}

/// The model of a message says its role, its content and its further members.
pub proof fn law_message_model_says_all(m: ChatMessage)
    ensures
        m@.role == m.role@,
        m@.content == m.content@,
        m@.extra == members(m.extra@),
{
}

/// The model of a ticket says what it is bound to, its nullifier, its class and its
/// proof.
pub proof fn law_ticket_model_says_all(t: ZkTicket)
    ensures
        t@.commitment_root == t.commitment_root.0@,
        t@.nullifier == t.nullifier.0@,
        t@.token_class == t.token_class,
        t@.proof == t.proof.0@,
{
}

/// The model of a request says all that it holds.
pub proof fn law_request_model_says_all(req: InferenceRequest)
    ensures
        req@.request_id == req.request_id.bytes@,
        req@.model == req.model@,
        req@.messages == message_views(req.messages@),
        req@.max_tokens == req.max_tokens,
        req@.temperature == req.temperature,
        req@.stream == req.stream,
        req@.token_class == req.token_class,
        req@.ticket == req.ticket@,
        req@.provider_options == members(req.provider_options@),
{
}

/// The models of answers say all that they hold.
pub proof fn law_answer_models_say_all(r: InferenceResponse, e: ErrorResponse, id: Uuid, body: Json)
    ensures
        r@.request_id == r.request_id.bytes@,
        r@.model == r.model@,
        r@.output == r.output@,
        r@.billed_token_class == r.billed_token_class,
        r.upstream is None ==> r@.upstream is None,
        r.upstream == Some(body) ==> r@.upstream == Some(body.tree()),
        e@.code == e.code@,
        e@.message == e.message@,
        e.request_id is None ==> e@.request_id is None,
        e.request_id == Some(id) ==> e@.request_id == Some(id.bytes@),
{
}

/// The models of what goes to the provider and of what comes back say all of it.
pub proof fn law_provider_models_say_all(
    sent: ProviderChatCompletionRequest,
    got: ProviderChatCompletionResult,
)
    ensures
        sent@.model == sent.model@,
        sent@.messages == message_views(sent.messages@),
        sent@.max_tokens == sent.max_tokens,
        sent@.temperature == sent.temperature,
        sent@.stream == sent.stream,
        sent@.extra == members(sent.extra@),
        got@.body == got.body.tree(),
        got@.output == got.output@,
{
}

/// The model of an envelope says all that it shows.
pub proof fn law_envelope_model_says_all(env: Envelope)
    ensures
        env@.version == env.version,
        env@.token_class == env.token_class,
        env@.kem_pub_b64 == env.kem_pub_b64@,
        env@.nonce_b64 == env.nonce_b64@,
        env@.ciphertext_b64 == env.ciphertext_b64@,
{
}

/// The model of a request to the replay store says its key, what is expected and what
/// is to be written.
pub proof fn law_swap_model_says_all(request: SwapRequest, expected: Vec<u8>)
    ensures
        request@.key == request.key@,
        request@.new == request.new@,
        request.expected is None ==> request@.expected is None,
        request.expected == Some(expected) ==> request@.expected == Some(expected@),
{
}

/// The models of documents and of hits say all that they hold.
pub proof fn law_document_model_says_all(doc: Doc, role: String, found: TermHits, i: int)
    ensures
        doc@.kind == doc.kind,
        doc@.id == doc.id@,
        doc@.created_at_ms == doc.created_at_ms,
        doc.role is None ==> doc@.role is None,
        doc.role == Some(role) ==> doc@.role == Some(role@),
        doc@.msg_index == doc.msg_index,
        doc@.text == doc.text@,
        doc@.tags == views(doc.tags@),
        found@.df == found.df,
        found@.hits.len() == found.hits@.len(),
        0 <= i < found.hits@.len() ==> found@.hits[i] == (
            found.hits@[i].doc as nat,
            found.hits@[i].tf as nat,
            found.hits@[i].doc_len as nat,
        ),
{
}

/// The models of a session and of what it holds say all of it.
pub proof fn law_session_model_says_all(
    session: Session,
    item: MemoryItem,
    state: RedactionState,
    entry: RedactionEntry,
    sealed: EncryptedSession,
)
    ensures
        session@.version == session.version,
        session@.created_at_ms == session.created_at_ms,
        session@.system_prompt == session.system_prompt@,
        session@.messages == message_views(session.messages@),
        session@.memory == memory_views(session.memory@),
        session@.summary == session.summary@,
        session@.redaction == session.redaction@,
        item@.id == item.id.bytes@,
        item@.created_at_ms == item.created_at_ms,
        item@.text == item.text@,
        item@.tags == views(item.tags@),
        state@.salt_b64 == state.salt_b64@,
        state@.entries == entry_views(state.entries@),
        state@.custom_terms == views(state.custom_terms@),
        entry@.placeholder == entry.placeholder@,
        entry@.original == entry.original@,
        entry@.kind == entry.kind,
        sealed@.enc_version == sealed.enc_version,
        sealed@.salt_b64 == sealed.salt_b64@,
        sealed@.nonce_b64 == sealed.nonce_b64@,
        sealed@.ciphertext_b64 == sealed.ciphertext_b64@,
{
}

/// The model of the information about a session says all of it.
pub proof fn law_info_model_says_all(info: SessionInfo)
    ensures
        info@.session_id == info.session_id@,
        info@.path == info.path@,
        info@.exists_on_disk == info.exists_on_disk,
{
}

} // verus!
