//! The local agent: it owns the session, the redactor and the retrieval index,
//! composes the requests that go to the gateway and takes in the answers.
//!
//! A turn of the conversation goes: [`AgentRuntime::start_turn`], retrieval,
//! [`AgentRuntime::ask`], the exchange with the gateway,
//! [`AgentRuntime::accept`], [`AgentRuntime::summary_turn`] and
//! [`AgentRuntime::finish_turn`].

use vstd::prelude::*;
use vstd::string::*;

use crate::crypto::Uuid;
use crate::memory_store;
use crate::memory_store::{ContextPlan, MemoryStore, RetrievedContext};
use crate::prompt;
use crate::prompt::PromptBuildConfig;
use crate::redaction;
use crate::redaction::{RedactMode, RedactionView, Redactor, RedactorView};
use crate::session;
use crate::session::{MemoryItem, Session, SessionView};
use crate::text;
use crate::tickets::{outcome_view, TicketError, TicketSource};
use crate::token::TokenClass;
use crate::types;
use crate::types::{
    ChatMessage, GatewayEnvelopePayload, InferenceRequest, MessageView, RequestView,
};
use crate::zk::{B64Bytes, TicketView, ZkTicket};

verus! {

/// The local agent.
pub struct AgentRuntime {
    pub endpoint_url: String,
    pub gateway_public_bytes: [u8; 32],
    pub model: String,
    pub token_class: TokenClass,
    pub redact_mode: RedactMode,
    pub extra_terms: Vec<String>,
    pub prompt_cfg: PromptBuildConfig,
    pub session_path: String,
    pub session_key: Option<[u8; 32]>,
    pub session: Session,
    pub redactor: Redactor,
    pub memory_store: MemoryStore,
}

/// Why a turn of the conversation failed.
#[derive(Debug)]
pub enum AgentError {
    /// The prompt cannot be brought within the budget of the class.
    PromptTooLarge,
    Ticket(TicketError),
    Gateway { code: String, message: String },
}

impl AgentError {
    /// The message of the error.
    pub open spec fn spec_message(self) -> Seq<char> {
        match self {
            AgentError::PromptTooLarge => "prompt does not fit the token class"@,
            AgentError::Ticket(e) => e.spec_message(),
            AgentError::Gateway { code, message } => "gateway error: "@ + code@ + " - "@ + message@,
        }
    }

    /// The message of the error.
    pub fn message(&self) -> (r: String)
        ensures
            r@ == self.spec_message(),
    {
        match self {
            AgentError::PromptTooLarge => String::from_str("prompt does not fit the token class"),
            AgentError::Ticket(e) => String::from_str(e.message()),
            AgentError::Gateway { code, message } => {
                let mut out = String::from_str("gateway error: ");
                out.append(code.as_str());
                out.append(" - ");
                out.append(message.as_str());
                out
            },
        }
    }
}

/// A redaction state with one more term of the user, unless the term is blank
/// or known.
pub open spec fn with_term(state: RedactionView, term: Seq<char>) -> RedactionView {
    if text::trimmed(term).len() == 0 || state.custom_terms.contains(term) {
        state
    } else {
        RedactionView { custom_terms: state.custom_terms.push(term), ..state }
    }
}

/// A redaction state with more terms of the user.
pub open spec fn with_terms(state: RedactionView, terms: Seq<Seq<char>>) -> RedactionView
    decreases terms.len(),
{
    if terms.len() == 0 {
        state
    } else {
        with_term(with_terms(state, terms.drop_last()), terms.last())
    }
}

/// More terms add to those that there were, in their order: afterwards a term is among
/// them exactly if it was before, or if it is new and not blank. None stands twice
/// that did not before, and nothing else of the state changes.
#[verifier::spinoff_prover]
#[verifier::rlimit(40)]
pub proof fn law_terms_are_added_once(state: RedactionView, terms: Seq<Seq<char>>)
    ensures
        state.custom_terms.is_prefix_of(with_terms(state, terms).custom_terms),
        forall|t: Seq<char>| #[trigger]
            with_terms(state, terms).custom_terms.contains(t) <==> state.custom_terms.contains(t)
                || terms.contains(t) && text::trimmed(t).len() > 0,
        state.custom_terms.no_duplicates() ==> with_terms(
            state,
            terms,
        ).custom_terms.no_duplicates(),
        with_terms(state, terms).salt_b64 == state.salt_b64,
        with_terms(state, terms).entries == state.entries,
    decreases terms.len(),
{
    let after = with_terms(state, terms).custom_terms;
    if terms.len() == 0 {
        assert(state.custom_terms =~= after.subrange(0, state.custom_terms.len() as int));
    } else {
        let front = terms.drop_last();
        let last = terms.last();
        law_terms_are_added_once(state, front);
        let before = with_terms(state, front).custom_terms;
        assert(state.custom_terms =~= before.subrange(0, state.custom_terms.len() as int));
        assert(state.custom_terms =~= after.subrange(0, state.custom_terms.len() as int));
        assert forall|t: Seq<char>| #[trigger] after.contains(t) <==> state.custom_terms.contains(
            t,
        ) || terms.contains(t) && text::trimmed(t).len() > 0 by {
            if terms.contains(t) {
                let i = terms.index_of(t);
                if i < front.len() {
                    assert(front[i] == t);
                }
            }
            if front.contains(t) {
                let i = front.index_of(t);
                assert(terms[i] == t);
            }
            assert(terms[terms.len() - 1] == last);
            if before.contains(t) {
                let i = before.index_of(t);
                assert(after[i] == t);
            }
            if after.contains(t) {
                let i = after.index_of(t);
                if i < before.len() {
                    assert(before[i] == t);
                }
            }
            if after.len() > before.len() && t == last {
                assert(after[after.len() - 1] == t);
            }
            assert(before.contains(t) <==> state.custom_terms.contains(t) || front.contains(t)
                && text::trimmed(t).len() > 0);
        }
        if state.custom_terms.no_duplicates() {
            assert forall|i: int, j: int|
                0 <= i < after.len() && 0 <= j < after.len() && i != j implies after[i]
                != after[j] by {
                if i < before.len() && j < before.len() {
                    assert(before[i] != before[j]);
                } else if i < before.len() {
                    assert(before.contains(before[i]));
                } else {
                    assert(before.contains(before[j]));
                }
            }
        }
    }
}

/// What an agent redacts are the terms of its redactor, those of the session and those
/// that the user configured, and no others.
pub proof fn law_all_terms_are_redacted(
    red: RedactionView,
    session: RedactionView,
    extra: Seq<Seq<char>>,
    term: Seq<char>,
)
    ensures
        merged_terms(red, session, extra).custom_terms.contains(term) <==> red.custom_terms.contains(
            term,
        ) || (session.custom_terms.contains(term) || extra.contains(term)) && text::trimmed(
            term,
        ).len() > 0,
        merged_terms(red, session, extra).salt_b64 == red.salt_b64,
        merged_terms(red, session, extra).entries == red.entries,
{
    law_terms_are_added_once(red, session.custom_terms);
    law_terms_are_added_once(with_terms(red, session.custom_terms), extra);
    let first = with_terms(red, session.custom_terms);
    assert(first.custom_terms.contains(term) <==> red.custom_terms.contains(term)
        || session.custom_terms.contains(term) && text::trimmed(term).len() > 0);
    assert(with_terms(first, extra).custom_terms.contains(term) <==> first.custom_terms.contains(
        term,
    ) || extra.contains(term) && text::trimmed(term).len() > 0);
}

fn add_terms(redactor: &mut Redactor, terms: &Vec<String>)
    ensures
        final(redactor)@ == (RedactorView {
            state: with_terms(old(redactor)@.state, text::views(terms@)),
            ..old(redactor)@
        }),
{
    let ghost all = text::views(terms@);
    let ghost start = redactor@;
    let mut i: usize = 0;
    proof {
        assert(all.take(0) =~= Seq::empty());
    }
    while i < terms.len()
        invariant
            i <= terms@.len(),
            all == text::views(terms@),
            start == old(redactor)@,
            redactor@.salt == start.salt,
            redactor@.rev == start.rev,
            redactor@.asked == start.asked,
            redactor@.state == with_terms(start.state, all.take(i as int)),
        decreases terms@.len() - i,
    {
        redactor.add_custom_term(terms[i].clone());
        proof {
            assert(all.take(i + 1).drop_last() =~= all.take(i as int));
            assert(all.take(i + 1).last() == terms@[i as int]@);
        }
        i += 1;
    }
    proof {
        assert(all.take(all.len() as int) =~= all);
    }
}

/// What terms are redacted by an agent: those of the redactor, those that the
/// session holds and those that the user configured.
pub open spec fn merged_terms(
    red: RedactionView,
    session: RedactionView,
    extra: Seq<Seq<char>>,
) -> RedactionView {
    with_terms(with_terms(red, session.custom_terms), extra)
}

/// The ticket of a request that has none yet.
pub open spec fn no_ticket(token_class: TokenClass) -> TicketView {
    TicketView {
        commitment_root: Seq::empty(),
        nullifier: Seq::empty(),
        token_class,
        proof: Seq::empty(),
    }
}

/// A request with some messages, before it has a ticket.
pub open spec fn unpaid_request(
    request_id: Seq<u8>,
    model: Seq<char>,
    messages: Seq<MessageView>,
    token_class: TokenClass,
) -> RequestView {
    RequestView {
        request_id,
        model,
        messages,
        max_tokens: None,
        temperature: None,
        stream: None,
        token_class,
        ticket: no_ticket(token_class),
        provider_options: Seq::empty(),
    }
}

/// The lines that the naive summary gains from a turn.
pub open spec fn turn_lines(turn: Seq<MessageView>) -> Seq<char>
    decreases turn.len(),
{
    if turn.len() == 0 {
        Seq::empty()
    } else {
        turn_lines(turn.drop_last()) + ("- "@ + turn.last().role + ": "@ + text::first_chars(
            turn.last().content,
            300,
        ) + "\n"@)
    }
}

/// The summary without a summarizer: what came before and the lines of the turn,
/// less as many characters from the front as it has bytes over 4000.
pub open spec fn naive_summary(summary: Seq<char>, turn: Seq<MessageView>) -> Seq<char> {
    let whole = summary + turn_lines(turn);
    if text::byte_len(whole) > 4000 {
        text::after_chars(whole, (text::byte_len(whole) - 4000) as nat)
    } else {
        whole
    }
}

/// A request leaves the client with its identifier, the model, the messages and the
/// class, and with nothing else: no limits, no options, and an empty ticket of its
/// class.
pub proof fn law_unpaid_request_holds_no_more(
    request_id: Seq<u8>,
    model: Seq<char>,
    messages: Seq<MessageView>,
    token_class: TokenClass,
)
    ensures
        ({
            let req = unpaid_request(request_id, model, messages, token_class);
            &&& req.request_id == request_id
            &&& req.model == model
            &&& req.messages == messages
            &&& req.token_class == token_class
            &&& req.max_tokens is None
            &&& req.temperature is None
            &&& req.stream is None
            &&& req.provider_options.len() == 0
            &&& req.ticket.token_class == token_class
            &&& req.ticket.commitment_root.len() == 0
            &&& req.ticket.nullifier.len() == 0
            &&& req.ticket.proof.len() == 0
        }),
{
}

/// The naive summary gains a line for each message of the turn, in order, with its role
/// and its first three hundred characters. It is the end of what came before with
/// these lines behind it, and all of that where it takes no more than 4000 bytes.
pub proof fn law_naive_summary_is_the_end_of_all(summary: Seq<char>, turn: Seq<MessageView>)
    ensures
        ({
            let whole = summary + Seq::new(
                turn.len(),
                |i: int|
                    "- "@ + turn[i].role + ": "@ + (if turn[i].content.len() > 300 {
                        turn[i].content.take(300)
                    } else {
                        turn[i].content
                    }) + "\n"@,
            ).flatten();
            let out = naive_summary(summary, turn);
            let over = text::byte_len(whole) - 4000;
            &&& over <= 0 ==> out == whole
            &&& 0 < over < whole.len() ==> out == whole.skip(over)
            &&& over > 0 && over >= whole.len() ==> out.len() == 0
        }),
{
    lemma_turn_lines(turn);
}

proof fn lemma_turn_lines(turn: Seq<MessageView>)
    ensures
        turn_lines(turn) == Seq::new(
            turn.len(),
            |i: int|
                "- "@ + turn[i].role + ": "@ + (if turn[i].content.len() > 300 {
                    turn[i].content.take(300)
                } else {
                    turn[i].content
                }) + "\n"@,
        ).flatten(),
    decreases turn.len(),
{
    let lines = Seq::new(
        turn.len(),
        |i: int|
            "- "@ + turn[i].role + ": "@ + (if turn[i].content.len() > 300 {
                turn[i].content.take(300)
            } else {
                turn[i].content
            }) + "\n"@,
    );
    lines.lemma_flatten_and_flatten_alt_are_equivalent();
    if turn.len() == 0 {
        assert(turn_lines(turn) =~= lines.flatten());
    } else {
        let front = turn.drop_last();
        lemma_turn_lines(front);
        let before = Seq::new(
            front.len(),
            |i: int|
                "- "@ + front[i].role + ": "@ + (if front[i].content.len() > 300 {
                    front[i].content.take(300)
                } else {
                    front[i].content
                }) + "\n"@,
        );
        before.lemma_flatten_and_flatten_alt_are_equivalent();
        assert(lines.drop_last() =~= before);
        assert(turn_lines(turn) =~= lines.flatten());
    }
}

/// However long the conversation, the naive summary takes at most 4000 bytes.
pub proof fn law_naive_summary_is_bounded(summary: Seq<char>, turn: Seq<MessageView>)
    ensures
        text::byte_len(naive_summary(summary, turn)) <= 4000,
{
    let whole = summary + turn_lines(turn);
    if text::byte_len(whole) > 4000 {
        let over = text::byte_len(whole) - 4000;
        if whole.len() <= over {
            text::lemma_byte_len_zero(Seq::<char>::empty());
        } else {
            lemma_taken_bytes(whole, over);
            assert(whole =~= whole.take(over) + whole.skip(over));
            text::law_encode_concat(whole.take(over), whole.skip(over));
        }
    }
}

proof fn lemma_taken_bytes(text: Seq<char>, n: int)
    requires
        0 <= n <= text.len(),
    ensures
        text::byte_len(text.take(n)) >= n,
    decreases n,
{
    if n > 0 {
        lemma_taken_bytes(text, n - 1);
        text::lemma_byte_len_step(text, n - 1);
    }
}

/// What is said is recorded: the session gains one message with this role and this
/// content and nothing else changes in it, and the index gains one document for it,
/// under its position.
pub proof fn law_what_is_said_is_recorded(
    after: AgentRuntime,
    before: AgentRuntime,
    role: Seq<char>,
    content: Seq<char>,
)
    requires
        after.said(before, role, content),
    ensures
        after.session@.messages.len() == before.session@.messages.len() + 1,
        after.session@.messages.drop_last() == before.session@.messages,
        after.session@.messages.last().role == role,
        after.session@.messages.last().content == content,
        after.session@.system_prompt == before.session@.system_prompt,
        after.session@.memory == before.session@.memory,
        after.session@.summary == before.session@.summary,
        after.session@.redaction == before.session@.redaction,
        after.memory_store.docs().len() == before.memory_store.docs().len() + 1,
        after.memory_store.docs().drop_last() == before.memory_store.docs(),
        after.memory_store.docs().last().text == content,
        after.memory_store.docs().last().role == Some(role),
        after.memory_store.docs().last().kind == memory_store::DocKind::Message,
        after.memory_store.docs().last().msg_index == Some(
            before.session@.messages.len() as usize,
        ),
        after.model == before.model,
        after.token_class == before.token_class,
        after.redact_mode == before.redact_mode,
        after.extra_terms == before.extra_terms,
        after.prompt_cfg == before.prompt_cfg,
        after.session_key == before.session_key,
{
    assert(after.session@.messages.drop_last() =~= before.session@.messages);
    assert(after.memory_store.docs().drop_last() =~= before.memory_store.docs());
}

/// Settings that are the same are the same in every part.
pub proof fn law_same_settings_are_all_the_same(a: AgentRuntime, b: AgentRuntime)
    ensures
        same_settings(a, b) <==> a.endpoint_url == b.endpoint_url && a.gateway_public_bytes
            == b.gateway_public_bytes && a.model == b.model && a.token_class == b.token_class
            && a.redact_mode == b.redact_mode && a.extra_terms == b.extra_terms && a.prompt_cfg
            == b.prompt_cfg && a.session_path == b.session_path && a.session_key == b.session_key,
{
}

/// What an agent says is built from its own session, with its own mode, terms, redactor
/// and configuration, within the limit of its own class.
pub proof fn law_agent_says_what_its_session_holds(
    agent: AgentRuntime,
    retrieved: memory_store::ContextView,
    messages: Seq<MessageView>,
)
    ensures
        agent.outgoing(retrieved) == prompt::assembled(
            agent.session@,
            retrieved,
            agent.redact_mode,
            text::views(agent.extra_terms@),
            agent.redactor@,
            agent.prompt_cfg,
        ),
        agent.may_say(retrieved, messages) ==> exists|filler: Seq<char>|
            prompt::filler_suits(
                agent.outgoing(retrieved).1,
                agent.token_class.prompt_limit(),
                agent.prompt_cfg,
                filler,
            ) && Some(messages) == #[trigger] prompt::finished(
                agent.outgoing(retrieved).1,
                agent.token_class.prompt_limit(),
                agent.prompt_cfg,
                filler,
            ),
{
}

impl AgentRuntime {
    /// An agent over a session. The terms of the session and of the user go to
    /// the redactor, whose state goes to the session, and the index is built.
    pub fn new(
        endpoint_url: String,
        gateway_public_bytes: [u8; 32],
        model: String,
        token_class: TokenClass,
        redact_mode: RedactMode,
        extra_terms: Vec<String>,
        prompt_cfg: PromptBuildConfig,
        session_path: String,
        session_key: Option<[u8; 32]>,
        session: Session,
        redactor: Redactor,
        index_messages: bool,
        max_messages_indexed: usize,
    ) -> (r: AgentRuntime)
        ensures
            r.endpoint_url == endpoint_url,
            r.gateway_public_bytes == gateway_public_bytes,
            r.model == model,
            r.token_class == token_class,
            r.redact_mode == redact_mode,
            r.extra_terms == extra_terms,
            r.prompt_cfg == prompt_cfg,
            r.session_path == session_path,
            r.session_key == session_key,
            ({
                let state = merged_terms(
                    redactor@.state,
                    session@.redaction,
                    text::views(extra_terms@),
                );
                &&& r.session@ == (SessionView { redaction: state, ..session@ })
                &&& r.redactor@ == (RedactorView { state, ..redactor@ })
            }),
            r.memory_store.docs() == memory_store::session_docs(
                session@.memory,
                session@.messages,
                index_messages,
                max_messages_indexed as nat,
            ),
    {
        let mut session = session;
        let mut redactor = redactor;
        add_terms(&mut redactor, &session.redaction.custom_terms);
        add_terms(&mut redactor, &extra_terms);
        let mut memory_store = MemoryStore::new();
        memory_store.rebuild_from_session(
            &session.memory,
            &session.messages,
            index_messages,
            max_messages_indexed,
        );
        session.redaction = redactor.state().clone();
        AgentRuntime {
            endpoint_url,
            gateway_public_bytes,
            model,
            token_class,
            redact_mode,
            extra_terms,
            prompt_cfg,
            session_path,
            session_key,
            session,
            redactor,
            memory_store,
        }
    }

    /// Adds something to remember and indexes it.
    pub fn remember(&mut self, text: String, tags: Vec<String>)
        ensures
            final(self).memory_store.docs() == old(self).memory_store.docs().push(
                memory_store::memory_doc(final(self).session@.memory.last()),
            ),
            final(self).session@ == (SessionView {
                memory: final(self).session@.memory,
                ..old(self).session@
            }),
            final(self).session@.memory.len() == old(self).session@.memory.len() + 1,
            final(self).session@.memory.drop_last() == old(self).session@.memory,
            session::is_new_memory(
                final(self).session@.memory.last(),
                text@,
                text::views(tags@),
            ),
            same_settings(*final(self), *old(self)),
            final(self).redactor == old(self).redactor,
    {
        self.session.push_memory(text, tags);
        let last: usize = self.session.memory.len() - 1;
        self.memory_store.add_memory_item(&self.session.memory[last]);
    }

    /// What there is to remember.
    pub fn list_memory(&self) -> (r: Vec<MemoryItem>)
        ensures
            session::memory_views(r@) == self.session@.memory,
    {
        let mut out: Vec<MemoryItem> = Vec::new();
        let mut i: usize = 0;
        while i < self.session.memory.len()
            invariant
                i <= self.session.memory@.len(),
                out@.len() == i,
                forall|k: int| 0 <= k < i ==> (#[trigger] out@[k])@ == self.session.memory@[k]@,
            decreases self.session.memory@.len() - i,
        {
            out.push(self.session.memory[i].clone());
            i += 1;
        }
        proof {
            assert(session::memory_views(out@) =~= self.session@.memory);
        }
        out
    }

    /// Adds a term to those that are always redacted.
    pub fn add_redaction_term(&mut self, term: String)
        ensures
            final(self).redactor@ == (RedactorView {
                state: with_term(old(self).redactor@.state, term@),
                ..old(self).redactor@
            }),
            final(self).session@ == (SessionView {
                redaction: with_term(old(self).redactor@.state, term@),
                ..old(self).session@
            }),
            final(self).memory_store == old(self).memory_store,
            same_settings(*final(self), *old(self)),
    {
        self.redactor.add_custom_term(term);
        self.session.redaction = self.redactor.state().clone();
    }

    /// Changes the system prompt.
    pub fn set_system_prompt(&mut self, system: String)
        ensures
            final(self).session@ == (SessionView {
                system_prompt: system@,
                ..old(self).session@
            }),
            final(self).redactor == old(self).redactor,
            final(self).memory_store == old(self).memory_store,
            same_settings(*final(self), *old(self)),
    {
        self.session.system_prompt = system;
    }

    /// The last messages of the conversation, at most `limit` of them.
    pub fn messages(&self, limit: usize) -> (r: Vec<ChatMessage>)
        ensures
            types::message_views(r@) == prompt::last_of(self.session@.messages, limit as nat),
    {
        let count: usize = self.session.messages.len();
        let start: usize = if count <= limit {
            0
        } else {
            count - limit
        };
        let mut out: Vec<ChatMessage> = Vec::new();
        let mut i: usize = start;
        while i < count
            invariant
                start <= i <= count,
                count == self.session.messages@.len(),
                out@.len() == i - start,
                forall|k: int|
                    0 <= k < i - start ==> (#[trigger] out@[k])@ == self.session.messages@[start
                        + k]@,
            decreases count - i,
        {
            out.push(self.session.messages[i].clone());
            i += 1;
        }
        proof {
            assert(types::message_views(out@) =~= prompt::last_of(
                self.session@.messages,
                limit as nat,
            ));
        }
        out
    }

    fn push_message(&mut self, role: &str, content: String)
        ensures
            final(self).said(*old(self), role@, content@),
            final(self).redactor == old(self).redactor,
    {
        let ghost before = self.session.messages@;
        let index: usize = self.session.messages.len();
        self.session.messages.push(types::plain_message(role, content));
        self.memory_store.add_message(index, &self.session.messages[index]);
        proof {
            assert(types::message_views(self.session.messages@) =~= types::message_views(
                before,
            ).push(types::plain_view(role@, content@)));
        }
    }

    /// Whether this agent is another one after one more message, which is in the
    /// session and in the index.
    pub open spec fn said(self, before: AgentRuntime, role: Seq<char>, content: Seq<char>) -> bool {
        let message = types::plain_view(role, content);
        &&& self.session@ == (SessionView {
            messages: before.session@.messages.push(message),
            ..before.session@
        })
        &&& self.memory_store.docs() == before.memory_store.docs().push(
            memory_store::message_doc(before.session@.messages.len() as usize, message),
        )
        &&& same_settings(self, before)
    }

    /// Takes in what the user says.
    pub fn start_turn(&mut self, user_msg: String)
        ensures
            final(self).said(*old(self), "user"@, user_msg@),
            final(self).redactor == old(self).redactor,
    {
        self.push_message("user", user_msg);
    }

    /// The position of the first message that goes along verbatim, from which on
    /// nothing is recalled.
    pub fn recall_cutoff(&self) -> (r: usize)
        ensures
            r == if self.session@.messages.len() > self.prompt_cfg.max_recent_messages {
                self.session@.messages.len() - self.prompt_cfg.max_recent_messages
            } else {
                0
            },
    {
        let count: usize = self.session.messages.len();
        if count > self.prompt_cfg.max_recent_messages {
            count - self.prompt_cfg.max_recent_messages
        } else {
            0
        }
    }

    /// What a search touches, apart from the messages that go along verbatim.
    pub fn plan_search(&self, query: &str, max_memory: usize, max_recall: usize) -> (r: ContextPlan)
        ensures
            memory_store::plan_views(r.memory@) == if max_memory == 0 {
                Seq::empty()
            } else {
                memory_store::plan_of(
                    self.memory_store.docs(),
                    memory_store::firsts(memory_store::tokens(query@)),
                    Some(memory_store::DocKind::Memory),
                    None,
                )
            },
            memory_store::plan_views(r.messages@) == if max_recall == 0 {
                Seq::empty()
            } else {
                memory_store::plan_of(
                    self.memory_store.docs(),
                    memory_store::firsts(memory_store::tokens(query@)),
                    Some(memory_store::DocKind::Message),
                    Some(
                        if self.session@.messages.len() > self.prompt_cfg.max_recent_messages {
                            (self.session@.messages.len() - self.prompt_cfg.max_recent_messages)
                                as usize
                        } else {
                            0
                        },
                    ),
                )
            },
    {
        self.memory_store.plan_context(query, max_memory, max_recall, Some(self.recall_cutoff()))
    }

    /// The messages that would go to the gateway before they are brought to
    /// size, and the redactor after them.
    pub open spec fn outgoing(self, retrieved: memory_store::ContextView) -> (
        RedactorView,
        Seq<MessageView>,
    ) {
        prompt::assembled(
            self.session@,
            retrieved,
            self.redact_mode,
            text::views(self.extra_terms@),
            self.redactor@,
            self.prompt_cfg,
        )
    }

    /// Whether messages are what goes to the gateway, for some padding.
    pub open spec fn may_say(
        self,
        retrieved: memory_store::ContextView,
        messages: Seq<MessageView>,
    ) -> bool {
        exists|filler: Seq<char>|
            prompt::filler_suits(
                self.outgoing(retrieved).1,
                self.token_class.prompt_limit(),
                self.prompt_cfg,
                filler,
            ) && Some(messages) == #[trigger] prompt::finished(
                self.outgoing(retrieved).1,
                self.token_class.prompt_limit(),
                self.prompt_cfg,
                filler,
            )
    }

    /// Composes the request for a turn, without a ticket. There is none where the
    /// prompt cannot be brought to size; the redactor then stays as it was.
    pub fn compose_request(&mut self, retrieved: &RetrievedContext, request_id: Uuid) -> (r: Option<
        InferenceRequest,
    >)
        ensures
            final(self).session == old(self).session,
            final(self).memory_store == old(self).memory_store,
            same_settings(*final(self), *old(self)),
            ({
                let (red, messages) = old(self).outgoing(retrieved@);
                let max = old(self).token_class.prompt_limit();
                match prompt::fitted(messages, max) {
                    None => r is None && final(self).redactor@ == old(self).redactor@,
                    Some(_) => {
                        &&& r is Some
                        &&& final(self).redactor@ == red
                        &&& r->0@ == unpaid_request(
                            request_id.bytes@,
                            old(self).model@,
                            r->0@.messages,
                            old(self).token_class,
                        )
                        &&& old(self).may_say(retrieved@, r->0@.messages)
                    },
                }
            }),
    {
        let built = prompt::try_build_remote_messages(
            &self.session,
            retrieved,
            self.token_class,
            self.redact_mode,
            &self.extra_terms,
            &mut self.redactor,
            &self.prompt_cfg,
        );
        let messages = match built {
            Some(messages) => messages,
            None => return None,
        };
        let request = InferenceRequest {
            request_id,
            model: self.model.clone(),
            messages,
            max_tokens: None,
            temperature: None,
            stream: None,
            token_class: self.token_class,
            ticket: ZkTicket {
                commitment_root: B64Bytes(Vec::new()),
                nullifier: B64Bytes(Vec::new()),
                token_class: self.token_class,
                proof: B64Bytes(Vec::new()),
            },
            provider_options: Vec::new(),
        };
        proof {
            assert(request@.provider_options =~= Seq::empty());
            assert(request@.ticket.commitment_root =~= Seq::empty());
            assert(request@.ticket.nullifier =~= Seq::empty());
            assert(request@.ticket.proof =~= Seq::empty());
        }
        Some(request)
    }

    /// Composes the request for a turn and pays for it with a ticket that is
    /// bound to exactly this request.
    pub fn ask<S: TicketSource>(
        &mut self,
        retrieved: &RetrievedContext,
        request_id: Uuid,
        tickets: &mut S,
    ) -> (r: Result<InferenceRequest, AgentError>)
        ensures
            final(self).session == old(self).session,
            final(self).memory_store == old(self).memory_store,
            same_settings(*final(self), *old(self)),
            ({
                let (red, messages) = old(self).outgoing(retrieved@);
                let max = old(self).token_class.prompt_limit();
                match prompt::fitted(messages, max) {
                    None => {
                        &&& r is Err
                        &&& r->Err_0 is PromptTooLarge
                        &&& final(self).redactor@ == old(self).redactor@
                        &&& *final(tickets) == *old(tickets)
                    },
                    Some(_) => {
                        &&& final(self).redactor@ == red
                        &&& r matches Ok(req) ==> req@.ticket.commitment_root
                            == types::request_commitment(req@)
                        &&& exists|
                            said: Seq<MessageView>,
                            outcome: Result<TicketView, TicketError>,
                        |
                            {
                                &&& old(self).may_say(retrieved@, said)
                                &&& #[trigger] S::answers(
                                    *old(tickets),
                                    old(self).token_class,
                                    types::request_commitment(
                                        unpaid_request(
                                            request_id.bytes@,
                                            old(self).model@,
                                            said,
                                            old(self).token_class,
                                        ),
                                    ),
                                    outcome,
                                    *final(tickets),
                                )
                                &&& match outcome {
                                    Ok(ticket) => r is Ok && r->Ok_0@ == (RequestView {
                                        ticket,
                                        ..unpaid_request(
                                            request_id.bytes@,
                                            old(self).model@,
                                            said,
                                            old(self).token_class,
                                        )
                                    }),
                                    Err(e) => r is Err && r->Err_0 == AgentError::Ticket(e),
                                }
                            }
                    },
                }
            }),
    {
        let request = match self.compose_request(retrieved, request_id) {
            Some(request) => request,
            None => return Err(AgentError::PromptTooLarge),
        };
        let ghost unpaid = request@;
        let commitment = match request.authorization_commitment() {
            Ok(commitment) => commitment,
            Err(_) => return Err(AgentError::PromptTooLarge),
        };
        let outcome = tickets.next_ticket(self.token_class, commitment.as_slice());
        let ghost answer = outcome_view(outcome);
        let paid = pay(request, outcome);
        proof {
            if paid is Ok {
                let req = paid->Ok_0@;
                assert(types::committed_members(req) == types::committed_members(unpaid));
                assert(types::request_commitment(req) == types::request_commitment(unpaid));
            }
            assert(unpaid == unpaid_request(
                request_id.bytes@,
                old(self).model@,
                unpaid.messages,
                old(self).token_class,
            ));
            assert(S::answers(
                *old(tickets),
                old(self).token_class,
                types::request_commitment(
                    unpaid_request(
                        request_id.bytes@,
                        old(self).model@,
                        unpaid.messages,
                        old(self).token_class,
                    ),
                ),
                answer,
                *tickets,
            ));
        }
        paid
    }

    /// Takes in the gateway's answer: what the model said, with the originals in
    /// place of the placeholders, or the gateway's error.
    pub fn accept(&mut self, payload: &GatewayEnvelopePayload) -> (r: Result<String, AgentError>)
        ensures
            final(self).redactor == old(self).redactor,
            match *payload {
                GatewayEnvelopePayload::Success { response } => {
                    let out = redaction::rehydrated(old(self).redactor@, response.output@);
                    &&& r is Ok
                    &&& r->Ok_0@ == out
                    &&& final(self).said(*old(self), "assistant"@, out)
                },
                GatewayEnvelopePayload::Failure { error } => {
                    &&& r is Err
                    &&& r->Err_0 matches AgentError::Gateway { code, message } && code@
                        == error.code@ && message@ == error.message@
                    &&& *final(self) == *old(self)
                },
            },
    {
        match payload {
            GatewayEnvelopePayload::Success { response } => {
                let out = self.redactor.rehydrate(response.output.as_str());
                self.push_message("assistant", out.clone());
                Ok(out)
            },
            GatewayEnvelopePayload::Failure { error } => Err(
                AgentError::Gateway { code: error.code.clone(), message: error.message.clone() },
            ),
        }
    }

    /// The last turn, redacted, for the summary.
    pub fn summary_turn(&mut self) -> (r: Vec<ChatMessage>)
        ensures
            (final(self).redactor@, types::message_views(r@)) == prompt::redacted_messages(
                old(self).redactor@,
                prompt::last_of(old(self).session@.messages, 2),
                old(self).redact_mode,
                text::views(old(self).extra_terms@),
            ),
            final(self).session == old(self).session,
            final(self).memory_store == old(self).memory_store,
            same_settings(*final(self), *old(self)),
    {
        let turn = self.messages(2);
        redact_turn(&turn, self.redact_mode, &self.extra_terms, &mut self.redactor)
    }

    /// Ends a turn: the summary becomes the summarizer's where there is one, or
    /// else the naive one, and the session keeps the redaction state.
    pub fn finish_turn(&mut self, turn: &Vec<ChatMessage>, summarized: Option<String>)
        ensures
            final(self).session@ == (SessionView {
                summary: match summarized {
                    Some(s) => s@,
                    None => naive_summary(old(self).session@.summary, types::message_views(turn@)),
                },
                redaction: old(self).redactor@.state,
                ..old(self).session@
            }),
            final(self).redactor == old(self).redactor,
            final(self).memory_store == old(self).memory_store,
            same_settings(*final(self), *old(self)),
    {
        match summarized {
            Some(s) => {
                self.session.summary = s;
            },
            None => {
                self.session.summary = naive(self.session.summary.as_str(), turn);
            },
        }
        self.session.redaction = self.redactor.state().clone();
    }
}

/// Puts a ticket into a request, or reports that there is none.
pub fn pay(request: InferenceRequest, outcome: Result<ZkTicket, TicketError>) -> (r: Result<
    InferenceRequest,
    AgentError,
>)
    ensures
        match outcome {
            Ok(ticket) => r is Ok && r->Ok_0@ == (RequestView { ticket: ticket@, ..request@ }),
            Err(e) => r is Err && r->Err_0 == AgentError::Ticket(e),
        },
{
    match outcome {
        Ok(ticket) => {
            let mut paid = request;
            paid.ticket = ticket;
            Ok(paid)
        },
        Err(e) => Err(AgentError::Ticket(e)),
    }
}

/// Whether two agents have the same settings: all but session, redactor and
/// index.
pub open spec fn same_settings(a: AgentRuntime, b: AgentRuntime) -> bool {
    &&& a.endpoint_url == b.endpoint_url
    &&& a.gateway_public_bytes == b.gateway_public_bytes
    &&& a.model == b.model
    &&& a.token_class == b.token_class
    &&& a.redact_mode == b.redact_mode
    &&& a.extra_terms == b.extra_terms
    &&& a.prompt_cfg == b.prompt_cfg
    &&& a.session_path == b.session_path
    &&& a.session_key == b.session_key
}

fn redact_turn(
    turn: &Vec<ChatMessage>,
    mode: RedactMode,
    extra_terms: &Vec<String>,
    redactor: &mut Redactor,
) -> (r: Vec<ChatMessage>)
    ensures
        (final(redactor)@, types::message_views(r@)) == prompt::redacted_messages(
            old(redactor)@,
            types::message_views(turn@),
            mode,
            text::views(extra_terms@),
        ),
{
    let ghost all = types::message_views(turn@);
    let ghost extra = text::views(extra_terms@);
    let ghost start = redactor@;
    let mut out: Vec<ChatMessage> = Vec::new();
    let mut i: usize = 0;
    proof {
        assert(all.take(0) =~= Seq::empty());
        assert(types::message_views(out@) =~= Seq::empty());
    }
    while i < turn.len()
        invariant
            i <= turn@.len(),
            all == types::message_views(turn@),
            extra == text::views(extra_terms@),
            start == old(redactor)@,
            (redactor@, types::message_views(out@)) == prompt::redacted_messages(
                start,
                all.take(i as int),
                mode,
                extra,
            ),
        decreases turn@.len() - i,
    {
        let ghost before = types::message_views(out@);
        let content = redactor.redact(turn[i].content.as_str(), mode, extra_terms);
        out.push(types::plain_message(turn[i].role.as_str(), content));
        proof {
            assert(all.take(i + 1).drop_last() =~= all.take(i as int));
            assert(all.take(i + 1).last() == turn@[i as int]@);
            assert(types::message_views(out@) =~= before.push(
                types::plain_view(turn@[i as int].role@, content@),
            ));
        }
        i += 1;
    }
    proof {
        assert(all.take(all.len() as int) =~= all);
    }
    out
}

fn naive(summary: &str, turn: &Vec<ChatMessage>) -> (r: String)
    ensures
        r@ == naive_summary(summary@, types::message_views(turn@)),
{
    let ghost all = types::message_views(turn@);
    let mut out = String::from_str(summary);
    let mut i: usize = 0;
    proof {
        assert(all.take(0) =~= Seq::empty());
        assert(out@ =~= summary@ + turn_lines(all.take(0)));
    }
    while i < turn.len()
        invariant
            i <= turn@.len(),
            all == types::message_views(turn@),
            out@ == summary@ + turn_lines(all.take(i as int)),
        decreases turn@.len() - i,
    {
        let snippet = text::take_chars(turn[i].content.as_str(), 300);
        out.append("- ");
        out.append(turn[i].role.as_str());
        out.append(": ");
        out.append(snippet.as_str());
        out.append("\n");
        proof {
            assert(all.take(i + 1).drop_last() =~= all.take(i as int));
            assert(all.take(i + 1).last() == turn@[i as int]@);
            assert(out@ =~= summary@ + turn_lines(all.take(i + 1)));
        }
        i += 1;
    }
    proof {
        assert(all.take(all.len() as int) =~= all);
    }
    let len: usize = text::text_bytes(out.as_str());
    if len > 4000 {
        text::skip_chars(out.as_str(), len - 4000)
    } else {
        out
    }
}

} // verus!
