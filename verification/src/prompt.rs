//! Building a remote prompt from a local session: what is revealed, in which
//! form, and how it is brought to the size of its class.

use vstd::prelude::*;
use vstd::string::*;

use crate::crypto;
use crate::memory_store::{doc_views, ContextView, Doc, DocView, RetrievedContext};
use crate::redaction::{redaction, RedactMode, Redactor, RedactorView};
use crate::session::{Session, SessionView};
use crate::text;
use crate::text::{byte_len, decimal, first_chars, trimmed, views};
use crate::token::TokenClass;
use crate::types;
use crate::types::{message_views, plain_view, ChatMessage, MessageView};

verus! {

/// How a remote prompt is built.
#[derive(Debug, Copy, Clone)]
pub struct PromptBuildConfig {
    /// How many recent messages go along verbatim.
    pub max_recent_messages: usize,
    /// How many memory items go along.
    pub max_memory_items: usize,
    /// Whether the rolling summary goes along.
    pub include_summary: bool,
    /// Whether all sections are always there, with empty slots filled, so that
    /// the provider does not learn which of them are in use.
    pub normalize_context_blocks: bool,
    /// Whether the system prompt is padded toward the limit of the class.
    pub pad_system_prompt: bool,
    /// How many bytes of padding there may be.
    pub max_padding_bytes: usize,
    /// How many snippets of older messages go along.
    pub max_recall_snippets: usize,
}

impl Default for PromptBuildConfig {
    fn default() -> (r: Self)
        ensures
            r == (PromptBuildConfig {
                max_recent_messages: 8,
                max_memory_items: 8,
                include_summary: true,
                normalize_context_blocks: true,
                pad_system_prompt: true,
                max_padding_bytes: 65536,
                max_recall_snippets: 6,
            }),
    {
        PromptBuildConfig {
            max_recent_messages: 8,
            max_memory_items: 8,
            include_summary: true,
            normalize_context_blocks: true,
            pad_system_prompt: true,
            max_padding_bytes: 65536,
            max_recall_snippets: 6,
        }
    }
}

/// The bytes of roles and contents.
pub open spec fn prompt_bytes(messages: Seq<MessageView>) -> nat
    decreases messages.len(),
{
    if messages.len() == 0 {
        0
    } else {
        prompt_bytes(messages.drop_last()) + byte_len(messages.last().role) + byte_len(
            messages.last().content,
        )
    }
}

/// The bytes of roles and contents, as far as they can be counted.
pub open spec fn counted_bytes(messages: Seq<MessageView>) -> nat {
    if prompt_bytes(messages) > usize::MAX {
        usize::MAX as nat
    } else {
        prompt_bytes(messages)
    }
}

fn approx_prompt_bytes(messages: &Vec<ChatMessage>) -> (r: usize)
    ensures
        r == counted_bytes(message_views(messages@)),
{
    let ghost all = message_views(messages@);
    let mut sum: usize = 0;
    let mut i: usize = 0;
    proof {
        assert(all.take(0) =~= Seq::empty());
    }
    while i < messages.len()
        invariant
            i <= messages@.len(),
            all == message_views(messages@),
            sum == counted_bytes(all.take(i as int)),
        decreases messages@.len() - i,
    {
        let role: usize = text::text_bytes(messages[i].role.as_str());
        let content: usize = text::text_bytes(messages[i].content.as_str());
        proof {
            assert(all.take(i + 1).drop_last() =~= all.take(i as int));
            assert(all.take(i + 1).last() == messages@[i as int]@);
        }
        sum = sum.saturating_add(role).saturating_add(content);
        i += 1;
    }
    proof {
        assert(all.take(all.len() as int) =~= all);
    }
    sum
}

/// The position of the last message of the user, if there is one.
pub open spec fn last_user(messages: Seq<MessageView>) -> Option<int>
    decreases messages.len(),
{
    if messages.len() == 0 {
        None
    } else if messages.last().role == "user"@ {
        Some(messages.len() - 1)
    } else {
        last_user(messages.drop_last())
    }
}

fn find_last_user(messages: &Vec<ChatMessage>) -> (r: Option<usize>)
    ensures
        match r {
            Some(i) => last_user(message_views(messages@)) == Some(i as int),
            None => last_user(message_views(messages@)) is None,
        },
        r matches Some(i) ==> i < messages@.len(),
{
    let ghost all = message_views(messages@);
    let mut i: usize = messages.len();
    proof {
        assert(all.take(i as int) =~= all);
    }
    while i > 0
        invariant
            i <= messages@.len(),
            all == message_views(messages@),
            last_user(all) == last_user(all.take(i as int)),
        decreases i,
    {
        proof {
            assert(all.take(i as int).last() == messages@[i - 1]@);
            assert(all.take(i as int).drop_last() =~= all.take(i - 1));
        }
        if text::text_eq(messages[i - 1].role.as_str(), "user") {
            return Some(i - 1);
        }
        i -= 1;
    }
    None
}

/// The first message from position `i` on that may be dropped: not a system
/// message, and not the one at `keep`.
pub open spec fn droppable_from(messages: Seq<MessageView>, keep: int, i: int) -> Option<int>
    decreases messages.len() - i,
{
    if i < 0 || i >= messages.len() {
        None
    } else if messages[i].role != "system"@ && i != keep {
        Some(i)
    } else {
        droppable_from(messages, keep, i + 1)
    }
}

/// The oldest message that may be dropped, if there are more than two. The last
/// message of the user stays, or the last message of all where there is none.
pub open spec fn droppable(messages: Seq<MessageView>) -> Option<int> {
    if messages.len() <= 2 {
        None
    } else {
        droppable_from(
            messages,
            match last_user(messages) {
                Some(i) => i,
                None => messages.len() - 1,
            },
            1,
        )
    }
}

fn find_droppable(messages: &Vec<ChatMessage>) -> (r: Option<usize>)
    ensures
        match r {
            Some(i) => droppable(message_views(messages@)) == Some(i as int),
            None => droppable(message_views(messages@)) is None,
        },
        r matches Some(i) ==> i < messages@.len(),
{
    if messages.len() <= 2 {
        return None;
    }
    let keep: usize = match find_last_user(messages) {
        Some(i) => i,
        None => messages.len() - 1,
    };
    let ghost all = message_views(messages@);
    let count: usize = messages.len();
    let mut i: usize = 1;
    while i < count
        invariant
            1 <= i <= count,
            count == messages@.len(),
            all == message_views(messages@),
            droppable(all) == droppable_from(all, keep as int, i as int),
        decreases count - i,
    {
        if !text::text_eq(messages[i].role.as_str(), "system") && i != keep {
            return Some(i);
        }
        i += 1;
    }
    None
}

/// A content that is shortened because the prompt is `over` bytes too long: the
/// excess and a margin are cut off, and an ellipsis says so.
pub open spec fn shortened(content: Seq<char>, over: nat) -> Seq<char> {
    first_chars(
        content,
        if content.len() >= over + 32 {
            (content.len() - (over + 32)) as nat
        } else {
            0
        },
    ) + "…"@
}

/// Messages brought to at most `max` bytes: the oldest messages that may be
/// dropped go first, then the last message of the user is shortened. Where there
/// is no such message, what is left stays as it is. Nothing comes out where even
/// an ellipsis in the place of that message is too much.
pub open spec fn settled(messages: Seq<MessageView>, max: nat) -> Option<Seq<MessageView>>
    decreases
            messages.len(),
            match last_user(messages) {
                Some(u) => messages[u].content.len(),
                None => 0,
            },
    via settled_decreases
{
    if counted_bytes(messages) <= max {
        Some(messages)
    } else {
        match droppable(messages) {
            Some(i) => settled(messages.remove(i), max),
            None => match last_user(messages) {
                None => Some(messages),
                Some(u) => {
                    let next = shortened(
                        messages[u].content,
                        (counted_bytes(messages) - max) as nat,
                    );
                    let shorter = messages.update(
                        u,
                        MessageView { content: next, ..messages[u] },
                    );
                    if next.len() < messages[u].content.len() {
                        settled(shorter, max)
                    } else if counted_bytes(shorter) <= max {
                        Some(shorter)
                    } else {
                        None
                    }
                },
            },
        }
    }
}

#[via_fn]
proof fn settled_decreases(messages: Seq<MessageView>, max: nat) {
    lemma_droppable(messages);
    lemma_last_user(messages);
    if last_user(messages) is Some {
        let u = last_user(messages)->0;
        let next = shortened(messages[u].content, (counted_bytes(messages) - max) as nat);
        lemma_same_user(messages, u, next);
    }
}

proof fn lemma_last_user(messages: Seq<MessageView>)
    ensures
        last_user(messages) matches Some(u) ==> 0 <= u < messages.len() && messages[u].role
            == "user"@ && forall|i: int|
            u < i < messages.len() ==> (#[trigger] messages[i]).role != "user"@,
        last_user(messages) is None ==> forall|i: int|
            0 <= i < messages.len() ==> (#[trigger] messages[i]).role != "user"@,
    decreases messages.len(),
{
    if messages.len() > 0 {
        let front = messages.drop_last();
        lemma_last_user(front);
        assert forall|i: int| 0 <= i < front.len() implies #[trigger] front[i] == messages[i] by {}
        if messages.last().role != "user"@ {
            if last_user(front) is Some {
                let u = last_user(front)->0;
                assert forall|i: int| u < i < messages.len() implies (#[trigger] messages[i]).role
                    != "user"@ by {
                    if i < front.len() {
                        assert(front[i] == messages[i]);
                    }
                }
            } else {
                assert forall|i: int| 0 <= i < messages.len() implies (
                #[trigger] messages[i]).role != "user"@ by {
                    if i < front.len() {
                        assert(front[i] == messages[i]);
                    }
                }
            }
        }
    }
}

proof fn lemma_last_user_is(messages: Seq<MessageView>, u: int)
    requires
        0 <= u < messages.len(),
        messages[u].role == "user"@,
        forall|i: int| u < i < messages.len() ==> (#[trigger] messages[i]).role != "user"@,
    ensures
        last_user(messages) == Some(u),
    decreases messages.len(),
{
    if u < messages.len() - 1 {
        let front = messages.drop_last();
        assert(messages[messages.len() - 1].role != "user"@);
        assert forall|i: int| u < i < front.len() implies (#[trigger] front[i]).role
            != "user"@ by {
            assert(front[i] == messages[i]);
        }
        lemma_last_user_is(front, u);
    }
}

proof fn lemma_same_user(messages: Seq<MessageView>, u: int, next: Seq<char>)
    requires
        last_user(messages) == Some(u),
    ensures
        0 <= u < messages.len(),
        last_user(messages.update(u, MessageView { content: next, ..messages[u] })) == Some(u),
{
    lemma_last_user(messages);
    let after = messages.update(u, MessageView { content: next, ..messages[u] });
    assert forall|i: int| u < i < after.len() implies (#[trigger] after[i]).role != "user"@ by {
        assert(after[i] == messages[i]);
    }
    lemma_last_user_is(after, u);
}

proof fn lemma_droppable_from(messages: Seq<MessageView>, keep: int, i: int)
    requires
        0 <= i,
    ensures
        droppable_from(messages, keep, i) matches Some(k) ==> i <= k < messages.len() && k != keep,
    decreases messages.len() - i,
{
    if i < messages.len() && !(messages[i].role != "system"@ && i != keep) {
        lemma_droppable_from(messages, keep, i + 1);
    }
}

proof fn lemma_droppable(messages: Seq<MessageView>)
    ensures
        droppable(messages) matches Some(k) ==> 1 <= k < messages.len(),
{
    if messages.len() > 2 {
        lemma_droppable_from(
            messages,
            match last_user(messages) {
                Some(i) => i,
                None => messages.len() - 1,
            },
            1,
        );
    }
}

fn shorten(content: &str, over: usize) -> (r: String)
    requires
        over <= usize::MAX - 32,
    ensures
        r@ == shortened(content@, over as nat),
{
    let cut: usize = over + 32;
    let count: usize = text::chars_of(content).len();
    let keep: usize = if count >= cut {
        count - cut
    } else {
        0
    };
    let mut out = text::take_chars(content, keep);
    out.append("…");
    out
}

/// Brings messages to at most `max` bytes, if dropping what may be dropped and
/// shortening the last message of the user does it.
fn settle(given: Vec<ChatMessage>, max: usize) -> (r: Option<Vec<ChatMessage>>)
    requires
        max >= 32,
    ensures
        match settled(message_views(given@), max as nat) {
            Some(out) => r is Some && message_views(r->0@) == out,
            None => r is None,
        },
{
    let mut messages = given;
    loop
        invariant
            max >= 32,
            settled(message_views(given@), max as nat) == settled(
                message_views(messages@),
                max as nat,
            ),
        decreases
                messages@.len(),
                match last_user(message_views(messages@)) {
                    Some(u) => message_views(messages@)[u].content.len(),
                    None => 0,
                },
    {
        let ghost now = message_views(messages@);
        let current: usize = approx_prompt_bytes(&messages);
        if current <= max {
            return Some(messages);
        }
        if let Some(i) = find_droppable(&messages) {
            messages.remove(i);
            proof {
                assert(message_views(messages@) =~= now.remove(i as int));
            }
            continue ;
        }
        let u: usize = match find_last_user(&messages) {
            Some(u) => u,
            None => return Some(messages),
        };
        let next = shorten(messages[u].content.as_str(), current - max);
        let before: usize = text::chars_of(messages[u].content.as_str()).len();
        let after: usize = text::chars_of(next.as_str()).len();
        let message = ChatMessage {
            role: messages[u].role.clone(),
            content: next,
            extra: crate::json::copy_fields(&messages[u].extra),
        };
        proof {
            lemma_same_user(now, u as int, next@);
        }
        messages.set(u, message);
        proof {
            assert(message_views(messages@) =~= now.update(
                u as int,
                MessageView { content: next@, ..now[u as int] },
            ));
        }
        if after >= before {
            if approx_prompt_bytes(&messages) <= max {
                return Some(messages);
            } else {
                return None;
            }
        }
    }
}

/// The first system message after the one in front, which holds local context.
pub open spec fn context_from(messages: Seq<MessageView>, i: int) -> Option<int>
    decreases messages.len() - i,
{
    if i < 0 || i >= messages.len() {
        None
    } else if messages[i].role == "system"@ {
        Some(i)
    } else {
        context_from(messages, i + 1)
    }
}

fn find_context(messages: &Vec<ChatMessage>) -> (r: Option<usize>)
    ensures
        match r {
            Some(i) => context_from(message_views(messages@), 1) == Some(i as int) && 1 <= i
                < messages@.len(),
            None => context_from(message_views(messages@), 1) is None,
        },
{
    let ghost all = message_views(messages@);
    let count: usize = messages.len();
    let mut i: usize = 1;
    while i < count
        invariant
            1 <= i,
            count == messages@.len(),
            all == message_views(messages@),
            context_from(all, 1) == context_from(all, i as int),
        decreases count - i,
    {
        if text::text_eq(messages[i].role.as_str(), "system") {
            return Some(i);
        }
        i += 1;
    }
    None
}

/// Messages brought to at most `max` bytes, where the system prompt leaves room
/// for a message of the user. Local context gives way where nothing else does it:
/// it is shortened if that is enough, and dropped if not.
pub open spec fn fitted(messages: Seq<MessageView>, max: nat) -> Option<Seq<MessageView>>
    decreases messages.len(),
    via fitted_decreases
{
    match settled(messages, max) {
        Some(fit) => Some(fit),
        None => match context_from(messages, 1) {
            None => None,
            Some(i) => {
                let less = messages.update(
                    i,
                    MessageView {
                        content: shortened(
                            messages[i].content,
                            (counted_bytes(messages) - max) as nat,
                        ),
                        ..messages[i]
                    },
                );
                if counted_bytes(less) <= max {
                    Some(less)
                } else {
                    fitted(messages.remove(i), max)
                }
            },
        },
    }
}

#[via_fn]
proof fn fitted_decreases(messages: Seq<MessageView>, max: nat) {
    lemma_context(messages, 1);
}

proof fn lemma_context(messages: Seq<MessageView>, i: int)
    requires
        0 <= i,
    ensures
        match context_from(messages, i) {
            Some(k) => i <= k < messages.len() && messages[k].role == "system"@,
            None => forall|k: int|
                i <= k < messages.len() ==> (#[trigger] messages[k]).role != "system"@,
        },
    decreases messages.len() - i,
{
    if i < messages.len() && messages[i].role != "system"@ {
        lemma_context(messages, i + 1);
        if context_from(messages, i) is None {
            assert forall|k: int| i <= k < messages.len() implies (#[trigger] messages[k]).role
                != "system"@ by {
                if k > i {
                    assert(i + 1 <= k < messages.len());
                }
            }
        }
    }
}

/// Brings messages to at most `max` bytes, if that can be done.
pub fn enforce_budget(given: Vec<ChatMessage>, max: usize) -> (r: Option<Vec<ChatMessage>>)
    requires
        max >= 32,
    ensures
        match fitted(message_views(given@), max as nat) {
            Some(out) => r is Some && message_views(r->0@) == out,
            None => r is None,
        },
{
    let mut messages = given;
    loop
        invariant
            max >= 32,
            fitted(message_views(given@), max as nat) == fitted(
                message_views(messages@),
                max as nat,
            ),
        decreases messages@.len(),
    {
        let ghost now = message_views(messages@);
        if let Some(fit) = settle(types::copy_messages(&messages), max) {
            return Some(fit);
        }
        let i: usize = match find_context(&messages) {
            Some(i) => i,
            None => return None,
        };
        let current: usize = approx_prompt_bytes(&messages);
        let next = shorten(messages[i].content.as_str(), current - max);
        let message = with_content(&messages[i], next);
        let mut less = types::copy_messages(&messages);
        proof {
            assert(message_views(less@) == now);
            assert(less@.len() == now.len());
        }
        less.set(i, message);
        proof {
            assert(message_views(less@) =~= now.update(
                i as int,
                MessageView { content: next@, ..now[i as int] },
            )) by {
                assert forall|k: int| 0 <= k < now.len() && k != i implies (
                #[trigger] message_views(less@)[k]) == now[k] by {
                    assert(less@[k]@ == now[k]);
                }
            }
        }
        if approx_prompt_bytes(&less) <= max {
            return Some(less);
        }
        messages.remove(i);
        proof {
            assert(message_views(messages@) =~= now.remove(i as int));
        }
    }
}

/// Messages that come out are within the budget, unless there is no message of
/// the user that could be shortened.
pub proof fn law_settled_is_within_budget(messages: Seq<MessageView>, max: nat)
    requires
        settled(messages, max) is Some,
    ensures
        counted_bytes(settled(messages, max)->0) <= max || last_user(settled(messages, max)->0)
            is None,
    decreases
            messages.len(),
            match last_user(messages) {
                Some(u) => messages[u].content.len(),
                None => 0,
            },
{
    if counted_bytes(messages) > max {
        lemma_droppable(messages);
        lemma_last_user(messages);
        if droppable(messages) is Some {
            law_settled_is_within_budget(messages.remove(droppable(messages)->0), max);
        } else if last_user(messages) is Some {
            let u = last_user(messages)->0;
            let next = shortened(messages[u].content, (counted_bytes(messages) - max) as nat);
            lemma_same_user(messages, u, next);
            let shorter = messages.update(u, MessageView { content: next, ..messages[u] });
            if next.len() < messages[u].content.len() {
                law_settled_is_within_budget(shorter, max);
            }
        }
    }
}

/// The system message in front and the last message of the user are never
/// dropped.
pub proof fn law_settled_keeps_system_and_user(messages: Seq<MessageView>, max: nat)
    requires
        settled(messages, max) is Some,
        messages.len() > 0,
        messages[0].role == "system"@,
    ensures
        settled(messages, max)->0.len() > 0,
        settled(messages, max)->0[0] == messages[0],
        last_user(messages) is Some ==> last_user(settled(messages, max)->0) is Some,
        messages.last().role == "user"@ ==> settled(messages, max)->0.last().role == "user"@,
    decreases
            messages.len(),
            match last_user(messages) {
                Some(u) => messages[u].content.len(),
                None => 0,
            },
{
    if counted_bytes(messages) > max {
        lemma_droppable(messages);
        lemma_last_user(messages);
        reveal_strlit("system");
        reveal_strlit("user");
        assert("system"@ != "user"@) by {
            assert("system"@.len() == 6);
            assert("user"@.len() == 4);
        }
        if droppable(messages) is Some {
            let i = droppable(messages)->0;
            let fewer = messages.remove(i);
            assert(fewer[0] == messages[0]);
            if last_user(messages) is Some {
                let u = last_user(messages)->0;
                lemma_droppable_from(messages, u, 1);
                let v = if u < i { u } else { u - 1 };
                assert(fewer[v] == messages[u]);
                assert forall|k: int| v < k < fewer.len() implies (#[trigger] fewer[k]).role
                    != "user"@ by {
                    let j = if k < i { k } else { k + 1 };
                    assert(fewer[k] == messages[j]);
                }
                lemma_last_user_is(fewer, v);
            }
            law_settled_keeps_system_and_user(fewer, max);
        } else if last_user(messages) is Some {
            let u = last_user(messages)->0;
            let next = shortened(messages[u].content, (counted_bytes(messages) - max) as nat);
            lemma_same_user(messages, u, next);
            let shorter = messages.update(u, MessageView { content: next, ..messages[u] });
            assert(u != 0);
            if next.len() < messages[u].content.len() {
                law_settled_keeps_system_and_user(shorter, max);
            }
        }
    }
}

/// Whether the message at a position is the one that is kept whatever else goes:
/// the last of the user, or the last of all where the user says nothing.
pub open spec fn is_kept(messages: Seq<MessageView>, j: int) -> bool {
    &&& 0 <= j < messages.len()
    &&& {
        ||| messages[j].role == "user"@ && forall|k: int|
            j < k < messages.len() ==> (#[trigger] messages[k]).role != "user"@
        ||| j == messages.len() - 1 && forall|k: int|
            0 <= k < messages.len() ==> (#[trigger] messages[k]).role != "user"@
    }
}

proof fn lemma_kept(messages: Seq<MessageView>, j: int)
    requires
        0 <= j < messages.len(),
    ensures
        is_kept(messages, j) <==> j == (match last_user(messages) {
            Some(u) => u,
            None => messages.len() - 1,
        }),
{
    lemma_last_user(messages);
    if last_user(messages) is Some {
        let u = last_user(messages)->0;
        assert(messages[u].role == "user"@);
        if is_kept(messages, j) {
            if j < u {
                assert(messages[u].role != "user"@);
            }
        }
    }
}

proof fn lemma_first_droppable(messages: Seq<MessageView>, keep: int, i: int)
    requires
        0 <= i,
    ensures
        match droppable_from(messages, keep, i) {
            Some(k) => {
                &&& i <= k < messages.len()
                &&& messages[k].role != "system"@
                &&& k != keep
                &&& forall|j: int|
                    i <= j < k ==> (#[trigger] messages[j]).role == "system"@ || j == keep
            },
            None => forall|j: int|
                i <= j < messages.len() ==> (#[trigger] messages[j]).role == "system"@ || j == keep,
        },
    decreases messages.len() - i,
{
    if i < messages.len() && !(messages[i].role != "system"@ && i != keep) {
        lemma_first_droppable(messages, keep, i + 1);
    }
}

/// History goes oldest first. The message that is dropped is neither in front,
/// nor a system message, nor the one that is kept, and every message between it
/// and the one in front is a system message or the one that is kept. Where none
/// is dropped there are at most two messages, or none that may go.
pub proof fn law_oldest_message_is_dropped_first(messages: Seq<MessageView>)
    ensures
        match droppable(messages) {
            Some(i) => {
                &&& messages.len() > 2
                &&& 1 <= i < messages.len()
                &&& messages[i].role != "system"@
                &&& !is_kept(messages, i)
                &&& forall|j: int|
                    1 <= j < i ==> (#[trigger] messages[j]).role == "system"@ || is_kept(
                        messages,
                        j,
                    )
            },
            None => messages.len() <= 2 || forall|j: int|
                1 <= j < messages.len() ==> (#[trigger] messages[j]).role == "system"@ || is_kept(
                    messages,
                    j,
                ),
        },
{
    if messages.len() > 2 {
        let keep = match last_user(messages) {
            Some(u) => u,
            None => messages.len() - 1,
        };
        lemma_last_user(messages);
        lemma_first_droppable(messages, keep, 1);
        lemma_kept(messages, keep);
        if droppable(messages) is Some {
            lemma_kept(messages, droppable(messages)->0);
        }
    }
}

/// The messages before position `n` that may be dropped: not the one in front, no
/// system messages and not the one that is kept.
pub open spec fn history_before(messages: Seq<MessageView>, keep: int, n: int) -> Seq<MessageView>
    decreases n,
{
    if n <= 1 {
        Seq::empty()
    } else {
        let before = history_before(messages, keep, n - 1);
        if messages[n - 1].role != "system"@ && n - 1 != keep {
            before.push(messages[n - 1])
        } else {
            before
        }
    }
}

proof fn lemma_no_history(messages: Seq<MessageView>, keep: int, n: int)
    requires
        n <= messages.len(),
        forall|j: int| 1 <= j < n ==> (#[trigger] messages[j]).role == "system"@ || j == keep,
    ensures
        history_before(messages, keep, n) == Seq::<MessageView>::empty(),
    decreases n,
{
    if n > 1 {
        lemma_no_history(messages, keep, n - 1);
        assert(messages[n - 1].role == "system"@ || n - 1 == keep);
    }
}

proof fn lemma_history_without(messages: Seq<MessageView>, keep: int, i: int, n: int)
    requires
        1 <= i < messages.len(),
        i < n <= messages.len(),
        i != keep,
        messages[i].role != "system"@,
        forall|j: int| 1 <= j < i ==> (#[trigger] messages[j]).role == "system"@ || j == keep,
    ensures
        history_before(messages, keep, n).len() > 0,
        history_before(messages.remove(i), if keep < i { keep } else { keep - 1 }, n - 1)
            == history_before(messages, keep, n).skip(1),
    decreases n,
{
    let fewer = messages.remove(i);
    let kept = if keep < i { keep } else { keep - 1 };
    if n == i + 1 {
        lemma_no_history(messages, keep, i);
        assert forall|j: int| 1 <= j < i implies (#[trigger] fewer[j]).role == "system"@ || j
            == kept by {
            assert(fewer[j] == messages[j]);
        }
        lemma_no_history(fewer, kept, i);
        assert(history_before(messages, keep, n).skip(1) =~= Seq::empty());
    } else {
        lemma_history_without(messages, keep, i, n - 1);
        assert(fewer[n - 2] == messages[n - 1]);
        let before = history_before(messages, keep, n - 1);
        assert(before.push(messages[n - 1]).skip(1) =~= before.skip(1).push(messages[n - 1]));
    }
}

proof fn lemma_history_beside(messages: Seq<MessageView>, keep: int, m: MessageView, n: int)
    requires
        0 <= keep < messages.len(),
        n <= messages.len(),
    ensures
        history_before(messages.update(keep, m), keep, n) == history_before(messages, keep, n),
    decreases n,
{
    if n > 1 {
        lemma_history_beside(messages, keep, m, n - 1);
    }
}

proof fn lemma_kept_after_drop(messages: Seq<MessageView>, keep: int, i: int)
    requires
        0 <= i < messages.len(),
        is_kept(messages, keep),
        i != keep,
    ensures
        is_kept(messages.remove(i), if keep < i { keep } else { keep - 1 }),
{
    let fewer = messages.remove(i);
    let kept = if keep < i { keep } else { keep - 1 };
    assert(fewer[kept] == messages[keep]);
    assert forall|k: int| 0 <= k < fewer.len() implies #[trigger] fewer[k] == messages[if k < i {
        k
    } else {
        k + 1
    }] by {}
    if messages[keep].role == "user"@ {
        assert forall|k: int| kept < k < fewer.len() implies (#[trigger] fewer[k]).role
            != "user"@ by {
            let j = if k < i { k } else { k + 1 };
            assert(messages[j].role != "user"@);
        }
    } else {
        assert forall|k: int| 0 <= k < fewer.len() implies (#[trigger] fewer[k]).role
            != "user"@ by {
            let j = if k < i { k } else { k + 1 };
            assert(messages[j].role != "user"@);
        }
    }
}

proof fn lemma_one_filtered(m: MessageView, pred: spec_fn(MessageView) -> bool)
    ensures
        seq![m].filter(pred) == if pred(m) {
            seq![m]
        } else {
            Seq::empty()
        },
{
    reveal(Seq::filter);
    assert(seq![m].drop_last() =~= Seq::empty());
    assert(seq![m].drop_last().filter(pred) =~= Seq::empty());
    assert(seq![m].filter(pred) =~= if pred(m) {
        seq![m]
    } else {
        Seq::empty()
    });
}

/// What remains of the history after messages were brought to size is a suffix of
/// the history that was given: nothing goes before something older has gone.
/// System messages all stay, in order. The last message of the user stays, and
/// loses something only where no history is left; what it loses is at its end,
/// where an ellipsis takes its place.
#[verifier::spinoff_prover]
#[verifier::rlimit(60)]
pub proof fn law_remaining_history_is_a_suffix(
    messages: Seq<MessageView>,
    max: nat,
    keep: int,
    kept: int,
)
    requires
        settled(messages, max) is Some,
        is_kept(messages, keep),
        is_kept(settled(messages, max)->0, kept),
    ensures
        ({
            let out = settled(messages, max)->0;
            let given = history_before(messages, keep, messages.len() as int);
            let left = history_before(out, kept, out.len() as int);
            &&& left.len() <= given.len()
            &&& left == given.skip(given.len() - left.len())
            &&& out.filter(|m: MessageView| m.role == "system"@) == messages.filter(
                |m: MessageView| m.role == "system"@,
            )
            &&& out[0] == messages[0] || keep == 0
            &&& out[kept].role == messages[keep].role
            &&& out[kept].extra == messages[keep].extra
            &&& out[kept].content == messages[keep].content || {
                &&& left.len() == 0 || out.len() <= 2
                &&& messages[keep].role == "user"@
                &&& exists|n: int|
                    (n == 0 || 0 < n < messages[keep].content.len() - 32) && out[kept].content == (
                    #[trigger] messages[keep].content.take(n)) + "…"@
            }
        }),
    decreases
            messages.len(),
            match last_user(messages) {
                Some(u) => messages[u].content.len(),
                None => 0,
            },
{
    let out = settled(messages, max)->0;
    let is_system = |m: MessageView| m.role == "system"@;
    lemma_kept(messages, keep);
    lemma_kept(out, kept);
    if counted_bytes(messages) <= max {
        let given = history_before(messages, keep, messages.len() as int);
        assert(given.skip(0) =~= given);
    } else {
        law_oldest_message_is_dropped_first(messages);
        lemma_droppable(messages);
        lemma_last_user(messages);
        if droppable(messages) is Some {
            let i = droppable(messages)->0;
            let fewer = messages.remove(i);
            assert forall|j: int| 1 <= j < i implies (#[trigger] messages[j]).role == "system"@
                || j == keep by {
                lemma_kept(messages, j);
            }
            lemma_kept_after_drop(messages, keep, i);
            let next = if keep < i { keep } else { keep - 1 };
            lemma_history_without(messages, keep, i, messages.len() as int);
            law_remaining_history_is_a_suffix(fewer, max, next, kept);
            let given = history_before(messages, keep, messages.len() as int);
            let then = history_before(fewer, next, fewer.len() as int);
            let left = history_before(out, kept, out.len() as int);
            assert(then.skip(then.len() - left.len()) =~= given.skip(given.len() - left.len()));
            assert(fewer =~= messages.take(i) + messages.skip(i + 1));
            assert(messages =~= messages.take(i) + (seq![messages[i]] + messages.skip(i + 1)));
            Seq::filter_distributes_over_add(messages.take(i), messages.skip(i + 1), is_system);
            Seq::filter_distributes_over_add(
                messages.take(i),
                seq![messages[i]] + messages.skip(i + 1),
                is_system,
            );
            Seq::filter_distributes_over_add(seq![messages[i]], messages.skip(i + 1), is_system);
            lemma_one_filtered(messages[i], is_system);
            assert(fewer.filter(is_system) =~= messages.filter(is_system));
            assert(fewer[0] == messages[0]);
            assert(fewer[next] == messages[keep]);
        } else if last_user(messages) is Some {
            let u = last_user(messages)->0;
            assert(u == keep);
            let over = (counted_bytes(messages) - max) as nat;
            let next = shortened(messages[u].content, over);
            lemma_same_user(messages, u, next);
            let m = MessageView { content: next, ..messages[u] };
            let shorter = messages.update(u, m);
            lemma_kept(shorter, u);
            lemma_history_beside(messages, u, m, messages.len() as int);
            let given = history_before(messages, keep, messages.len() as int);
            assert(messages =~= messages.take(u) + (seq![messages[u]] + messages.skip(u + 1)));
            assert(shorter =~= messages.take(u) + (seq![m] + messages.skip(u + 1)));
            Seq::filter_distributes_over_add(
                messages.take(u),
                seq![messages[u]] + messages.skip(u + 1),
                is_system,
            );
            Seq::filter_distributes_over_add(
                messages.take(u),
                seq![m] + messages.skip(u + 1),
                is_system,
            );
            Seq::filter_distributes_over_add(seq![messages[u]], messages.skip(u + 1), is_system);
            Seq::filter_distributes_over_add(seq![m], messages.skip(u + 1), is_system);
            lemma_roles_differ();
            lemma_one_filtered(messages[u], is_system);
            lemma_one_filtered(m, is_system);
            assert(shorter.filter(is_system) =~= messages.filter(is_system));
            if messages.len() > 2 {
                assert forall|j: int| 1 <= j < messages.len() implies (
                #[trigger] messages[j]).role == "system"@ || j == keep by {
                    lemma_kept(messages, j);
                }
                lemma_no_history(messages, keep, messages.len() as int);
            }
            let c = messages[u].content;
            let n: int = if c.len() >= over + 32 {
                c.len() - (over + 32)
            } else {
                0
            };
            assert(next == c.take(n) + "…"@);
            if next.len() < c.len() {
                law_remaining_history_is_a_suffix(shorter, max, u, kept);
                lemma_settled_len(shorter, max);
                if out[kept].content != next {
                    let k = choose|k: int|
                        (k == 0 || 0 < k < next.len() - 32) && out[kept].content == (
                        #[trigger] next.take(k)) + "…"@;
                    reveal_strlit("…");
                    assert(next.take(k) =~= c.take(k));
                }
            } else {
                assert(given.skip(0) =~= given);
            }
        } else {
            let given = history_before(messages, keep, messages.len() as int);
            assert(given.skip(0) =~= given);
        }
    }
}

/// Messages go one at a time, and only while they are too many: what fits stays
/// as it is, and what does not fit comes to the same as without its oldest message.
pub proof fn law_settling_goes_step_by_step(messages: Seq<MessageView>, max: nat, i: int)
    requires
        1 <= i < messages.len(),
        messages.len() > 2,
        messages[i].role != "system"@,
        !is_kept(messages, i),
        forall|j: int|
            1 <= j < i ==> (#[trigger] messages[j]).role == "system"@ || is_kept(messages, j),
    ensures
        prompt_bytes(messages) <= max ==> settled(messages, max) == Some(messages),
        max < usize::MAX && prompt_bytes(messages) > max ==> settled(messages, max) == settled(
            messages.remove(i),
            max,
        ),
{
    law_oldest_message_is_dropped_first(messages);
    match droppable(messages) {
        Some(k) => {
            if k < i {
                assert(messages[k].role == "system"@ || is_kept(messages, k));
            }
            if i < k {
                assert(messages[i].role == "system"@ || is_kept(messages, i));
            }
        },
        None => {
            assert(messages[i].role == "system"@ || is_kept(messages, i));
        },
    }
}

/// Where no message may go any more, the last message of the user is cut at its end by
/// what is too much and a margin of thirty-two characters, and so again until it fits
/// or nothing more of it can go.
pub proof fn law_question_is_cut_by_what_is_too_much(messages: Seq<MessageView>, max: nat, u: int)
    requires
        max < prompt_bytes(messages) <= usize::MAX,
        0 <= u < messages.len(),
        messages[u].role == "user"@,
        forall|k: int| u < k < messages.len() ==> (#[trigger] messages[k]).role != "user"@,
        messages.len() <= 2 || forall|j: int|
            1 <= j < messages.len() ==> (#[trigger] messages[j]).role == "system"@ || j == u,
    ensures
        ({
            let content = messages[u].content;
            let cut = prompt_bytes(messages) - max + 32;
            let rest = if content.len() >= cut {
                content.take(content.len() - cut)
            } else {
                Seq::empty()
            };
            let shorter = messages.update(u, MessageView { content: rest + "…"@, ..messages[u] });
            &&& rest.len() + 1 < content.len() ==> settled(messages, max) == settled(shorter, max)
            &&& rest.len() + 1 >= content.len() && counted_bytes(shorter) <= max ==> settled(
                messages,
                max,
            ) == Some(shorter)
            &&& rest.len() + 1 >= content.len() && counted_bytes(shorter) > max ==> settled(
                messages,
                max,
            ) is None
        }),
{
    law_oldest_message_is_dropped_first(messages);
    lemma_last_user_is(messages, u);
    reveal_strlit("…");
    if droppable(messages) is Some {
        let i = droppable(messages)->0;
        assert(messages[i].role == "system"@ || i == u);
        lemma_kept(messages, i);
    }
    let content = messages[u].content;
    let over = (counted_bytes(messages) - max) as nat;
    if content.len() < over + 32 {
        assert(content.take(0) =~= Seq::empty());
    }
}

/// Every byte of every role and of every content counts, once.
pub proof fn law_every_byte_counts(a: Seq<MessageView>, b: Seq<MessageView>, m: MessageView)
    ensures
        prompt_bytes(a + b) == prompt_bytes(a) + prompt_bytes(b),
        prompt_bytes(seq![m]) == byte_len(m.role) + byte_len(m.content),
        prompt_bytes(Seq::empty()) == 0,
        counted_bytes(a) <= prompt_bytes(a),
        prompt_bytes(a) <= usize::MAX ==> counted_bytes(a) == prompt_bytes(a),
        prompt_bytes(a) > usize::MAX ==> counted_bytes(a) == usize::MAX,
    decreases b.len(),
{
    assert(seq![m].drop_last() =~= Seq::empty());
    reveal_with_fuel(prompt_bytes, 2);
    if b.len() == 0 {
        assert(a + b =~= a);
    } else {
        law_every_byte_counts(a, b.drop_last(), m);
        assert((a + b).drop_last() =~= a + b.drop_last());
        assert((a + b).last() == b.last());
    }
}

/// Where context has to give way, the first block of it is cut at its end by what is
/// too much and a margin. If that is not enough it goes, and so do the next ones.
pub proof fn law_context_is_cut_and_then_dropped(messages: Seq<MessageView>, max: nat, i: int)
    requires
        max < usize::MAX,
        prompt_bytes(messages) <= usize::MAX,
        settled(messages, max) is None,
        1 <= i < messages.len(),
        messages[i].role == "system"@,
        forall|j: int| 1 <= j < i ==> (#[trigger] messages[j]).role != "system"@,
    ensures
        ({
            let content = messages[i].content;
            let cut = prompt_bytes(messages) - max + 32;
            let rest = if content.len() >= cut {
                content.take(content.len() - cut)
            } else {
                Seq::empty()
            };
            let less = messages.update(i, MessageView { content: rest + "…"@, ..messages[i] });
            &&& prompt_bytes(messages) > max
            &&& prompt_bytes(less) <= max ==> fitted(messages, max) == Some(less)
            &&& prompt_bytes(less) > max ==> fitted(messages, max) == fitted(
                messages.remove(i),
                max,
            )
        }),
{
    lemma_context(messages, 1);
    let k = context_from(messages, 1)->0;
    lemma_first_context(messages, 1);
    if k < i {
        assert(messages[k].role == "system"@);
    }
    if i < k {
        assert(messages[i].role != "system"@);
    }
    let content = messages[i].content;
    let over = (counted_bytes(messages) - max) as nat;
    if content.len() < over + 32 {
        assert(content.take(0) =~= Seq::empty());
    }
}

proof fn lemma_first_context(messages: Seq<MessageView>, i: int)
    requires
        0 <= i,
    ensures
        context_from(messages, i) matches Some(k) ==> forall|j: int|
            i <= j < k ==> (#[trigger] messages[j]).role != "system"@,
    decreases messages.len() - i,
{
    if i < messages.len() && messages[i].role != "system"@ {
        lemma_first_context(messages, i + 1);
        if context_from(messages, i) is Some {
            let k = context_from(messages, i)->0;
            assert forall|j: int| i <= j < k implies (#[trigger] messages[j]).role
                != "system"@ by {
                if j > i {
                    assert(i + 1 <= j < k);
                }
            }
        }
    }
}

/// Local context gives way last: where dropping history and cutting the question
/// is enough, context stays untouched.
pub proof fn law_context_gives_way_last(messages: Seq<MessageView>, max: nat)
    requires
        settled(messages, max) is Some,
    ensures
        fitted(messages, max) == settled(messages, max),
{
}

/// Whether the system prompt in front leaves room for a message of the user that
/// is cut down to an ellipsis.
pub open spec fn leaves_room(messages: Seq<MessageView>, max: nat) -> bool {
    &&& messages.len() > 0
    &&& messages[0].role == "system"@
    &&& byte_len("system"@) + byte_len(messages[0].content) + byte_len("user"@) + byte_len("…"@)
        <= max
}

proof fn lemma_two_settle(messages: Seq<MessageView>, max: nat)
    requires
        max < usize::MAX,
        leaves_room(messages, max),
        messages.len() == 2,
        messages[1].role == "user"@,
    ensures
        settled(messages, max) is Some,
    decreases messages[1].content.len(),
{
    lemma_last_user_is(messages, 1);
    if counted_bytes(messages) > max {
        let over = (counted_bytes(messages) - max) as nat;
        let next = shortened(messages[1].content, over);
        let m = MessageView { content: next, ..messages[1] };
        let shorter = messages.update(1, m);
        reveal_strlit("…");
        if next.len() < messages[1].content.len() {
            lemma_two_settle(shorter, max);
        } else {
            assert(next =~= "…"@);
            assert(shorter.drop_last().drop_last() =~= Seq::empty());
            assert(shorter.drop_last().last() == messages[0]);
            reveal_with_fuel(prompt_bytes, 3);
            assert(prompt_bytes(shorter) == byte_len("system"@) + byte_len(messages[0].content)
                + byte_len("user"@) + byte_len("…"@));
        }
    }
}

proof fn lemma_roles_differ()
    ensures
        "system"@ != "user"@,
{
    reveal_strlit("system");
    reveal_strlit("user");
    assert("system"@.len() == 6);
    assert("user"@.len() == 4);
}

/// Dropping a message other than the last one of the user keeps that one.
proof fn lemma_user_stays(messages: Seq<MessageView>, i: int)
    requires
        0 <= i < messages.len(),
        last_user(messages) is Some,
        i != last_user(messages)->0,
    ensures
        last_user(messages.remove(i)) is Some,
{
    lemma_last_user(messages);
    let u = last_user(messages)->0;
    let fewer = messages.remove(i);
    let v = if u < i { u } else { u - 1 };
    assert(fewer[v] == messages[u]);
    assert forall|k: int| v < k < fewer.len() implies (#[trigger] fewer[k]).role != "user"@ by {
        let j = if k < i { k } else { k + 1 };
        assert(fewer[k] == messages[j]);
    }
    lemma_last_user_is(fewer, v);
}

/// Without local context, a system prompt that leaves room is all that it takes.
proof fn lemma_settles_without_context(messages: Seq<MessageView>, max: nat)
    requires
        max < usize::MAX,
        leaves_room(messages, max),
        last_user(messages) is Some,
        context_from(messages, 1) is None,
    ensures
        settled(messages, max) is Some,
    decreases messages.len(),
{
    lemma_last_user(messages);
    lemma_context(messages, 1);
    lemma_roles_differ();
    let u = last_user(messages)->0;
    if counted_bytes(messages) > max {
        if messages.len() > 2 {
            let k: int = if u == 1 { 2 } else { 1 };
            assert(messages[k].role != "system"@);
            if u == 1 {
                assert(droppable_from(messages, u, 1) == droppable_from(messages, u, 2));
            }
            assert(droppable(messages) == Some(k));
            let fewer = messages.remove(k);
            lemma_user_stays(messages, k);
            lemma_context(fewer, 1);
            if context_from(fewer, 1) is Some {
                let c = context_from(fewer, 1)->0;
                let j = if c < k { c } else { c + 1 };
                assert(fewer[c] == messages[j]);
            }
            assert(fewer[0] == messages[0]);
            lemma_settles_without_context(fewer, max);
        } else {
            assert(u == 1);
            lemma_two_settle(messages, max);
        }
    }
}

/// A prompt can be brought to size wherever the system prompt leaves room for the
/// last message of the user, however much context and history there is.
pub proof fn law_room_is_enough(messages: Seq<MessageView>, max: nat)
    requires
        max < usize::MAX,
        leaves_room(messages, max),
        last_user(messages) is Some,
    ensures
        fitted(messages, max) is Some,
    decreases messages.len(),
{
    lemma_context(messages, 1);
    lemma_last_user(messages);
    lemma_roles_differ();
    match context_from(messages, 1) {
        None => {
            lemma_settles_without_context(messages, max);
        },
        Some(i) => {
            let fewer = messages.remove(i);
            assert(fewer[0] == messages[0]);
            lemma_user_stays(messages, i);
            law_room_is_enough(fewer, max);
        },
    }
}

/// What comes out is within the budget, unless there is no message of the user
/// that could be shortened. The system message in front stays as it is, the last
/// message of the user is never dropped, and none comes behind it that did not
/// before.
pub proof fn law_fitted_is_within_budget(messages: Seq<MessageView>, max: nat)
    requires
        fitted(messages, max) is Some,
        messages.len() > 0,
        messages[0].role == "system"@,
    ensures
        ({
            let out = fitted(messages, max)->0;
            &&& counted_bytes(out) <= max || last_user(out) is None
            &&& 0 < out.len() <= messages.len()
            &&& out[0] == messages[0]
            &&& last_user(messages) is Some ==> last_user(out) is Some
            &&& messages.last().role == "user"@ ==> out.last().role == "user"@
        }),
    decreases messages.len(),
{
    match settled(messages, max) {
        Some(_) => {
            law_settled_is_within_budget(messages, max);
            law_settled_keeps_system_and_user(messages, max);
            lemma_settled_len(messages, max);
        },
        None => {
            lemma_context(messages, 1);
            lemma_last_user(messages);
            lemma_roles_differ();
            let i = context_from(messages, 1)->0;
            let m = MessageView {
                content: shortened(
                    messages[i].content,
                    (counted_bytes(messages) - max) as nat,
                ),
                ..messages[i]
            };
            let less = messages.update(i, m);
            if counted_bytes(less) <= max {
                if last_user(messages) is Some {
                    let u = last_user(messages)->0;
                    assert(less[u] == messages[u]);
                    assert forall|k: int| u < k < less.len() implies (#[trigger] less[k]).role
                        != "user"@ by {
                        assert(messages[k].role != "user"@);
                    }
                    lemma_last_user_is(less, u);
                }
            } else {
                let fewer = messages.remove(i);
                assert(fewer[0] == messages[0]);
                if last_user(messages) is Some {
                    lemma_user_stays(messages, i);
                }
                if messages.last().role == "user"@ {
                    assert(i < messages.len() - 1);
                    assert(fewer.last() == messages.last());
                }
                law_fitted_is_within_budget(fewer, max);
            }
        },
    }
}

/// Texts with commas between them.
pub open spec fn joined(parts: Seq<Seq<char>>) -> Seq<char>
    decreases parts.len(),
{
    if parts.len() == 0 {
        Seq::empty()
    } else if parts.len() == 1 {
        parts[0]
    } else {
        joined(parts.drop_last()) + ","@ + parts.last()
    }
}

/// Joined texts are the first and, for each further one, a comma and that one.
pub proof fn law_joined_with_commas(parts: Seq<Seq<char>>)
    ensures
        parts.len() == 0 ==> joined(parts).len() == 0,
        parts.len() > 0 ==> joined(parts) == parts[0] + Seq::new(
            (parts.len() - 1) as nat,
            |i: int| ","@ + parts[i + 1],
        ).flatten(),
    decreases parts.len(),
{
    if parts.len() > 0 {
        let tail = Seq::new((parts.len() - 1) as nat, |i: int| ","@ + parts[i + 1]);
        tail.lemma_flatten_and_flatten_alt_are_equivalent();
        if parts.len() == 1 {
            assert(tail =~= Seq::empty());
            assert(joined(parts) =~= parts[0] + tail.flatten());
        } else {
            let front = parts.drop_last();
            law_joined_with_commas(front);
            let before = Seq::new((front.len() - 1) as nat, |i: int| ","@ + front[i + 1]);
            before.lemma_flatten_and_flatten_alt_are_equivalent();
            assert(tail.drop_last() =~= before);
            assert(joined(parts) =~= parts[0] + tail.flatten());
        }
    }
}

fn join(parts: &Vec<String>) -> (r: String)
    ensures
        r@ == joined(views(parts@)),
{
    let ghost all = views(parts@);
    let mut out: String = String::new();
    let mut i: usize = 0;
    proof {
        assert(out@ =~= joined(all.take(0)));
    }
    while i < parts.len()
        invariant
            i <= parts@.len(),
            all == views(parts@),
            out@ == joined(all.take(i as int)),
        decreases parts@.len() - i,
    {
        proof {
            assert(all.take(i + 1).drop_last() =~= all.take(i as int));
            assert(all.take(i + 1).last() == parts@[i as int]@);
            assert(all.take(i + 1)[0] == all[0]);
        }
        if i > 0 {
            out.append(",");
            out.append(parts[i].as_str());
        } else {
            out = parts[i].clone();
        }
        i += 1;
    }
    proof {
        assert(all.take(all.len() as int) =~= all);
    }
    out
}

/// The section with the rolling summary.
pub open spec fn summary_section(summary: Seq<char>, cfg: PromptBuildConfig) -> Seq<char> {
    if cfg.include_summary || cfg.normalize_context_blocks {
        "[Conversation summary (local)]\n"@ + (if cfg.include_summary && trimmed(summary).len()
            > 0 {
            trimmed(summary)
        } else {
            "<EMPTY>"@
        }) + "\n\n"@
    } else {
        Seq::empty()
    }
}

/// The line of the memory item at position `i`.
pub open spec fn memory_line(item: DocView, i: int) -> Seq<char> {
    if item.tags.len() == 0 {
        "- M"@ + decimal((i + 1) as nat) + ": "@ + first_chars(item.text, 400) + "\n"@
    } else {
        "- M"@ + decimal((i + 1) as nat) + " ["@ + joined(item.tags) + "]: "@ + first_chars(
            item.text,
            400,
        ) + "\n"@
    }
}

/// The lines of the first `n` memory items.
pub open spec fn memory_lines(items: Seq<DocView>, n: int) -> Seq<char>
    decreases n,
{
    if n <= 0 {
        Seq::empty()
    } else {
        memory_lines(items, n - 1) + memory_line(items[n - 1], n - 1)
    }
}

/// The line of the recalled message at position `i`.
pub open spec fn recall_line(msg: MessageView, i: int) -> Seq<char> {
    "- R"@ + decimal((i + 1) as nat) + " "@ + msg.role + ": "@ + first_chars(msg.content, 300)
        + "\n"@
}

/// The lines of the first `n` recalled messages.
pub open spec fn recall_lines(messages: Seq<MessageView>, n: int) -> Seq<char>
    decreases n,
{
    if n <= 0 {
        Seq::empty()
    } else {
        recall_lines(messages, n - 1) + recall_line(messages[n - 1], n - 1)
    }
}

/// The lines of the empty slots from position `from` up to `to`.
pub open spec fn empty_lines(label: Seq<char>, from: int, to: int) -> Seq<char>
    decreases to - from,
{
    if from >= to {
        Seq::empty()
    } else {
        empty_lines(label, from, to - 1) + label + decimal(to as nat) + ": <EMPTY>\n"@
    }
}

/// The smaller of two numbers.
pub open spec fn smaller(a: nat, b: nat) -> int {
    if a <= b {
        a as int
    } else {
        b as int
    }
}

/// The section with the selected memory items.
pub open spec fn memory_section(items: Seq<DocView>, cfg: PromptBuildConfig) -> Seq<char> {
    if cfg.normalize_context_blocks || items.len() > 0 {
        let n = smaller(items.len(), cfg.max_memory_items as nat);
        "[Selected memory (local)]\n"@ + memory_lines(items, n) + (if cfg.normalize_context_blocks {
            empty_lines("- M"@, n, cfg.max_memory_items as int)
        } else {
            Seq::empty()
        }) + "\n"@
    } else {
        Seq::empty()
    }
}

/// The section with snippets of older messages.
pub open spec fn recall_section(recall: Seq<MessageView>, cfg: PromptBuildConfig) -> Seq<char> {
    if cfg.max_recall_snippets > 0 && (cfg.normalize_context_blocks || recall.len() > 0) {
        let n = smaller(recall.len(), cfg.max_recall_snippets as nat);
        "[Recall snippets (local)]\n"@ + recall_lines(recall, n) + (if cfg.normalize_context_blocks {
            empty_lines("- R"@, n, cfg.max_recall_snippets as int)
        } else {
            Seq::empty()
        }) + "\n"@
    } else {
        Seq::empty()
    }
}

/// The slot at position `i` of the selected memory: an item with its tags and its
/// first four hundred characters, or a mark that it is empty.
pub open spec fn memory_slot(items: Seq<DocView>, i: int) -> Seq<char> {
    let label = "- M"@ + decimal((i + 1) as nat);
    if i < items.len() {
        let shown = if items[i].text.len() > 400 {
            items[i].text.take(400)
        } else {
            items[i].text
        };
        if items[i].tags.len() > 0 {
            label + " ["@ + joined(items[i].tags) + "]: "@ + shown + "\n"@
        } else {
            label + ": "@ + shown + "\n"@
        }
    } else {
        label + ": <EMPTY>\n"@
    }
}

/// The slot at position `i` of the recalled messages: who said it and its first
/// three hundred characters, or a mark that it is empty.
pub open spec fn recall_slot(recall: Seq<MessageView>, i: int) -> Seq<char> {
    let label = "- R"@ + decimal((i + 1) as nat);
    if i < recall.len() {
        let shown = if recall[i].content.len() > 300 {
            recall[i].content.take(300)
        } else {
            recall[i].content
        };
        label + " "@ + recall[i].role + ": "@ + shown + "\n"@
    } else {
        label + ": <EMPTY>\n"@
    }
}

proof fn lemma_slots_extend(slots: Seq<Seq<char>>, next: Seq<char>)
    ensures
        slots.push(next).flatten() == slots.flatten() + next,
{
    slots.lemma_flatten_and_flatten_alt_are_equivalent();
    slots.push(next).lemma_flatten_and_flatten_alt_are_equivalent();
    assert(slots.push(next).drop_last() =~= slots);
}

proof fn lemma_memory_slots(items: Seq<DocView>, n: int, to: int)
    requires
        0 <= n <= items.len(),
        n <= to,
        to > n ==> n == items.len(),
    ensures
        memory_lines(items, n) + empty_lines("- M"@, n, to) == Seq::new(
            to as nat,
            |i: int| memory_slot(items, i),
        ).flatten(),
    decreases to,
{
    let slots = Seq::new(to as nat, |i: int| memory_slot(items, i));
    if to == 0 {
        assert(slots =~= Seq::empty());
        slots.lemma_flatten_and_flatten_alt_are_equivalent();
        assert(memory_lines(items, n) + empty_lines("- M"@, n, to) =~= slots.flatten());
    } else {
        let before = Seq::new((to - 1) as nat, |i: int| memory_slot(items, i));
        assert(slots =~= before.push(memory_slot(items, to - 1)));
        lemma_slots_extend(before, memory_slot(items, to - 1));
        if to > n {
            lemma_memory_slots(items, n, to - 1);
            assert(memory_lines(items, n) + empty_lines("- M"@, n, to) =~= slots.flatten());
        } else {
            lemma_memory_slots(items, n - 1, to - 1);
            assert(memory_lines(items, n - 1) + empty_lines("- M"@, n - 1, to - 1)
                =~= memory_lines(items, n - 1));
            assert(memory_line(items[n - 1], n - 1) =~= memory_slot(items, n - 1));
            assert(memory_lines(items, n) + empty_lines("- M"@, n, to) =~= slots.flatten());
        }
    }
}

proof fn lemma_recall_slots(recall: Seq<MessageView>, n: int, to: int)
    requires
        0 <= n <= recall.len(),
        n <= to,
        to > n ==> n == recall.len(),
    ensures
        recall_lines(recall, n) + empty_lines("- R"@, n, to) == Seq::new(
            to as nat,
            |i: int| recall_slot(recall, i),
        ).flatten(),
    decreases to,
{
    let slots = Seq::new(to as nat, |i: int| recall_slot(recall, i));
    if to == 0 {
        assert(slots =~= Seq::empty());
        slots.lemma_flatten_and_flatten_alt_are_equivalent();
        assert(recall_lines(recall, n) + empty_lines("- R"@, n, to) =~= slots.flatten());
    } else {
        let before = Seq::new((to - 1) as nat, |i: int| recall_slot(recall, i));
        assert(slots =~= before.push(recall_slot(recall, to - 1)));
        lemma_slots_extend(before, recall_slot(recall, to - 1));
        if to > n {
            lemma_recall_slots(recall, n, to - 1);
            assert(recall_lines(recall, n) + empty_lines("- R"@, n, to) =~= slots.flatten());
        } else {
            lemma_recall_slots(recall, n - 1, to - 1);
            assert(recall_lines(recall, n - 1) + empty_lines("- R"@, n - 1, to - 1)
                =~= recall_lines(recall, n - 1));
            assert(recall_line(recall[n - 1], n - 1) =~= recall_slot(recall, n - 1));
            assert(recall_lines(recall, n) + empty_lines("- R"@, n, to) =~= slots.flatten());
        }
    }
}

proof fn lemma_nothing_more(text: Seq<char>)
    ensures
        text + Seq::<char>::empty() == text,
{
    assert(text + Seq::<char>::empty() =~= text);
}

proof fn lemma_grouped(a: Seq<char>, b: Seq<char>, c: Seq<char>)
    ensures
        a + b + c == a + (b + c),
{
    assert(a + b + c =~= a + (b + c));
}

/// With normalized blocks every section is there and has all of its slots, used
/// or not, so that a prompt does not show by its sections what is in use. Each
/// slot shows the item of its position, in the order in which they were ranked.
pub proof fn law_normalized_context_has_every_slot(
    summary: Seq<char>,
    retrieved: ContextView,
    cfg: PromptBuildConfig,
)
    requires
        cfg.normalize_context_blocks,
    ensures
        context_text(summary, retrieved, cfg) == ("[Conversation summary (local)]\n"@ + (
        if cfg.include_summary && trimmed(summary).len() > 0 {
            trimmed(summary)
        } else {
            "<EMPTY>"@
        }) + "\n\n"@) + ("[Selected memory (local)]\n"@ + Seq::new(
            cfg.max_memory_items as nat,
            |i: int| memory_slot(retrieved.memories, i),
        ).flatten() + "\n"@) + (if cfg.max_recall_snippets == 0 {
            Seq::empty()
        } else {
            "[Recall snippets (local)]\n"@ + Seq::new(
                cfg.max_recall_snippets as nat,
                |i: int| recall_slot(retrieved.recall, i),
            ).flatten() + "\n"@
        }),
{
    let m = smaller(retrieved.memories.len(), cfg.max_memory_items as nat);
    let r = smaller(retrieved.recall.len(), cfg.max_recall_snippets as nat);
    lemma_memory_slots(retrieved.memories, m, cfg.max_memory_items as int);
    lemma_recall_slots(retrieved.recall, r, cfg.max_recall_snippets as int);
    lemma_grouped(
        "[Selected memory (local)]\n"@,
        memory_lines(retrieved.memories, m),
        empty_lines("- M"@, m, cfg.max_memory_items as int),
    );
    lemma_grouped(
        "[Recall snippets (local)]\n"@,
        recall_lines(retrieved.recall, r),
        empty_lines("- R"@, r, cfg.max_recall_snippets as int),
    );
}

/// Without normalized blocks only what there is to say is said: the summary where
/// it is asked for, and the items that there are, up to their numbers.
pub proof fn law_plain_context_has_used_slots_only(
    summary: Seq<char>,
    retrieved: ContextView,
    cfg: PromptBuildConfig,
)
    requires
        !cfg.normalize_context_blocks,
    ensures
        ({
            let m = vstd::math::min(
                retrieved.memories.len() as int,
                cfg.max_memory_items as int,
            );
            let r = vstd::math::min(
                retrieved.recall.len() as int,
                cfg.max_recall_snippets as int,
            );
            context_text(summary, retrieved, cfg) == (if cfg.include_summary {
                "[Conversation summary (local)]\n"@ + (if trimmed(summary).len() > 0 {
                    trimmed(summary)
                } else {
                    "<EMPTY>"@
                }) + "\n\n"@
            } else {
                Seq::empty()
            }) + (if retrieved.memories.len() > 0 {
                "[Selected memory (local)]\n"@ + Seq::new(
                    m as nat,
                    |i: int| memory_slot(retrieved.memories, i),
                ).flatten() + "\n"@
            } else {
                Seq::empty()
            }) + (if r > 0 {
                "[Recall snippets (local)]\n"@ + Seq::new(
                    r as nat,
                    |i: int| recall_slot(retrieved.recall, i),
                ).flatten() + "\n"@
            } else {
                Seq::empty()
            })
        }),
{
    let m = smaller(retrieved.memories.len(), cfg.max_memory_items as nat);
    let r = smaller(retrieved.recall.len(), cfg.max_recall_snippets as nat);
    lemma_memory_slots(retrieved.memories, m, m);
    lemma_recall_slots(retrieved.recall, r, r);
    lemma_nothing_more(memory_lines(retrieved.memories, m));
    lemma_nothing_more(recall_lines(retrieved.recall, r));
    lemma_nothing_more("[Selected memory (local)]\n"@ + memory_lines(retrieved.memories, m));
    lemma_nothing_more("[Recall snippets (local)]\n"@ + recall_lines(retrieved.recall, r));
}

/// All that a prompt says of the local context.
pub open spec fn context_text(
    summary: Seq<char>,
    retrieved: ContextView,
    cfg: PromptBuildConfig,
) -> Seq<char> {
    summary_section(summary, cfg) + memory_section(retrieved.memories, cfg) + recall_section(
        retrieved.recall,
        cfg,
    )
}

fn append_empty_lines(out: &mut String, label: &str, from: usize, to: usize)
    ensures
        final(out)@ == old(out)@ + empty_lines(label@, from as int, to as int),
{
    let ghost start = out@;
    let mut k: usize = from;
    proof {
        assert(start + empty_lines(label@, from as int, from as int) =~= start);
    }
    while k < to
        invariant
            start == old(out)@,
            from <= k,
            k <= to || k == from,
            out@ == start + empty_lines(label@, from as int, k as int),
        decreases to - k,
    {
        let ghost before = out@;
        out.append(label);
        out.append(text::decimal_text((k + 1) as u64).as_str());
        out.append(": <EMPTY>\n");
        proof {
            assert(out@ =~= start + empty_lines(label@, from as int, k + 1));
        }
        k += 1;
    }
    proof {
        if from > to {
            assert(start + empty_lines(label@, from as int, to as int) =~= start);
        }
    }
}

fn write_memory_line(item: &Doc, i: usize) -> (r: String)
    requires
        i < usize::MAX,
    ensures
        r@ == memory_line(item@, i as int),
{
    let mut out: String = String::from_str("- M");
    out.append(text::decimal_text((i + 1) as u64).as_str());
    if item.tags.len() == 0 {
        out.append(": ");
    } else {
        out.append(" [");
        out.append(join(&item.tags).as_str());
        out.append("]: ");
    }
    out.append(text::take_chars(item.text.as_str(), 400).as_str());
    out.append("\n");
    proof {
        assert(out@ =~= memory_line(item@, i as int));
    }
    out
}

fn write_recall_line(msg: &ChatMessage, i: usize) -> (r: String)
    requires
        i < usize::MAX,
    ensures
        r@ == recall_line(msg@, i as int),
{
    let mut out: String = String::from_str("- R");
    out.append(text::decimal_text((i + 1) as u64).as_str());
    out.append(" ");
    out.append(msg.role.as_str());
    out.append(": ");
    out.append(text::take_chars(msg.content.as_str(), 300).as_str());
    out.append("\n");
    proof {
        assert(out@ =~= recall_line(msg@, i as int));
    }
    out
}

fn append_memory_section(out: &mut String, items: &Vec<Doc>, cfg: &PromptBuildConfig)
    ensures
        final(out)@ == old(out)@ + memory_section(doc_views(items@), *cfg),
{
    let ghost start = out@;
    let ghost all = doc_views(items@);
    if !(cfg.normalize_context_blocks || items.len() > 0) {
        proof {
            assert(start + Seq::<char>::empty() =~= start);
        }
        return;
    }
    out.append("[Selected memory (local)]\n");
    let ghost headed = out@;
    let n: usize = if items.len() <= cfg.max_memory_items {
        items.len()
    } else {
        cfg.max_memory_items
    };
    let mut i: usize = 0;
    proof {
        assert(headed + memory_lines(all, 0) =~= headed);
    }
    while i < n
        invariant
            i <= n <= items@.len(),
            all == doc_views(items@),
            out@ == headed + memory_lines(all, i as int),
        decreases n - i,
    {
        let ghost before = out@;
        out.append(write_memory_line(&items[i], i).as_str());
        proof {
            assert(all[i as int] == items@[i as int]@);
            assert(out@ == before + memory_line(all[i as int], i as int));
            assert(out@ =~= headed + memory_lines(all, i + 1));
        }
        i += 1;
    }
    let ghost listed = out@;
    if cfg.normalize_context_blocks {
        append_empty_lines(out, "- M", n, cfg.max_memory_items);
    }
    out.append("\n");
    proof {
        assert(out@ =~= start + memory_section(all, *cfg));
    }
}

fn append_recall_section(out: &mut String, recall: &Vec<ChatMessage>, cfg: &PromptBuildConfig)
    ensures
        final(out)@ == old(out)@ + recall_section(message_views(recall@), *cfg),
{
    let ghost start = out@;
    let ghost all = message_views(recall@);
    if !(cfg.max_recall_snippets > 0 && (cfg.normalize_context_blocks || recall.len() > 0)) {
        proof {
            assert(start + Seq::<char>::empty() =~= start);
        }
        return;
    }
    out.append("[Recall snippets (local)]\n");
    let ghost headed = out@;
    let n: usize = if recall.len() <= cfg.max_recall_snippets {
        recall.len()
    } else {
        cfg.max_recall_snippets
    };
    let mut i: usize = 0;
    proof {
        assert(headed + recall_lines(all, 0) =~= headed);
    }
    while i < n
        invariant
            i <= n <= recall@.len(),
            all == message_views(recall@),
            out@ == headed + recall_lines(all, i as int),
        decreases n - i,
    {
        let ghost before = out@;
        out.append(write_recall_line(&recall[i], i).as_str());
        proof {
            assert(all[i as int] == recall@[i as int]@);
            assert(out@ == before + recall_line(all[i as int], i as int));
            assert(out@ =~= headed + recall_lines(all, i + 1));
        }
        i += 1;
    }
    if cfg.normalize_context_blocks {
        append_empty_lines(out, "- R", n, cfg.max_recall_snippets);
    }
    out.append("\n");
    proof {
        assert(out@ =~= start + recall_section(all, *cfg));
    }
}

fn local_context(summary: &str, retrieved: &RetrievedContext, cfg: &PromptBuildConfig) -> (r: String)
    ensures
        r@ == context_text(summary@, retrieved@, *cfg),
{
    let mut out: String = String::new();
    if cfg.include_summary || cfg.normalize_context_blocks {
        out.append("[Conversation summary (local)]\n");
        let short = text::trim(summary);
        proof {
            text::lemma_byte_len_zero(short@);
        }
        if cfg.include_summary && text::text_bytes(short.as_str()) > 0 {
            out.append(short.as_str());
        } else {
            out.append("<EMPTY>");
        }
        out.append("\n\n");
    }
    proof {
        assert(out@ =~= summary_section(summary@, *cfg));
    }
    append_memory_section(&mut out, &retrieved.memories, cfg);
    append_recall_section(&mut out, &retrieved.recall, cfg);
    out
}

/// The note that ends every system prompt.
pub open spec fn privacy_note() -> Seq<char> {
    "\n\n[Privacy note]\nYou may see placeholders like <EMAIL_...> or <API_KEY_...>. Do not ask for the underlying values. Treat them as stable identifiers."@
}

/// A message of the system.
pub open spec fn system_message(content: Seq<char>) -> MessageView {
    plain_view("system"@, content)
}

/// The last `n` of a sequence, or all of it.
pub open spec fn last_of<T>(s: Seq<T>, n: nat) -> Seq<T> {
    if s.len() <= n {
        s
    } else {
        s.skip(s.len() - n)
    }
}

/// Messages with redacted contents, and the redactor after them.
pub open spec fn redacted_messages(
    red: RedactorView,
    messages: Seq<MessageView>,
    mode: RedactMode,
    extra_terms: Seq<Seq<char>>,
) -> (RedactorView, Seq<MessageView>)
    decreases messages.len(),
{
    if messages.len() == 0 {
        (red, Seq::empty())
    } else {
        let before = redacted_messages(red, messages.drop_last(), mode, extra_terms);
        let m = messages.last();
        let now = redaction(before.0, m.content, mode, extra_terms);
        (
            now.0,
            before.1.push(MessageView { role: m.role, content: now.1, extra: Seq::empty() }),
        )
    }
}

/// The messages of a prompt before they are brought to size: the system prompt,
/// the local context where there is any, and the recent conversation, all of it
/// redacted.
pub open spec fn assembled(
    session: SessionView,
    retrieved: ContextView,
    mode: RedactMode,
    extra_terms: Seq<Seq<char>>,
    red: RedactorView,
    cfg: PromptBuildConfig,
) -> (RedactorView, Seq<MessageView>) {
    let system = redaction(red, session.system_prompt, mode, extra_terms);
    let head = seq![system_message(system.1 + privacy_note())];
    let context = context_text(session.summary, retrieved, cfg);
    let (red2, blocks) = if trimmed(context).len() == 0 {
        (system.0, head)
    } else {
        let told = redaction(system.0, context, mode, extra_terms);
        (told.0, head.push(system_message(told.1)))
    };
    let recent = redacted_messages(
        red2,
        last_of(session.messages, cfg.max_recent_messages as nat),
        mode,
        extra_terms,
    );
    (recent.0, blocks + recent.1)
}

/// Redacting messages goes through them in order, with what the redactor has
/// learned of the earlier ones: the role stays, the content is redacted, and no
/// further members go along.
pub proof fn law_messages_are_redacted_in_turn(
    red: RedactorView,
    before: Seq<MessageView>,
    m: MessageView,
    mode: RedactMode,
    extra_terms: Seq<Seq<char>>,
)
    ensures
        ({
            let first = redacted_messages(red, before, mode, extra_terms);
            let all = redacted_messages(red, before.push(m), mode, extra_terms);
            let now = redaction(first.0, m.content, mode, extra_terms);
            &&& first.1.len() == before.len()
            &&& all.0 == now.0
            &&& all.1.len() == before.len() + 1
            &&& all.1.drop_last() == first.1
            &&& all.1.last().role == m.role
            &&& all.1.last().content == now.1
            &&& all.1.last().extra.len() == 0
            &&& redacted_messages(red, Seq::empty(), mode, extra_terms) == (
                red,
                Seq::<MessageView>::empty(),
            )
        }),
    decreases before.len(),
{
    assert(before.push(m).drop_last() =~= before);
    if before.len() > 0 {
        law_messages_are_redacted_in_turn(
            red,
            before.drop_last(),
            before.last(),
            mode,
            extra_terms,
        );
        assert(before.drop_last().push(before.last()) =~= before);
    }
    let first = redacted_messages(red, before, mode, extra_terms);
    let all = redacted_messages(red, before.push(m), mode, extra_terms);
    assert(all.1.drop_last() =~= first.1);
}

/// A prompt has the system prompt with its note in front, the local context behind
/// it unless that is blank, and then the last messages of the session, as many as
/// are wanted. All of it goes through the redactor, in this order, with the same
/// mode and the same terms.
pub proof fn law_prompt_is_made_of_redacted_parts(
    session: SessionView,
    retrieved: ContextView,
    mode: RedactMode,
    extra_terms: Seq<Seq<char>>,
    red: RedactorView,
    cfg: PromptBuildConfig,
)
    ensures
        ({
            let out = assembled(session, retrieved, mode, extra_terms, red, cfg);
            let system = redaction(red, session.system_prompt, mode, extra_terms);
            let context = context_text(session.summary, retrieved, cfg);
            let told = redaction(system.0, context, mode, extra_terms);
            let n = vstd::math::min(
                session.messages.len() as int,
                cfg.max_recent_messages as int,
            );
            let recent = session.messages.skip(session.messages.len() - n);
            let blank = trimmed(context).len() == 0;
            let said = redacted_messages(
                if blank {
                    system.0
                } else {
                    told.0
                },
                recent,
                mode,
                extra_terms,
            );
            let blocks: int = if blank {
                1
            } else {
                2
            };
            &&& out.0 == said.0
            &&& out.1.len() == blocks + n
            &&& out.1[0].role == "system"@
            &&& out.1[0].content == system.1
                + "\n\n[Privacy note]\nYou may see placeholders like <EMAIL_...> or <API_KEY_...>. Do not ask for the underlying values. Treat them as stable identifiers."@
            &&& out.1[0].extra.len() == 0
            &&& !blank ==> out.1[1].role == "system"@ && out.1[1].content == told.1
                && out.1[1].extra.len() == 0
            &&& out.1.skip(blocks) == said.1
        }),
{
    let out = assembled(session, retrieved, mode, extra_terms, red, cfg);
    let recent = last_of(session.messages, cfg.max_recent_messages as nat);
    let n = vstd::math::min(session.messages.len() as int, cfg.max_recent_messages as int);
    assert(recent =~= session.messages.skip(session.messages.len() - n));
    let system = redaction(red, session.system_prompt, mode, extra_terms);
    let context = context_text(session.summary, retrieved, cfg);
    let told = redaction(system.0, context, mode, extra_terms);
    if trimmed(context).len() == 0 {
        let said = redacted_messages(system.0, recent, mode, extra_terms);
        lemma_redacted_len(system.0, recent, mode, extra_terms);
        assert(out.1.skip(1) =~= said.1);
    } else {
        let said = redacted_messages(told.0, recent, mode, extra_terms);
        lemma_redacted_len(told.0, recent, mode, extra_terms);
        assert(out.1.skip(2) =~= said.1);
    }
}

/// Assembles the messages of a prompt.
pub fn assemble_messages(
    session: &Session,
    retrieved: &RetrievedContext,
    redact_mode: RedactMode,
    extra_redaction_terms: &Vec<String>,
    redactor: &mut Redactor,
    cfg: &PromptBuildConfig,
) -> (r: Vec<ChatMessage>)
    ensures
        (final(redactor)@, message_views(r@)) == assembled(
            session@,
            retrieved@,
            redact_mode,
            views(extra_redaction_terms@),
            old(redactor)@,
            *cfg,
        ),
{
    let ghost extra = views(extra_redaction_terms@);
    let mut messages: Vec<ChatMessage> = Vec::new();
    let mut system = redactor.redact(
        session.system_prompt.as_str(),
        redact_mode,
        extra_redaction_terms,
    );
    system.append(
        "\n\n[Privacy note]\nYou may see placeholders like <EMAIL_...> or <API_KEY_...>. Do not ask for the underlying values. Treat them as stable identifiers.",
    );
    let ghost head = seq![system_message(system@)];
    messages.push(types::plain_message("system", system));
    proof {
        assert(message_views(messages@) =~= head);
    }
    let context = local_context(session.summary.as_str(), retrieved, cfg);
    if !text::is_blank(context.as_str()) {
        let told = redactor.redact(context.as_str(), redact_mode, extra_redaction_terms);
        let ghost block = system_message(told@);
        messages.push(types::plain_message("system", told));
        proof {
            assert(message_views(messages@) =~= head.push(block));
        }
    }
    let ghost red2 = redactor@;
    let ghost blocks = message_views(messages@);
    let ghost recent = last_of(session@.messages, cfg.max_recent_messages as nat);
    let count: usize = session.messages.len();
    let start: usize = if count <= cfg.max_recent_messages {
        0
    } else {
        count - cfg.max_recent_messages
    };
    proof {
        assert(recent =~= session@.messages.skip(start as int));
        assert(blocks + redacted_messages(red2, recent.take(0), redact_mode, extra).1 =~= blocks);
    }
    let mut i: usize = start;
    while i < count
        invariant
            start <= i <= count,
            count == session.messages@.len(),
            extra == views(extra_redaction_terms@),
            recent == session@.messages.skip(start as int),
            (redactor@, message_views(messages@)) == (
                redacted_messages(red2, recent.take(i - start), redact_mode, extra).0,
                blocks + redacted_messages(red2, recent.take(i - start), redact_mode, extra).1,
            ),
        decreases count - i,
    {
        let m = &session.messages[i];
        let ghost before = message_views(messages@);
        proof {
            assert(recent.take(i + 1 - start).drop_last() =~= recent.take(i - start));
            assert(recent.take(i + 1 - start).last() == m@);
        }
        let content = redactor.redact(m.content.as_str(), redact_mode, extra_redaction_terms);
        let ghost now = MessageView { role: m.role@, content: content@, extra: Seq::empty() };
        messages.push(types::plain_message(m.role.as_str(), content));
        proof {
            assert(message_views(messages@) =~= before.push(now));
            assert(message_views(messages@) =~= blocks + redacted_messages(
                red2,
                recent.take(i + 1 - start),
                redact_mode,
                extra,
            ).1);
        }
        i += 1;
    }
    proof {
        assert(recent.take(count - start) =~= recent);
    }
    messages
}

/// Frequent words: filler made of them costs few tokens.
pub open spec fn phrases() -> Seq<Seq<char>> {
    seq![
        " the"@,
        " and"@,
        " to"@,
        " of"@,
        " in"@,
        " that"@,
        " for"@,
        " with"@,
        " on"@,
        " as"@,
        " by"@,
        " from"@,
    ]
}

/// Phrases in a row.
pub open spec fn spoken(choices: Seq<int>) -> Seq<char>
    decreases choices.len(),
{
    if choices.len() == 0 {
        Seq::empty()
    } else {
        spoken(choices.drop_last()) + phrases()[choices.last()]
    }
}

/// Whether some choices name phrases.
pub open spec fn are_choices(choices: Seq<int>) -> bool {
    forall|i: int| 0 <= i < choices.len() ==> 0 <= #[trigger] choices[i] < phrases().len()
}

/// Whether a text is filler of a given length: phrases in a row, cut off.
pub open spec fn is_filler(filler: Seq<char>, len: nat) -> bool {
    exists|choices: Seq<int>|
        are_choices(choices) && spoken(choices).len() >= len && filler == (#[trigger] spoken(
            choices,
        )).take(len as int)
}

fn phrase(i: usize) -> (r: &'static str)
    requires
        i < 12,
    ensures
        r@ == phrases()[i as int],
        1 <= r@.len() <= 5,
{
    proof {
        reveal_strlit(" the");
        reveal_strlit(" and");
        reveal_strlit(" to");
        reveal_strlit(" of");
        reveal_strlit(" in");
        reveal_strlit(" that");
        reveal_strlit(" for");
        reveal_strlit(" with");
        reveal_strlit(" on");
        reveal_strlit(" as");
        reveal_strlit(" by");
        reveal_strlit(" from");
    }
    match i {
        0 => " the",
        1 => " and",
        2 => " to",
        3 => " of",
        4 => " in",
        5 => " that",
        6 => " for",
        7 => " with",
        8 => " on",
        9 => " as",
        10 => " by",
        _ => " from",
    }
}

/// Whether a text is one of the words that filler is made of.
pub open spec fn is_filler_word(word: Seq<char>) -> bool {
    ||| word == " the"@
    ||| word == " and"@
    ||| word == " to"@
    ||| word == " of"@
    ||| word == " in"@
    ||| word == " that"@
    ||| word == " for"@
    ||| word == " with"@
    ||| word == " on"@
    ||| word == " as"@
    ||| word == " by"@
    ||| word == " from"@
}

/// Filler is a row of frequent words, each with a space before it, that is cut off at
/// its length.
pub proof fn law_filler_is_made_of_frequent_words(filler: Seq<char>, len: nat)
    requires
        is_filler(filler, len),
    ensures
        filler.len() == len,
        exists|words: Seq<Seq<char>>|
            (forall|i: int| 0 <= i < words.len() ==> is_filler_word(#[trigger] words[i])) && filler
                == (#[trigger] words.flatten()).take(len as int),
{
    let choices = choose|choices: Seq<int>|
        are_choices(choices) && spoken(choices).len() >= len && filler == (#[trigger] spoken(
            choices,
        )).take(len as int);
    let words = Seq::new(choices.len(), |i: int| phrases()[choices[i]]);
    lemma_spoken_flat(choices);
    assert forall|i: int| 0 <= i < words.len() implies is_filler_word(#[trigger] words[i]) by {
        let k = choices[i];
        assert(0 <= k < phrases().len());
        assert(phrases().len() == 12);
    }
    assert(words.flatten() == spoken(choices));
}

proof fn lemma_spoken_flat(choices: Seq<int>)
    ensures
        spoken(choices) == Seq::new(choices.len(), |i: int| phrases()[choices[i]]).flatten(),
    decreases choices.len(),
{
    let words = Seq::new(choices.len(), |i: int| phrases()[choices[i]]);
    words.lemma_flatten_and_flatten_alt_are_equivalent();
    if choices.len() == 0 {
        assert(spoken(choices) =~= words.flatten());
    } else {
        let front = choices.drop_last();
        lemma_spoken_flat(front);
        let before = Seq::new(front.len(), |i: int| phrases()[front[i]]);
        before.lemma_flatten_and_flatten_alt_are_equivalent();
        assert(words.drop_last() =~= before);
    }
}

proof fn lemma_spoken_ascii(choices: Seq<int>)
    requires
        are_choices(choices),
    ensures
        vstd::utf8::is_ascii_chars(spoken(choices)),
    decreases choices.len(),
{
    if choices.len() > 0 {
        let front = choices.drop_last();
        assert(are_choices(front)) by {
            assert forall|i: int| 0 <= i < front.len() implies 0 <= #[trigger] front[i]
                < phrases().len() by {
                assert(front[i] == choices[i]);
            }
        }
        lemma_spoken_ascii(front);
        let k = choices[choices.len() - 1];
        assert(0 <= k < 12);
        lemma_phrase_ascii(k);
    }
}

proof fn lemma_phrase_ascii(k: int)
    requires
        0 <= k < 12,
    ensures
        vstd::utf8::is_ascii_chars(phrases()[k]),
{
    reveal_strlit(" the");
    reveal_strlit(" and");
    reveal_strlit(" to");
    reveal_strlit(" of");
    reveal_strlit(" in");
    reveal_strlit(" that");
    reveal_strlit(" for");
    reveal_strlit(" with");
    reveal_strlit(" on");
    reveal_strlit(" as");
    reveal_strlit(" by");
    reveal_strlit(" from");
}

proof fn lemma_filler_bytes(filler: Seq<char>, len: nat)
    requires
        is_filler(filler, len),
    ensures
        filler.len() == len,
        byte_len(filler) == len,
{
    let choices = choose|choices: Seq<int>|
        are_choices(choices) && spoken(choices).len() >= len && filler == (#[trigger] spoken(
            choices,
        )).take(len as int);
    lemma_spoken_ascii(choices);
    assert forall|i: int| 0 <= i < filler.len() implies '\0' <= #[trigger] filler[i]
        <= '\u{7f}' by {
        assert(filler[i] == spoken(choices)[i]);
    }
    vstd::utf8::is_ascii_chars_encode_utf8(filler);
}

/// Low-entropy filler with a little randomness, so that it is not the same in
/// every request.
fn filler_for_privacy(len: usize) -> (r: String)
    requires
        len <= usize::MAX - 5,
    ensures
        is_filler(r@, len as nat),
{
    let mut out: String = String::new();
    let mut have: usize = 0;
    let ghost mut choices: Seq<int> = Seq::empty();
    proof {
        assert(out@ =~= spoken(choices));
    }
    while have < len
        invariant
            len <= usize::MAX - 5,
            have <= len + 5,
            have == out@.len(),
            are_choices(choices),
            out@ == spoken(choices),
        decreases len + 5 - have,
    {
        let k: usize = crypto::random_index(12);
        let p = phrase(k);
        proof {
            let before = choices;
            choices = choices.push(k as int);
            assert(choices.drop_last() =~= before);
            lemma_phrase_ascii(k as int);
            vstd::utf8::is_ascii_chars_encode_utf8(p@);
        }
        out.append(p);
        have = have + text::text_bytes(p);
    }
    let r = text::take_chars(out.as_str(), len);
    proof {
        assert(r@ =~= spoken(choices).take(len as int));
    }
    r
}

/// How much filler messages call for: what is missing to the limit, less room
/// for the markers, and not more than is allowed.
pub open spec fn padding_need(messages: Seq<MessageView>, max: nat, max_padding: nat) -> Option<
    nat,
> {
    if messages.len() == 0 || counted_bytes(messages) + 128 >= max {
        None
    } else {
        Some(smaller((max - counted_bytes(messages) - 128) as nat, max_padding) as nat)
    }
}

/// Filler between its markers.
pub open spec fn padding_block(filler: Seq<char>) -> Seq<char> {
    "\n\n[PADDING_FOR_PRIVACY_BEGIN]\nIGNORE EVERYTHING IN THIS BLOCK.\n"@ + filler
        + "\n[PADDING_FOR_PRIVACY_END]"@
}

/// Messages whose first has lost as many characters at its end as it takes to
/// come down to `max` bytes, or all of them.
pub open spec fn popped(messages: Seq<MessageView>, max: nat) -> Seq<MessageView>
    decreases messages[0].content.len(),
{
    if counted_bytes(messages) <= max || messages.len() == 0 || messages[0].content.len() == 0 {
        messages
    } else {
        popped(
            messages.update(
                0,
                MessageView { content: messages[0].content.drop_last(), ..messages[0] },
            ),
            max,
        )
    }
}

/// Messages whose first is padded with filler.
pub open spec fn padded_messages(
    messages: Seq<MessageView>,
    max: nat,
    filler: Seq<char>,
) -> Seq<MessageView> {
    popped(
        messages.update(
            0,
            MessageView { content: messages[0].content + padding_block(filler), ..messages[0] },
        ),
        max,
    )
}

fn need_padding(messages: &Vec<ChatMessage>, max: usize, max_padding: usize) -> (r: Option<usize>)
    requires
        max <= 1_000_000,
    ensures
        match padding_need(message_views(messages@), max as nat, max_padding as nat) {
            Some(n) => r == Some(n as usize) && n <= max,
            None => r is None,
        },
{
    if messages.len() == 0 {
        return None;
    }
    let current: usize = approx_prompt_bytes(messages);
    if current >= max {
        return None;
    }
    let need: usize = max - current;
    if need <= 128 {
        return None;
    }
    let room: usize = need - 128;
    if room <= max_padding {
        Some(room)
    } else {
        Some(max_padding)
    }
}

fn with_content(message: &ChatMessage, content: String) -> (r: ChatMessage)
    ensures
        r@ == (MessageView { content: content@, ..message@ }),
{
    ChatMessage {
        role: message.role.clone(),
        content,
        extra: crate::json::copy_fields(&message.extra),
    }
}

/// Pads the first message with given filler.
pub fn pad_with_filler(given: Vec<ChatMessage>, max: usize, filler: &str) -> (r: Vec<ChatMessage>)
    requires
        given@.len() > 0,
    ensures
        message_views(r@) == padded_messages(message_views(given@), max as nat, filler@),
{
    let ghost start = message_views(given@);
    let mut messages = given;
    let mut content = messages[0].content.clone();
    content.append("\n\n[PADDING_FOR_PRIVACY_BEGIN]\nIGNORE EVERYTHING IN THIS BLOCK.\n");
    content.append(filler);
    content.append("\n[PADDING_FOR_PRIVACY_END]");
    proof {
        assert(content@ =~= start[0].content + padding_block(filler@));
    }
    let first = with_content(&messages[0], content);
    messages.set(0, first);
    proof {
        assert(message_views(messages@) =~= start.update(
            0,
            MessageView { content: content@, ..start[0] },
        ));
    }
    while approx_prompt_bytes(&messages) > max
        invariant
            messages@.len() > 0,
            start == message_views(given@),
            padded_messages(start, max as nat, filler@) == popped(
                message_views(messages@),
                max as nat,
            ),
        decreases message_views(messages@)[0].content.len(),
    {
        let ghost now = message_views(messages@);
        let count: usize = text::chars_of(messages[0].content.as_str()).len();
        if count == 0 {
            return messages;
        }
        let shorter = text::take_chars(messages[0].content.as_str(), count - 1);
        let less = with_content(&messages[0], shorter);
        messages.set(0, less);
        proof {
            assert(shorter@ =~= now[0].content.drop_last());
            assert(message_views(messages@) =~= now.update(
                0,
                MessageView { content: now[0].content.drop_last(), ..now[0] },
            ));
        }
    }
    messages
}

proof fn lemma_prompt_bytes_update(messages: Seq<MessageView>, i: int, m: MessageView)
    requires
        0 <= i < messages.len(),
    ensures
        prompt_bytes(messages.update(i, m)) + byte_len(messages[i].role) + byte_len(
            messages[i].content,
        ) == prompt_bytes(messages) + byte_len(m.role) + byte_len(m.content),
    decreases messages.len(),
{
    let after = messages.update(i, m);
    if i == messages.len() - 1 {
        assert(after.drop_last() =~= messages.drop_last());
    } else {
        lemma_prompt_bytes_update(messages.drop_last(), i, m);
        assert(after.drop_last() =~= messages.drop_last().update(i, m));
    }
}

proof fn lemma_block_bytes(filler: Seq<char>)
    ensures
        byte_len(padding_block(filler)) <= byte_len(filler) + 128,
{
    let begin = "\n\n[PADDING_FOR_PRIVACY_BEGIN]\nIGNORE EVERYTHING IN THIS BLOCK.\n"@;
    let end = "\n[PADDING_FOR_PRIVACY_END]"@;
    reveal_strlit("\n\n[PADDING_FOR_PRIVACY_BEGIN]\nIGNORE EVERYTHING IN THIS BLOCK.\n");
    reveal_strlit("\n[PADDING_FOR_PRIVACY_END]");
    vstd::utf8::is_ascii_chars_encode_utf8(begin);
    vstd::utf8::is_ascii_chars_encode_utf8(end);
    text::law_encode_concat(begin, filler);
    text::law_encode_concat(begin + filler, end);
}

/// Padding keeps within the budget: filler of the length that is called for
/// never has to be cut back.
pub proof fn law_padding_fits(
    messages: Seq<MessageView>,
    max: nat,
    max_padding: nat,
    filler: Seq<char>,
)
    requires
        max <= usize::MAX,
        padding_need(messages, max, max_padding) is Some,
        is_filler(filler, padding_need(messages, max, max_padding)->0),
    ensures
        counted_bytes(padded_messages(messages, max, filler)) <= max,
        padded_messages(messages, max, filler) == messages.update(
            0,
            MessageView { content: messages[0].content + padding_block(filler), ..messages[0] },
        ),
{
    let need = padding_need(messages, max, max_padding)->0;
    lemma_filler_bytes(filler, need);
    lemma_block_bytes(filler);
    let m = MessageView {
        content: messages[0].content + padding_block(filler),
        ..messages[0]
    };
    text::law_encode_concat(messages[0].content, padding_block(filler));
    lemma_prompt_bytes_update(messages, 0, m);
}

/// Filler is called for exactly where more than the markers' room is left, and as
/// much of it as takes the prompt to the limit, or the most that is allowed.
pub proof fn law_padding_fills_what_is_left(messages: Seq<MessageView>, max: nat, max_padding: nat)
    requires
        max < usize::MAX,
    ensures
        padding_need(messages, max, max_padding) is Some <==> messages.len() > 0 && prompt_bytes(
            messages,
        ) + 128 < max,
        padding_need(messages, max, max_padding) matches Some(n) ==> n <= max_padding
            && prompt_bytes(messages) + n + 128 <= max && (n == max_padding || prompt_bytes(
            messages,
        ) + n + 128 == max),
{
}

/// Padding changes nothing but the end of the first message: what it said is
/// still there, in front of a block between two markers that holds the filler.
pub proof fn law_padding_stands_between_markers(
    messages: Seq<MessageView>,
    max: nat,
    max_padding: nat,
    filler: Seq<char>,
)
    requires
        max <= usize::MAX,
        padding_need(messages, max, max_padding) is Some,
        is_filler(filler, padding_need(messages, max, max_padding)->0),
    ensures
        ({
            let out = padded_messages(messages, max, filler);
            &&& filler.len() == padding_need(messages, max, max_padding)->0
            &&& out.len() == messages.len()
            &&& out.skip(1) == messages.skip(1)
            &&& out[0].role == messages[0].role
            &&& out[0].extra == messages[0].extra
            &&& out[0].content == messages[0].content
                + "\n\n[PADDING_FOR_PRIVACY_BEGIN]\nIGNORE EVERYTHING IN THIS BLOCK.\n"@ + filler
                + "\n[PADDING_FOR_PRIVACY_END]"@
        }),
{
    law_padding_fits(messages, max, max_padding, filler);
    lemma_filler_bytes(filler, padding_need(messages, max, max_padding)->0);
    let out = padded_messages(messages, max, filler);
    assert(out.skip(1) =~= messages.skip(1));
    assert(out[0].content =~= messages[0].content
        + "\n\n[PADDING_FOR_PRIVACY_BEGIN]\nIGNORE EVERYTHING IN THIS BLOCK.\n"@ + filler
        + "\n[PADDING_FOR_PRIVACY_END]"@);
}

/// The messages of a prompt brought to size with given filler, if they can be.
pub open spec fn finished(
    messages: Seq<MessageView>,
    max: nat,
    cfg: PromptBuildConfig,
    filler: Seq<char>,
) -> Option<Seq<MessageView>> {
    match fitted(messages, max) {
        None => None,
        Some(fit) => if cfg.pad_system_prompt && padding_need(
            fit,
            max,
            cfg.max_padding_bytes as nat,
        ) is Some {
            Some(padded_messages(fit, max, filler))
        } else {
            Some(fit)
        },
    }
}

/// A prompt is padded where that is asked for and there is room, and is otherwise
/// what it was brought to.
pub proof fn law_padding_is_asked_for(
    messages: Seq<MessageView>,
    max: nat,
    cfg: PromptBuildConfig,
    filler: Seq<char>,
)
    requires
        max < usize::MAX,
        fitted(messages, max) is Some,
    ensures
        ({
            let fit = fitted(messages, max)->0;
            let out = finished(messages, max, cfg, filler);
            &&& !cfg.pad_system_prompt || prompt_bytes(fit) + 128 >= max ==> out == Some(fit)
            &&& cfg.pad_system_prompt && fit.len() > 0 && prompt_bytes(fit) + 128 < max ==> out
                == Some(padded_messages(fit, max, filler))
        }),
{
}

/// Whether filler has the length that the messages of a prompt call for.
pub open spec fn filler_suits(
    messages: Seq<MessageView>,
    max: nat,
    cfg: PromptBuildConfig,
    filler: Seq<char>,
) -> bool {
    match fitted(messages, max) {
        None => true,
        Some(fit) => match padding_need(fit, max, cfg.max_padding_bytes as nat) {
            None => true,
            Some(need) => cfg.pad_system_prompt ==> is_filler(filler, need),
        },
    }
}

/// Builds a minimal remote prompt from a session and what was retrieved for it.
///
/// Long-term memory stays local; what is relevant is revealed, redacted, within
/// the budget of the class and padded toward it.
pub fn build_remote_messages_with_retrieval(
    session: &Session,
    retrieved: &RetrievedContext,
    token_class: TokenClass,
    redact_mode: RedactMode,
    extra_redaction_terms: &Vec<String>,
    redactor: &mut Redactor,
    cfg: &PromptBuildConfig,
) -> (r: Vec<ChatMessage>)
    requires
        fitted(
            assembled(
                session@,
                retrieved@,
                redact_mode,
                views(extra_redaction_terms@),
                old(redactor)@,
                *cfg,
            ).1,
            token_class.prompt_limit(),
        ) is Some,
    ensures
        ({
            let (red, messages) = assembled(
                session@,
                retrieved@,
                redact_mode,
                views(extra_redaction_terms@),
                old(redactor)@,
                *cfg,
            );
            &&& final(redactor)@ == red
            &&& exists|filler: Seq<char>|
                filler_suits(messages, token_class.prompt_limit(), *cfg, filler) && Some(
                    message_views(r@),
                ) == #[trigger] finished(messages, token_class.prompt_limit(), *cfg, filler)
        }),
{
    let messages = assemble_messages(
        session,
        retrieved,
        redact_mode,
        extra_redaction_terms,
        redactor,
        cfg,
    );
    let ghost whole = message_views(messages@);
    let max: usize = token_class.max_prompt_bytes();
    let fit = match enforce_budget(messages, max) {
        Some(fit) => fit,
        None => Vec::new(),
    };
    if cfg.pad_system_prompt {
        if let Some(need) = need_padding(&fit, max, cfg.max_padding_bytes) {
            let filler = filler_for_privacy(need);
            let r = pad_with_filler(fit, max, filler.as_str());
            proof {
                assert(finished(whole, max as nat, *cfg, filler@) == Some(message_views(r@)));
            }
            return r;
        }
    }
    proof {
        assert(finished(whole, max as nat, *cfg, Seq::empty()) == Some(message_views(fit@)));
    }
    fit
}

/// Context is fitted into the budget: wherever the system prompt leaves room for
/// the last message of the user, a prompt comes out that is within the budget of
/// its class, with or without padding. It begins with the system prompt and ends
/// with a message of the user.
pub proof fn law_prompt_is_within_budget(
    messages: Seq<MessageView>,
    max: nat,
    cfg: PromptBuildConfig,
    filler: Seq<char>,
)
    requires
        max < usize::MAX,
        leaves_room(messages, max),
        messages.last().role == "user"@,
        filler_suits(messages, max, cfg, filler),
    ensures
        finished(messages, max, cfg, filler) is Some,
        ({
            let out = finished(messages, max, cfg, filler)->0;
            &&& prompt_bytes(out) <= max
            &&& out.len() > 0
            &&& out[0].role == "system"@
            &&& messages[0].content.is_prefix_of(out[0].content)
            &&& out.last().role == "user"@
        }),
{
    lemma_last_user_is(messages, messages.len() - 1);
    lemma_roles_differ();
    law_room_is_enough(messages, max);
    law_fitted_is_within_budget(messages, max);
    let fit = fitted(messages, max)->0;
    assert(messages[0].content =~= messages[0].content.subrange(
        0,
        messages[0].content.len() as int,
    ));
    if cfg.pad_system_prompt && padding_need(fit, max, cfg.max_padding_bytes as nat) is Some {
        law_padding_fits(fit, max, cfg.max_padding_bytes as nat, filler);
        let out = padded_messages(fit, max, filler);
        assert(messages[0].content =~= out[0].content.subrange(
            0,
            messages[0].content.len() as int,
        ));
        assert(fit.len() > 1) by {
            if fit.len() == 1 {
                assert(fit.last() == fit[0]);
            }
        }
        assert(out.last() == fit.last());
    }
}

/// What a session says last is what its prompt says last: where the last message
/// of a session is one of the user and at least one message is sent, and where
/// the redacted system prompt leaves room for it, the prompt of the session is
/// within the budget, begins with the system prompt and ends with a message of
/// the user.
pub proof fn law_session_prompt_is_within_budget(
    session: SessionView,
    retrieved: ContextView,
    mode: RedactMode,
    extra_terms: Seq<Seq<char>>,
    red: RedactorView,
    cfg: PromptBuildConfig,
    max: nat,
    filler: Seq<char>,
)
    requires
        max < usize::MAX,
        session.messages.len() > 0,
        session.messages.last().role == "user"@,
        cfg.max_recent_messages >= 1,
        byte_len("system"@) + byte_len(
            redaction(red, session.system_prompt, mode, extra_terms).1 + privacy_note(),
        ) + byte_len("user"@) + byte_len("…"@) <= max,
        filler_suits(
            assembled(session, retrieved, mode, extra_terms, red, cfg).1,
            max,
            cfg,
            filler,
        ),
    ensures
        ({
            let out = finished(
                assembled(session, retrieved, mode, extra_terms, red, cfg).1,
                max,
                cfg,
                filler,
            );
            &&& out is Some
            &&& prompt_bytes(out->0) <= max
            &&& out->0.len() > 0
            &&& out->0[0].role == "system"@
            &&& out->0.last().role == "user"@
        }),
{
    let messages = assembled(session, retrieved, mode, extra_terms, red, cfg).1;
    let recent = last_of(session.messages, cfg.max_recent_messages as nat);
    let system = redaction(red, session.system_prompt, mode, extra_terms);
    let context = context_text(session.summary, retrieved, cfg);
    let told = redaction(system.0, context, mode, extra_terms);
    assert(recent.len() > 0 && recent.last() == session.messages.last());
    lemma_redacted_last(system.0, recent, mode, extra_terms);
    lemma_redacted_last(told.0, recent, mode, extra_terms);
    assert(messages[0] == system_message(system.1 + privacy_note()));
    law_prompt_is_within_budget(messages, max, cfg, filler);
}

proof fn lemma_redacted_last(
    red: RedactorView,
    messages: Seq<MessageView>,
    mode: RedactMode,
    extra_terms: Seq<Seq<char>>,
)
    requires
        messages.len() > 0,
    ensures
        redacted_messages(red, messages, mode, extra_terms).1.len() > 0,
        redacted_messages(red, messages, mode, extra_terms).1.last().role == messages.last().role,
{
}

proof fn lemma_settled_len(messages: Seq<MessageView>, max: nat)
    ensures
        settled(messages, max) matches Some(fit) ==> fit.len() <= messages.len(),
    decreases
            messages.len(),
            match last_user(messages) {
                Some(u) => messages[u].content.len(),
                None => 0,
            },
{
    if counted_bytes(messages) > max {
        lemma_droppable(messages);
        lemma_last_user(messages);
        if droppable(messages) is Some {
            lemma_settled_len(messages.remove(droppable(messages)->0), max);
        } else if last_user(messages) is Some {
            let u = last_user(messages)->0;
            let next = shortened(messages[u].content, (counted_bytes(messages) - max) as nat);
            lemma_same_user(messages, u, next);
            let shorter = messages.update(u, MessageView { content: next, ..messages[u] });
            if next.len() < messages[u].content.len() {
                lemma_settled_len(shorter, max);
            }
        }
    }
}

proof fn lemma_fitted_len(messages: Seq<MessageView>, max: nat)
    ensures
        fitted(messages, max) matches Some(fit) ==> fit.len() <= messages.len(),
    decreases messages.len(),
{
    lemma_settled_len(messages, max);
    lemma_context(messages, 1);
    if settled(messages, max) is None && context_from(messages, 1) is Some {
        lemma_fitted_len(messages.remove(context_from(messages, 1)->0), max);
    }
}

proof fn lemma_popped_len(messages: Seq<MessageView>, max: nat)
    ensures
        popped(messages, max).len() == messages.len(),
    decreases messages[0].content.len(),
{
    if !(counted_bytes(messages) <= max || messages.len() == 0 || messages[0].content.len() == 0) {
        lemma_popped_len(
            messages.update(
                0,
                MessageView { content: messages[0].content.drop_last(), ..messages[0] },
            ),
            max,
        );
    }
}

proof fn lemma_redacted_len(
    red: RedactorView,
    messages: Seq<MessageView>,
    mode: RedactMode,
    extra_terms: Seq<Seq<char>>,
)
    ensures
        redacted_messages(red, messages, mode, extra_terms).1.len() == messages.len(),
    decreases messages.len(),
{
    if messages.len() > 0 {
        lemma_redacted_len(red, messages.drop_last(), mode, extra_terms);
    }
}

/// However long the conversation, a prompt holds no more than the system prompt,
/// one block of local context and the configured number of recent messages.
pub proof fn law_history_stays_local(
    session: SessionView,
    retrieved: ContextView,
    mode: RedactMode,
    extra_terms: Seq<Seq<char>>,
    red: RedactorView,
    cfg: PromptBuildConfig,
    max: nat,
    filler: Seq<char>,
)
    requires
        finished(
            assembled(session, retrieved, mode, extra_terms, red, cfg).1,
            max,
            cfg,
            filler,
        ) is Some,
    ensures
        finished(
            assembled(session, retrieved, mode, extra_terms, red, cfg).1,
            max,
            cfg,
            filler,
        )->0.len() <= 2 + cfg.max_recent_messages,
{
    let messages = assembled(session, retrieved, mode, extra_terms, red, cfg).1;
    let recent = last_of(session.messages, cfg.max_recent_messages as nat);
    assert(recent.len() <= cfg.max_recent_messages);
    let system = redaction(red, session.system_prompt, mode, extra_terms);
    let context = context_text(session.summary, retrieved, cfg);
    let told = redaction(system.0, context, mode, extra_terms);
    lemma_redacted_len(system.0, recent, mode, extra_terms);
    lemma_redacted_len(told.0, recent, mode, extra_terms);
    assert(messages.len() <= 2 + recent.len());
    lemma_fitted_len(messages, max);
    let fit = fitted(messages, max)->0;
    if cfg.pad_system_prompt && padding_need(fit, max, cfg.max_padding_bytes as nat) is Some {
        lemma_popped_len(
            fit.update(
                0,
                MessageView { content: fit[0].content + padding_block(filler), ..fit[0] },
            ),
            max,
        );
    }
}

/// Builds a remote prompt where it can be brought to size. Where it cannot,
/// nothing comes out and the redactor stays as it was.
pub fn try_build_remote_messages(
    session: &Session,
    retrieved: &RetrievedContext,
    token_class: TokenClass,
    redact_mode: RedactMode,
    extra_redaction_terms: &Vec<String>,
    redactor: &mut Redactor,
    cfg: &PromptBuildConfig,
) -> (r: Option<Vec<ChatMessage>>)
    ensures
        ({
            let (red, messages) = assembled(
                session@,
                retrieved@,
                redact_mode,
                views(extra_redaction_terms@),
                old(redactor)@,
                *cfg,
            );
            let max = token_class.prompt_limit();
            match fitted(messages, max) {
                None => r is None && final(redactor)@ == old(redactor)@,
                Some(_) => {
                    &&& r is Some
                    &&& final(redactor)@ == red
                    &&& exists|filler: Seq<char>|
                        filler_suits(messages, max, *cfg, filler) && Some(message_views(r->0@))
                            == #[trigger] finished(messages, max, *cfg, filler)
                },
            }
        }),
{
    let mut trial = redactor.clone();
    let messages = assemble_messages(
        session,
        retrieved,
        redact_mode,
        extra_redaction_terms,
        &mut trial,
        cfg,
    );
    if enforce_budget(messages, token_class.max_prompt_bytes()).is_none() {
        return None;
    }
    Some(
        build_remote_messages_with_retrieval(
            session,
            retrieved,
            token_class,
            redact_mode,
            extra_redaction_terms,
            redactor,
            cfg,
        ),
    )
}

} // verus!
