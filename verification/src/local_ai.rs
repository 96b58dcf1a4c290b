//! What is asked of a summarizer that runs on the user's machine.

use vstd::prelude::*;
use vstd::string::*;

use crate::text;
use crate::types;
use crate::types::{ChatMessage, MessageView};

verus! {

/// Where the local summarizer is and how it is called.
#[derive(Debug)]
pub struct LocalAiConfig {
    pub base_url: String,
    pub model: String,
    pub api_key: Option<String>,
    pub timeout_ms: u64,
}

/// What the local summarizer is asked. The temperature is zero.
pub struct SummaryRequest {
    pub model: String,
    pub messages: Vec<ChatMessage>,
    pub max_tokens: u32,
}

/// The turn as the summarizer reads it: a line for each message, with the first
/// 2000 characters of it.
pub open spec fn turn_text(turn: Seq<MessageView>) -> Seq<char>
    decreases turn.len(),
{
    if turn.len() == 0 {
        Seq::empty()
    } else {
        turn_text(turn.drop_last()) + (turn.last().role + ": "@ + text::first_chars(
            turn.last().content,
            2000,
        ) + "\n"@)
    }
}

/// What the summarizer is told to do.
pub open spec fn summarizer_instructions() -> Seq<char> {
    "You are a privacy-preserving summarizer running on the user's machine.\nUpdate the existing summary with the new turn.\n- Keep it short (<= 12 bullet points).\n- Prefer generalization over personal details.\n- Preserve placeholders like <EMAIL_...>, <API_KEY_...>, <ETH_ADDR_...>.\n- Do not add new sensitive details that were not present."@
}

/// What the summarizer is asked about.
pub open spec fn summary_question(previous: Seq<char>, turn: Seq<MessageView>) -> Seq<char> {
    "Previous summary:\n"@ + previous + "\n\nNew turn:\n"@ + turn_text(turn)
        + "\n\nReturn ONLY the updated summary."@
}

/// The summarizer is told to keep placeholders and to add nothing sensitive.
pub proof fn law_summarizer_is_told_this()
    ensures
        summarizer_instructions()
            == "You are a privacy-preserving summarizer running on the user's machine.\nUpdate the existing summary with the new turn.\n- Keep it short (<= 12 bullet points).\n- Prefer generalization over personal details.\n- Preserve placeholders like <EMAIL_...>, <API_KEY_...>, <ETH_ADDR_...>.\n- Do not add new sensitive details that were not present."@,
{
}

/// The summarizer reads what came before and a line for each message of the turn, in
/// order, with its role and its first two thousand characters.
pub proof fn law_summarizer_reads_the_turn(previous: Seq<char>, turn: Seq<MessageView>)
    ensures
        summary_question(previous, turn) == "Previous summary:\n"@ + previous
            + "\n\nNew turn:\n"@ + Seq::new(
            turn.len(),
            |i: int|
                turn[i].role + ": "@ + (if turn[i].content.len() > 2000 {
                    turn[i].content.take(2000)
                } else {
                    turn[i].content
                }) + "\n"@,
        ).flatten() + "\n\nReturn ONLY the updated summary."@,
{
    lemma_turn_text(turn);
}

proof fn lemma_turn_text(turn: Seq<MessageView>)
    ensures
        turn_text(turn) == Seq::new(
            turn.len(),
            |i: int|
                turn[i].role + ": "@ + (if turn[i].content.len() > 2000 {
                    turn[i].content.take(2000)
                } else {
                    turn[i].content
                }) + "\n"@,
        ).flatten(),
    decreases turn.len(),
{
    let lines = Seq::new(
        turn.len(),
        |i: int|
            turn[i].role + ": "@ + (if turn[i].content.len() > 2000 {
                turn[i].content.take(2000)
            } else {
                turn[i].content
            }) + "\n"@,
    );
    lines.lemma_flatten_and_flatten_alt_are_equivalent();
    if turn.len() == 0 {
        assert(turn_text(turn) =~= lines.flatten());
    } else {
        let front = turn.drop_last();
        lemma_turn_text(front);
        let before = Seq::new(
            front.len(),
            |i: int|
                front[i].role + ": "@ + (if front[i].content.len() > 2000 {
                    front[i].content.take(2000)
                } else {
                    front[i].content
                }) + "\n"@,
        );
        before.lemma_flatten_and_flatten_alt_are_equivalent();
        assert(lines.drop_last() =~= before);
        assert(turn_text(turn) =~= lines.flatten());
    }
}

impl LocalAiConfig {
    /// The URL that the summarizer is asked at.
    pub fn url(&self) -> (r: String)
        ensures
            r@ == text::trim_end_by(self.base_url@, text::only('/')) + "/v1/chat/completions"@,
    {
        let mut url = text::trim_end_char(self.base_url.as_str(), '/');
        url.append("/v1/chat/completions");
        url
    }

    /// What is asked for a summary of what came before and of the newest turn.
    pub fn summary_request(&self, previous_summary: &str, new_turn: &Vec<ChatMessage>) -> (r:
        SummaryRequest)
        ensures
            r.model@ == self.model@,
            types::message_views(r.messages@) == seq![
                types::plain_view("system"@, summarizer_instructions()),
                types::plain_view(
                    "user"@,
                    summary_question(previous_summary@, types::message_views(new_turn@)),
                ),
            ],
            r.max_tokens == 512,
    {
        let mut turn = String::new();
        let mut i: usize = 0;
        let ghost all = types::message_views(new_turn@);
        proof {
            assert(all.take(0) =~= Seq::empty());
        }
        while i < new_turn.len()
            invariant
                i <= new_turn@.len(),
                all == types::message_views(new_turn@),
                turn@ == turn_text(all.take(i as int)),
            decreases new_turn@.len() - i,
        {
            let ghost before = turn@;
            let snippet = text::take_chars(new_turn[i].content.as_str(), 2000);
            turn.append(new_turn[i].role.as_str());
            turn.append(": ");
            turn.append(snippet.as_str());
            turn.append("\n");
            proof {
                assert(all.take(i + 1).drop_last() =~= all.take(i as int));
                assert(turn@ =~= turn_text(all.take(i + 1)));
            }
            i += 1;
        }
        proof {
            assert(all.take(i as int) =~= all);
        }
        let mut question = String::from_str("Previous summary:\n");
        question.append(previous_summary);
        question.append("\n\nNew turn:\n");
        question.append(turn.as_str());
        question.append("\n\nReturn ONLY the updated summary.");
        let system = types::plain_message(
            "system",
            String::from_str(
                "You are a privacy-preserving summarizer running on the user's machine.\nUpdate the existing summary with the new turn.\n- Keep it short (<= 12 bullet points).\n- Prefer generalization over personal details.\n- Preserve placeholders like <EMAIL_...>, <API_KEY_...>, <ETH_ADDR_...>.\n- Do not add new sensitive details that were not present.",
            ),
        );
        let user = types::plain_message("user", question);
        let messages: Vec<ChatMessage> = vec![system, user];
        proof {
            assert(types::message_views(messages@) =~= seq![
                types::plain_view("system"@, summarizer_instructions()),
                types::plain_view("user"@, summary_question(previous_summary@, all)),
            ]);
        }
        SummaryRequest { model: String::from_str(self.model.as_str()), messages, max_tokens: 512 }
    }
}

/// The summary in the content of the first choice: trimmed, and empty where
/// there is none.
pub fn summary_of(content: Option<&str>) -> (r: String)
    ensures
        r@ == match content {
            Some(c) => text::trimmed(c@),
            None => Seq::<char>::empty(),
        },
{
    match content {
        Some(c) => text::trim(c),
        None => String::new(),
    }
}

} // verus!
