//! The commands of the terminal conversation.

use vstd::prelude::*;
use vstd::string::*;

use crate::memory_store::Doc;
use crate::session::MemoryItem;
use crate::text;
use crate::types::ChatMessage;

verus! {

/// What a line of the user asks for.
#[derive(Debug)]
pub enum Command {
    Nothing,
    Exit,
    Help,
    Remember(String),
    Memory,
    Search(String),
    Redact(String),
    System(String),
    Say(String),
}

/// What a command holds.
pub enum CommandView {
    Nothing,
    Exit,
    Help,
    Remember(Seq<char>),
    Memory,
    Search(Seq<char>),
    Redact(Seq<char>),
    System(Seq<char>),
    Say(Seq<char>),
}

impl View for Command {
    type V = CommandView;

    open spec fn view(&self) -> CommandView {
        match self {
            Command::Nothing => CommandView::Nothing,
            Command::Exit => CommandView::Exit,
            Command::Help => CommandView::Help,
            Command::Remember(s) => CommandView::Remember(s@),
            Command::Memory => CommandView::Memory,
            Command::Search(s) => CommandView::Search(s@),
            Command::Redact(s) => CommandView::Redact(s@),
            Command::System(s) => CommandView::System(s@),
            Command::Say(s) => CommandView::Say(s@),
        }
    }
}

/// What comes after a prefix of a text.
pub open spec fn after_prefix(text: Seq<char>, prefix: Seq<char>) -> Option<Seq<char>> {
    if text::stands_at(text, prefix, 0) {
        Some(text.skip(prefix.len() as int))
    } else {
        None
    }
}

/// What a line, trimmed, asks for. What is no command is said to the model.
pub open spec fn command_of(line: Seq<char>) -> CommandView {
    let l = text::trimmed(line);
    if l.len() == 0 {
        CommandView::Nothing
    } else if l == "/exit"@ || l == "/quit"@ {
        CommandView::Exit
    } else if l == "/help"@ {
        CommandView::Help
    } else if let Some(rest) = after_prefix(l, "/remember "@) {
        CommandView::Remember(rest)
    } else if l == "/memory"@ {
        CommandView::Memory
    } else if let Some(rest) = after_prefix(l, "/search "@) {
        CommandView::Search(rest)
    } else if let Some(rest) = after_prefix(l, "/redact "@) {
        CommandView::Redact(rest)
    } else if let Some(rest) = after_prefix(l, "/system "@) {
        CommandView::System(rest)
    } else {
        CommandView::Say(l)
    }
}

proof fn lemma_command_words()
    ensures
        "/exit"@.len() == 5 && "/exit"@[1] == 'e',
        "/quit"@.len() == 5 && "/quit"@[1] == 'q',
        "/help"@.len() == 5 && "/help"@[1] == 'h',
        "/memory"@.len() == 7 && "/memory"@[1] == 'm',
        "/remember "@.len() == 10 && "/remember "@[1] == 'r' && "/remember "@[3] == 'm',
        "/search "@.len() == 8 && "/search "@[1] == 's' && "/search "@[2] == 'e',
        "/redact "@.len() == 8 && "/redact "@[1] == 'r' && "/redact "@[3] == 'd',
        "/system "@.len() == 8 && "/system "@[1] == 's' && "/system "@[2] == 'y',
{
    reveal_strlit("/exit");
    reveal_strlit("/quit");
    reveal_strlit("/help");
    reveal_strlit("/memory");
    reveal_strlit("/remember ");
    reveal_strlit("/search ");
    reveal_strlit("/redact ");
    reveal_strlit("/system ");
}

proof fn lemma_prefix(prefix: Seq<char>, rest: Seq<char>)
    ensures
        after_prefix(prefix + rest, prefix) == Some(rest),
{
    let l = prefix + rest;
    assert(l.subrange(0, prefix.len() as int) =~= prefix);
    assert(l.skip(prefix.len() as int) =~= rest);
}

proof fn lemma_no_prefix(l: Seq<char>, prefix: Seq<char>, i: int)
    requires
        0 <= i < prefix.len(),
        i < l.len() ==> l[i] != prefix[i],
    ensures
        after_prefix(l, prefix) is None,
{
    if text::stands_at(l, prefix, 0) {
        assert(l.subrange(0, prefix.len() as int)[i] == l[i]);
    }
}

/// What each command asks for. A command with an argument takes all that comes after
/// its word and one space, and a line that is no command is said as it is, without
/// the white space around it.
pub proof fn law_commands_ask_for_this(line: Seq<char>, rest: Seq<char>)
    ensures
        text::trimmed(line).len() == 0 ==> command_of(line) is Nothing,
        text::trimmed(line) == "/exit"@ ==> command_of(line) is Exit,
        text::trimmed(line) == "/quit"@ ==> command_of(line) is Exit,
        text::trimmed(line) == "/help"@ ==> command_of(line) is Help,
        text::trimmed(line) == "/memory"@ ==> command_of(line) is Memory,
        text::trimmed(line) == "/remember "@ + rest ==> command_of(line) == CommandView::Remember(
            rest,
        ),
        text::trimmed(line) == "/search "@ + rest ==> command_of(line) == CommandView::Search(rest),
        text::trimmed(line) == "/redact "@ + rest ==> command_of(line) == CommandView::Redact(rest),
        text::trimmed(line) == "/system "@ + rest ==> command_of(line) == CommandView::System(rest),
        text::trimmed(line).len() > 0 && text::trimmed(line)[0] != '/' ==> command_of(line)
            == CommandView::Say(text::trimmed(line)),
{
    let l = text::trimmed(line);
    lemma_command_words();
    if l == "/memory"@ {
        lemma_no_prefix(l, "/remember "@, 1);
    }
    if l == "/remember "@ + rest {
        lemma_prefix("/remember "@, rest);
    }
    if l == "/search "@ + rest {
        lemma_prefix("/search "@, rest);
        lemma_no_prefix(l, "/remember "@, 1);
    }
    if l == "/redact "@ + rest {
        lemma_prefix("/redact "@, rest);
        lemma_no_prefix(l, "/remember "@, 3);
        lemma_no_prefix(l, "/search "@, 1);
    }
    if l == "/system "@ + rest {
        lemma_prefix("/system "@, rest);
        lemma_no_prefix(l, "/remember "@, 1);
        lemma_no_prefix(l, "/search "@, 2);
        lemma_no_prefix(l, "/redact "@, 1);
    }
    if l.len() > 0 && l[0] != '/' {
        lemma_slashes();
        lemma_no_prefix(l, "/remember "@, 0);
        lemma_no_prefix(l, "/search "@, 0);
        lemma_no_prefix(l, "/redact "@, 0);
        lemma_no_prefix(l, "/system "@, 0);
    }
}

proof fn lemma_slashes()
    ensures
        "/exit"@[0] == '/',
        "/quit"@[0] == '/',
        "/help"@[0] == '/',
        "/memory"@[0] == '/',
        "/remember "@[0] == '/',
        "/search "@[0] == '/',
        "/redact "@[0] == '/',
        "/system "@[0] == '/',
        "/exit"@.len() > 0,
        "/quit"@.len() > 0,
        "/help"@.len() > 0,
        "/memory"@.len() > 0,
        "/remember "@.len() > 0,
        "/search "@.len() > 0,
        "/redact "@.len() > 0,
        "/system "@.len() > 0,
{
    reveal_strlit("/exit");
    reveal_strlit("/quit");
    reveal_strlit("/help");
    reveal_strlit("/memory");
    reveal_strlit("/remember ");
    reveal_strlit("/search ");
    reveal_strlit("/redact ");
    reveal_strlit("/system ");
}

fn strip_prefix(text: &str, prefix: &str) -> (r: Option<String>)
    ensures
        match after_prefix(text@, prefix@) {
            Some(rest) => r is Some && r->0@ == rest,
            None => r is None,
        },
{
    if text::starts_with(text, prefix) {
        let skipped: usize = text::chars_of(prefix).len();
        let rest = text::skip_chars(text, skipped);
        proof {
            assert(rest@ =~= text@.skip(prefix@.len() as int));
        }
        Some(rest)
    } else {
        None
    }
}

/// Reads what a line of the user asks for.
pub fn parse_command(line: &str) -> (r: Command)
    ensures
        r@ == command_of(line@),
{
    let l = text::trim(line);
    if text::chars_of(l.as_str()).len() == 0 {
        return Command::Nothing;
    }
    if text::text_eq(l.as_str(), "/exit") || text::text_eq(l.as_str(), "/quit") {
        return Command::Exit;
    }
    if text::text_eq(l.as_str(), "/help") {
        return Command::Help;
    }
    if let Some(rest) = strip_prefix(l.as_str(), "/remember ") {
        return Command::Remember(rest);
    }
    if text::text_eq(l.as_str(), "/memory") {
        return Command::Memory;
    }
    if let Some(rest) = strip_prefix(l.as_str(), "/search ") {
        return Command::Search(rest);
    }
    if let Some(rest) = strip_prefix(l.as_str(), "/redact ") {
        return Command::Redact(rest);
    }
    if let Some(rest) = strip_prefix(l.as_str(), "/system ") {
        return Command::System(rest);
    }
    Command::Say(l)
}

/// The line that shows an item of memory, numbered from one.
pub fn memory_line(i: usize, item: &MemoryItem) -> (r: String)
    requires
        i < usize::MAX,
    ensures
        r@ == text::decimal((i + 1) as nat) + ". "@ + text::first_chars(item.text@, 120),
{
    let mut out = text::decimal_text((i + 1) as u64);
    out.append(". ");
    out.append(text::take_chars(item.text.as_str(), 120).as_str());
    out
}

/// The line that shows a memory item that a search found, numbered from one.
pub fn memory_hit_line(i: usize, doc: &Doc) -> (r: String)
    requires
        i < usize::MAX,
    ensures
        r@ == "- M"@ + text::decimal((i + 1) as nat) + ": "@ + text::first_chars(doc.text@, 160),
{
    let mut out = String::from_str("- M");
    out.append(text::decimal_text((i + 1) as u64).as_str());
    out.append(": ");
    out.append(text::take_chars(doc.text.as_str(), 160).as_str());
    out
}

/// The line that shows a message that a search found, numbered from one.
pub fn recall_hit_line(i: usize, message: &ChatMessage) -> (r: String)
    requires
        i < usize::MAX,
    ensures
        r@ == "- R"@ + text::decimal((i + 1) as nat) + " "@ + message.role@ + ": "@
            + text::first_chars(message.content@, 160),
{
    let mut out = String::from_str("- R");
    out.append(text::decimal_text((i + 1) as u64).as_str());
    out.append(" ");
    out.append(message.role.as_str());
    out.append(": ");
    out.append(text::take_chars(message.content.as_str(), 160).as_str());
    out
}

} // verus!
