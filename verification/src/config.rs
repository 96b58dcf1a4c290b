//! What the client makes of its command line.

use vstd::prelude::*;
use vstd::string::*;

use crate::session::{Session, SessionView};
use crate::text;

verus! {

/// What the client was told about its tickets.
#[derive(Debug)]
pub struct TicketSourceConfig {
    /// A file with issued tickets.
    pub ticket_file: Option<String>,
    /// Whether tickets of random bytes may be used, for development only.
    pub use_dummy_tickets: bool,
}

/// The client was told of no source of tickets.
#[derive(Debug, Copy, Clone, PartialEq, Eq, Structural)]
pub struct NoTicketSource;

impl NoTicketSource {
    /// The message of the error.
    pub fn message(&self) -> (r: &'static str)
        ensures
            r@
                == "ticket source is required: pass --ticket-file <path> for issued tickets, or set --use-dummy-tickets / CLIENT_USE_DUMMY_TICKETS=true for local development"@,
    {
        "ticket source is required: pass --ticket-file <path> for issued tickets, or set --use-dummy-tickets / CLIENT_USE_DUMMY_TICKETS=true for local development"
    }
}

/// Demands a file of tickets or an explicit consent to dummy ones.
pub fn validate_ticket_source_config(cfg: &TicketSourceConfig) -> (r: Result<(), NoTicketSource>)
    ensures
        r is Ok <==> cfg.ticket_file is Some || cfg.use_dummy_tickets,
{
    if cfg.ticket_file.is_some() || cfg.use_dummy_tickets {
        return Ok(());
    }
    Err(NoTicketSource)
}

/// Where the client takes its tickets from.
#[derive(Debug)]
pub enum TicketSourceChoice {
    File(String),
    Dummy,
}

/// Decides where the client takes its tickets from: the file where there is one.
pub fn build_ticket_source(cfg: &TicketSourceConfig) -> (r: Result<
    TicketSourceChoice,
    NoTicketSource,
>)
    ensures
        match cfg.ticket_file {
            Some(path) => r is Ok && (r->Ok_0 matches TicketSourceChoice::File(p) && p@ == path@),
            None => if cfg.use_dummy_tickets {
                r is Ok && r->Ok_0 is Dummy
            } else {
                r is Err
            },
        },
{
    if let Some(path) = &cfg.ticket_file {
        return Ok(TicketSourceChoice::File(path.clone()));
    }
    if cfg.use_dummy_tickets {
        return Ok(TicketSourceChoice::Dummy);
    }
    Err(NoTicketSource)
}

/// What the client is to do.
#[derive(Debug, Copy, Clone, PartialEq, Eq, Structural)]
pub enum RunMode {
    /// Serve the local HTTP API.
    Serve,
    /// Converse on the terminal.
    Converse,
    /// Send one message.
    OneShot,
}

/// The client was told of nothing to do.
#[derive(Debug, Copy, Clone, PartialEq, Eq, Structural)]
pub struct NothingToDo;

impl NothingToDo {
    /// The message of the error.
    pub fn message(&self) -> (r: &'static str)
        ensures
            r@ == "Provide --user, --repl, or --http-listen-addr"@,
    {
        "Provide --user, --repl, or --http-listen-addr"
    }
}

/// Decides what the client is to do: serving comes before conversing, and that
/// before a single message.
pub fn run_mode(listens: bool, converses: bool, has_message: bool) -> (r: Result<
    RunMode,
    NothingToDo,
>)
    ensures
        r is Err <==> !listens && !converses && !has_message,
        r matches Ok(mode) ==> mode == (if listens {
            RunMode::Serve
        } else if converses {
            RunMode::Converse
        } else {
            RunMode::OneShot
        }),
{
    if listens {
        Ok(RunMode::Serve)
    } else if converses {
        Ok(RunMode::Converse)
    } else if has_message {
        Ok(RunMode::OneShot)
    } else {
        Err(NothingToDo)
    }
}

/// Whether an address to listen on is written as one of this machine alone.
pub fn is_local_listen(addr: &str) -> (r: bool)
    ensures
        r == (text::stands_at(addr@, "127.0.0.1"@, 0) || text::stands_at(addr@, "localhost"@, 0)),
{
    text::starts_with(addr, "127.0.0.1") || text::starts_with(addr, "localhost")
}

/// The terms in the lines of a file: each line trimmed, without those that are
/// then empty or start with `#`.
pub open spec fn terms_in(lines: Seq<Seq<char>>) -> Seq<Seq<char>>
    decreases lines.len(),
{
    if lines.len() == 0 {
        Seq::empty()
    } else {
        let before = terms_in(lines.drop_last());
        let term = text::trimmed(lines.last());
        if term.len() == 0 || term[0] == '#' {
            before
        } else {
            before.push(term)
        }
    }
}

/// The terms in a file are its lines without the white space around them, in order, but
/// for blank lines and comments.
pub proof fn law_terms_are_the_lines(lines: Seq<Seq<char>>)
    ensures
        terms_in(lines) == lines.map_values(|line: Seq<char>| text::trimmed(line)).filter(
            |term: Seq<char>| term.len() > 0 && term[0] != '#',
        ),
    decreases lines.len(),
{
    reveal(Seq::filter);
    let shorn = lines.map_values(|line: Seq<char>| text::trimmed(line));
    if lines.len() > 0 {
        law_terms_are_the_lines(lines.drop_last());
        assert(shorn.drop_last() =~= lines.drop_last().map_values(
            |line: Seq<char>| text::trimmed(line),
        ));
    }
}

/// Reads the terms in a file of sensitive terms, one to a line.
pub fn parse_terms(contents: &str) -> (r: Vec<String>)
    ensures
        text::views(r@) == terms_in(text::pieces(contents@, '\n')),
{
    proof {
        reveal_strlit("#");
    }
    let lines = text::split_char(contents, '\n');
    let ghost all = text::views(lines@);
    let mut out: Vec<String> = Vec::new();
    let mut i: usize = 0;
    proof {
        assert(text::views(out@) =~= terms_in(all.take(0)));
    }
    while i < lines.len()
        invariant
            i <= lines@.len(),
            all == text::views(lines@),
            "#"@ == seq!['#'],
            text::views(out@) == terms_in(all.take(i as int)),
        decreases lines@.len() - i,
    {
        let ghost before = out@;
        let term = text::trim(lines[i].as_str());
        proof {
            assert(all.take(i + 1).drop_last() =~= all.take(i as int));
            assert(all.take(i + 1).last() == lines@[i as int]@);
            if term@.len() > 0 {
                assert(term@.subrange(0, 1) =~= seq![term@[0]]);
                assert(seq!['#'][0] == '#');
                assert(seq![term@[0]][0] == term@[0]);
            }
        }
        if text::text_bytes(term.as_str()) > 0 && !text::starts_with(term.as_str(), "#") {
            proof {
                text::lemma_byte_len_zero(term@);
            }
            out.push(term);
            proof {
                assert(text::views(out@) =~= text::views(before).push(term@));
            }
        } else {
            proof {
                text::lemma_byte_len_zero(term@);
            }
        }
        i += 1;
    }
    proof {
        assert(all.take(all.len() as int) =~= all);
    }
    out
}

/// Replaces the system prompt of a stored session where that was asked for and a
/// prompt was given. Says whether it was asked for in vain.
pub fn reset_system_prompt(session: &mut Session, reset: bool, system: Option<&str>) -> (r: bool)
    ensures
        final(session)@ == (if reset && system is Some {
            SessionView { system_prompt: system->0@, ..old(session)@ }
        } else {
            old(session)@
        }),
        r == (reset && system is None),
{
    if !reset {
        return false;
    }
    match system {
        Some(text) => {
            session.system_prompt = String::from_str(text);
            false
        },
        None => true,
    }
}

} // verus!
