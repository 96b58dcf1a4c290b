//! The rules of the client's local HTTP API: who may call it, what its errors
//! are answered with, and how a reply is cut into pieces for streaming.

use vstd::prelude::*;
use vstd::string::*;

use crate::json;
use crate::json::{Json, JsonTree};
use crate::text;

verus! {

/// How the local API is served.
pub struct ApiConfig {
    pub listen_addr: String,
    pub api_key: Option<String>,
    pub cors_allowed_origins: String,
    /// The session that the routes without a session id use.
    pub default_session_id: String,
    /// Whether the routes under `/v1/sessions` are served.
    pub enable_multi_session: bool,
    /// The number of characters in a streamed piece.
    pub stream_chunk_chars: usize,
    /// The pause between streamed pieces.
    pub stream_chunk_delay_ms: u64,
}

/// An error of the local API.
#[derive(Debug)]
pub enum ApiError {
    Unauthorized,
    BadRequest(String),
    Internal(String),
}

impl ApiError {
    /// The HTTP status of the error.
    pub open spec fn spec_status(self) -> u16 {
        match self {
            ApiError::Unauthorized => 401,
            ApiError::BadRequest(_) => 400,
            ApiError::Internal(_) => 500,
        }
    }

    /// The message of the error.
    pub open spec fn spec_message(self) -> Seq<char> {
        match self {
            ApiError::Unauthorized => "unauthorized"@,
            ApiError::BadRequest(s) => s@,
            ApiError::Internal(s) => s@,
        }
    }

    /// The HTTP status of the error.
    pub fn status(&self) -> (r: u16)
        ensures
            r == self.spec_status(),
    {
        match self {
            ApiError::Unauthorized => 401,
            ApiError::BadRequest(_) => 400,
            ApiError::Internal(_) => 500,
        }
    }

    /// The message of the error.
    pub fn message(&self) -> (r: &str)
        ensures
            r@ == self.spec_message(),
    {
        match self {
            ApiError::Unauthorized => "unauthorized",
            ApiError::BadRequest(s) => s.as_str(),
            ApiError::Internal(s) => s.as_str(),
        }
    }

    /// The body of the error's answer.
    pub fn body(&self) -> (r: Json)
        ensures
            r.tree() == JsonTree::Fields(
                seq![("error"@, JsonTree::Text(self.spec_message()))],
            ),
    {
        json::single("error", json::word(self.message()))
    }
}

/// Lets a caller in that shows the expected key, or any caller where none is
/// expected. A key that is missing counts as the empty one.
pub fn check_api_key(got: Option<&str>, expected: &Option<String>) -> (r: Result<(), ApiError>)
    ensures
        r is Ok <==> (expected matches Some(key) ==> match got {
            Some(k) => k@ == key@,
            None => key@.len() == 0,
        }),
        r matches Err(e) ==> e is Unauthorized,
{
    let key = match expected {
        Some(key) => key,
        None => return Ok(()),
    };
    let shown = match got {
        Some(k) => k,
        None => "",
    };
    proof {
        reveal_strlit("");
        if key@.len() == 0 {
            assert(key@ =~= ""@);
        }
    }
    if text::text_eq(shown, key.as_str()) {
        Ok(())
    } else {
        Err(ApiError::Unauthorized)
    }
}

/// The number of messages that a request without a limit gets.
pub fn default_limit() -> (r: usize)
    ensures
        r == 50,
{
    50
}

/// The number of hits that a search without a limit gets.
pub fn default_k() -> (r: usize)
    ensures
        r == 8,
{
    8
}

/// A text cut into pieces of `n` characters, the last one being what is left.
pub open spec fn chunks(text: Seq<char>, n: nat) -> Seq<Seq<char>>
    decreases text.len(),
{
    if n == 0 || text.len() == 0 {
        Seq::empty()
    } else if text.len() <= n {
        seq![text]
    } else {
        seq![text.take(n as int)] + chunks(text.skip(n as int), n)
    }
}

/// The pieces of a text put back together.
pub open spec fn joined(pieces: Seq<Seq<char>>) -> Seq<char>
    decreases pieces.len(),
{
    if pieces.len() == 0 {
        Seq::empty()
    } else {
        pieces[0] + joined(pieces.skip(1))
    }
}

/// Cuts a text into pieces of `chunk_chars` characters, or of one where that is
/// zero.
pub fn chunk_string(s: &str, chunk_chars: usize) -> (r: Vec<String>)
    ensures
        text::views(r@) == chunks(
            s@,
            if chunk_chars == 0 {
                1
            } else {
                chunk_chars as nat
            },
        ),
{
    let n: usize = if chunk_chars == 0 {
        1
    } else {
        chunk_chars
    };
    let chars = text::chars_of(s);
    let mut out: Vec<String> = Vec::new();
    let mut from: usize = 0;
    proof {
        assert(chars@.skip(0) =~= s@);
        assert(text::views(out@) + chunks(s@, n as nat) =~= chunks(s@, n as nat));
    }
    while from < chars.len()
        invariant
            n > 0,
            from <= chars@.len(),
            chars@ == s@,
            text::views(out@) + chunks(chars@.skip(from as int), n as nat) == chunks(
                s@,
                n as nat,
            ),
        decreases chars@.len() - from,
    {
        let to: usize = if chars.len() - from <= n {
            chars.len()
        } else {
            from + n
        };
        let piece = text::text_between(&chars, from, to);
        let ghost before = out@;
        let ghost rest = chars@.skip(from as int);
        out.push(piece);
        proof {
            assert(piece@ =~= rest.take(to - from));
            assert(chars@.skip(to as int) =~= rest.skip(to - from));
            assert(text::views(out@) =~= text::views(before).push(piece@));
            if rest.len() <= n {
                assert(piece@ =~= rest);
                assert(rest.skip(to - from).len() == 0);
            }
            assert(text::views(out@) + chunks(chars@.skip(to as int), n as nat)
                =~= text::views(before) + chunks(rest, n as nat));
        }
        from = to;
    }
    proof {
        assert(chars@.skip(from as int).len() == 0);
        assert(text::views(out@) + chunks(chars@.skip(from as int), n as nat) =~= text::views(
            out@,
        ));
    }
    out
}

/// Streaming loses nothing and repeats nothing: the pieces of a text, put back
/// together, are the text. None of them is empty, and each but the last has the
/// full length.
pub proof fn law_chunks_make_the_text(text: Seq<char>, n: nat)
    requires
        n > 0,
    ensures
        joined(chunks(text, n)) == text,
        forall|i: int|
            0 <= i < chunks(text, n).len() ==> 0 < (#[trigger] chunks(text, n)[i]).len() <= n,
        forall|i: int|
            0 <= i < chunks(text, n).len() - 1 ==> (#[trigger] chunks(text, n)[i]).len() == n,
    decreases text.len(),
{
    let all = chunks(text, n);
    if text.len() == 0 {
        assert(joined(all) =~= text);
    } else if text.len() <= n {
        assert(all.skip(1) =~= Seq::empty());
        assert(joined(all.skip(1)) =~= Seq::empty());
        assert(joined(all) =~= text);
    } else {
        let rest = text.skip(n as int);
        law_chunks_make_the_text(rest, n);
        assert(all.skip(1) =~= chunks(rest, n));
        assert(all[0] =~= text.take(n as int));
        assert(joined(all) =~= text.take(n as int) + rest);
        assert(text.take(n as int) + rest =~= text);
        assert forall|i: int| 0 <= i < all.len() implies 0 < (#[trigger] all[i]).len() <= n by {
            if i > 0 {
                assert(all[i] == chunks(rest, n)[i - 1]);
            }
        }
        assert forall|i: int| 0 <= i < all.len() - 1 implies (#[trigger] all[i]).len() == n by {
            if i > 0 {
                assert(all[i] == chunks(rest, n)[i - 1]);
            }
        }
    }
}

/// The pieces of a text stand one after another in it, without a gap.
#[verifier::spinoff_prover]
#[verifier::rlimit(40)]
pub proof fn law_chunks_stand_in_order(text: Seq<char>, n: nat, i: int)
    requires
        n > 0,
        0 <= i < chunks(text, n).len(),
    ensures
        i * n < text.len(),
        chunks(text, n)[i] == text.subrange(
            i * n,
            vstd::math::min(i * n + n, text.len() as int),
        ),
        chunks(text, n).len() * n < text.len() + n,
        text.len() <= chunks(text, n).len() * n,
    decreases text.len(),
{
    let all = chunks(text, n);
    if text.len() <= n {
        assert(all.len() == 1);
        assert(i == 0);
        assert(i * n == 0);
        assert(all[0] =~= text.subrange(0, text.len() as int));
    } else {
        let rest = text.skip(n as int);
        let more = chunks(rest, n);
        assert(all.len() == more.len() + 1);
        if more.len() > 0 {
            law_chunks_stand_in_order(rest, n, if i > 0 { i - 1 } else { 0 });
        }
        assert(all.len() * n == more.len() * n + n) by (nonlinear_arith)
            requires
                all.len() == more.len() + 1,
        ;
        if i == 0 {
            assert(i * n == 0);
            assert(all[0] =~= text.subrange(0, n as int));
        } else {
            assert(i * n == (i - 1) * n + n) by (nonlinear_arith);
            assert(all[i] == more[i - 1]);
            let from = (i - 1) * n;
            let to = vstd::math::min(from + n, rest.len() as int);
            assert(0 <= from) by (nonlinear_arith)
                requires
                    from == (i - 1) * n,
                    i >= 1,
            ;
            assert(rest.subrange(from, to) =~= text.subrange(from + n, to + n));
        }
    }
}

/// The errors of the local API: their statuses and what they say.
pub proof fn law_api_errors(e: ApiError)
    ensures
        e is Unauthorized ==> e.spec_status() == 401 && e.spec_message() == "unauthorized"@,
        e matches ApiError::BadRequest(s) ==> e.spec_status() == 400 && e.spec_message() == s@,
        e matches ApiError::Internal(s) ==> e.spec_status() == 500 && e.spec_message() == s@,
{
}

/// An event of a streamed reply.
pub struct StreamEvent {
    pub name: &'static str,
    pub data: Json,
    /// Whether the pause between pieces follows.
    pub pause: bool,
}

/// An event by what it holds.
pub struct StreamEventView {
    pub name: Seq<char>,
    pub data: JsonTree,
    pub pause: bool,
}

impl View for StreamEvent {
    type V = StreamEventView;

    open spec fn view(&self) -> StreamEventView {
        StreamEventView { name: self.name@, data: self.data.tree(), pause: self.pause }
    }
}

/// Events by what they hold.
pub open spec fn event_views(events: Seq<StreamEvent>) -> Seq<StreamEventView> {
    Seq::new(events.len(), |i: int| events[i]@)
}

/// The event that opens every stream.
pub fn stream_start(request_id: &str, session_id: &str) -> (r: StreamEvent)
    ensures
        r@ == (StreamEventView {
            name: "start"@,
            data: JsonTree::Fields(
                Seq::empty()
                    .push(("request_id"@, JsonTree::Text(request_id@)))
                    .push(("session_id"@, JsonTree::Text(session_id@))),
            ),
            pause: false,
        }),
{
    let ids = json::with(
        json::first("request_id", json::word(request_id)),
        "session_id",
        json::word(session_id),
    );
    StreamEvent { name: "start", data: json::object(ids), pause: false }
}

/// The event that carries a piece of a reply.
pub open spec fn delta(piece: Seq<char>) -> StreamEventView {
    StreamEventView {
        name: "delta"@,
        data: JsonTree::Fields(seq![("text"@, JsonTree::Text(piece))]),
        pause: true,
    }
}

/// The event that closes a stream.
pub open spec fn done() -> StreamEventView {
    StreamEventView {
        name: "done"@,
        data: JsonTree::Fields(seq![("ok"@, JsonTree::Bool(true))]),
        pause: false,
    }
}

/// The event that ends a stream for want of a reply.
pub open spec fn failed(error: Seq<char>) -> StreamEventView {
    StreamEventView {
        name: "error"@,
        data: JsonTree::Fields(seq![("error"@, JsonTree::Text(error))]),
        pause: false,
    }
}

/// The events of a reply in pieces of `n` characters.
pub open spec fn reply_stream(reply: Seq<char>, n: nat) -> Seq<StreamEventView> {
    Seq::new(chunks(reply, n).len(), |i: int| delta(chunks(reply, n)[i])).push(done())
}

/// The events after the first one: the pieces of the reply and the end, or the
/// error in its place.
pub fn stream_events(reply: Result<&str, &str>, chunk_chars: usize) -> (r: Vec<StreamEvent>)
    ensures
        event_views(r@) == match reply {
            Ok(text) => reply_stream(
                text@,
                if chunk_chars == 0 {
                    1
                } else {
                    chunk_chars as nat
                },
            ),
            Err(error) => seq![failed(error@)],
        },
{
    let mut out: Vec<StreamEvent> = Vec::new();
    let text = match reply {
        Ok(text) => text,
        Err(error) => {
            out.push(
                StreamEvent {
                    name: "error",
                    data: json::single("error", json::word(error)),
                    pause: false,
                },
            );
            assert(event_views(out@) =~= seq![failed(error@)]);
            return out;
        },
    };
    let pieces = chunk_string(text, chunk_chars);
    let mut i: usize = 0;
    while i < pieces.len()
        invariant
            i <= pieces@.len(),
            event_views(out@) == Seq::new(i as nat, |j: int| delta(pieces@[j]@)),
        decreases pieces@.len() - i,
    {
        let ghost before = out@;
        out.push(
            StreamEvent {
                name: "delta",
                data: json::single("text", json::word(pieces[i].as_str())),
                pause: true,
            },
        );
        proof {
            assert(event_views(out@) =~= event_views(before).push(delta(pieces@[i as int]@)));
            assert(event_views(out@) =~= Seq::new((i + 1) as nat, |j: int| delta(pieces@[j]@)));
        }
        i += 1;
    }
    let ghost before = out@;
    out.push(
        StreamEvent { name: "done", data: json::single("ok", Json::Bool(true)), pause: false },
    );
    proof {
        let n: nat = if chunk_chars == 0 {
            1
        } else {
            chunk_chars as nat
        };
        let cut = chunks(text@, n);
        assert(text::views(pieces@) == cut);
        assert forall|j: int| 0 <= j < cut.len() implies cut[j] == (#[trigger] pieces@[j])@ by {
            assert(text::views(pieces@)[j] == pieces@[j]@);
        }
        assert(event_views(before) =~= Seq::new(cut.len(), |j: int| delta(cut[j])));
        assert(event_views(out@) =~= event_views(before).push(done()));
    }
    out
}

/// The text that an event carries.
pub open spec fn carried(event: StreamEventView) -> Seq<char> {
    if event.name == "delta"@ {
        event.data->Fields_0[0].1->Text_0
    } else {
        Seq::empty()
    }
}

/// A streamed reply reaches the caller whole and in order: the texts that its
/// events carry make the reply, whatever the size of a piece, and the last event
/// is the one that says so.
pub proof fn law_stream_carries_the_reply(reply: Seq<char>, n: nat)
    requires
        n > 0,
    ensures
        joined(
            Seq::new(reply_stream(reply, n).len(), |i: int| carried(reply_stream(reply, n)[i])),
        ) == reply,
        reply_stream(reply, n).last() == done(),
{
    reveal_strlit("delta");
    reveal_strlit("done");
    let cut = chunks(reply, n);
    let all = reply_stream(reply, n);
    let texts = Seq::new(all.len(), |i: int| carried(all[i]));
    assert("delta"@.len() != "done"@.len());
    assert(texts =~= cut.push(Seq::empty()));
    law_chunks_make_the_text(reply, n);
    lemma_joined_push_empty(cut);
}

/// A streamed reply has one event for each piece, with the piece as its text and a
/// pause behind it, and one more that says that all is well. A failure is one event
/// that says why.
pub proof fn law_stream_has_an_event_for_each_piece(reply: Seq<char>, n: nat, i: int)
    requires
        n > 0,
        0 <= i < chunks(reply, n).len(),
    ensures
        reply_stream(reply, n).len() == chunks(reply, n).len() + 1,
        reply_stream(reply, n)[i].name == "delta"@,
        reply_stream(reply, n)[i].pause,
        json::get_member(reply_stream(reply, n)[i].data, "text"@) == Some(
            JsonTree::Text(chunks(reply, n)[i]),
        ),
        reply_stream(reply, n).last().name == "done"@,
        !reply_stream(reply, n).last().pause,
        json::get_member(reply_stream(reply, n).last().data, "ok"@) == Some(JsonTree::Bool(true)),
        failed(reply).name == "error"@,
        json::get_member(failed(reply).data, "error"@) == Some(JsonTree::Text(reply)),
{
    let all = reply_stream(reply, n);
    json::law_last_member_counts(all[i].data->Fields_0, 0, "text"@);
    json::law_last_member_counts(all.last().data->Fields_0, 0, "ok"@);
    json::law_last_member_counts(failed(reply).data->Fields_0, 0, "error"@);
}

/// An empty piece at the end adds nothing.
proof fn lemma_joined_push_empty(pieces: Seq<Seq<char>>)
    ensures
        joined(pieces.push(Seq::empty())) == joined(pieces),
    decreases pieces.len(),
{
    let all = pieces.push(Seq::empty());
    if pieces.len() == 0 {
        assert(all.skip(1) =~= Seq::empty());
        assert(joined(all.skip(1)) =~= Seq::empty());
        assert(joined(all) =~= Seq::empty());
    } else {
        lemma_joined_push_empty(pieces.skip(1));
        assert(all.skip(1) =~= pieces.skip(1).push(Seq::empty()));
    }
}

} // verus!
