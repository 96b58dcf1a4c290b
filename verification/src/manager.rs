//! The rules by which sessions are named, found, listed and created.

use vstd::prelude::*;
use vstd::string::*;

use crate::crypto;
use crate::prompt::PromptBuildConfig;
use crate::redaction::RedactMode;
use crate::session;
use crate::session::Session;
use crate::text;
use crate::token::TokenClass;

verus! {

/// What all sessions of a manager share.
pub struct AgentManagerConfig {
    pub endpoint_url: String,
    pub gateway_public_bytes: [u8; 32],
    pub model: String,
    pub token_class: TokenClass,
    pub redact_mode: RedactMode,
    pub extra_terms: Vec<String>,
    pub prompt_cfg: PromptBuildConfig,
    pub session_key: Option<[u8; 32]>,
    pub sessions_dir: String,
    /// The system prompt of a session that is created without one.
    pub default_system_prompt: String,
    pub default_session_id: String,
    /// Where the default session is kept, where that is not its place in
    /// `sessions_dir`.
    pub default_session_path_override: Option<String>,
    /// Timeout (ms) of calls to the gateway.
    pub timeout_ms: u64,
    /// Whether messages are indexed for retrieval.
    pub index_messages: bool,
    pub max_messages_indexed: usize,
}

/// Information about a session for listing.
#[derive(Debug)]
pub struct SessionInfo {
    pub session_id: String,
    pub path: String,
    pub exists_on_disk: bool,
}

/// What the information about a session holds.
#[verifier::ext_equal]
pub struct InfoView {
    pub session_id: Seq<char>,
    pub path: Seq<char>,
    pub exists_on_disk: bool,
}

impl View for SessionInfo {
    type V = InfoView;

    open spec fn view(&self) -> InfoView {
        InfoView {
            session_id: self.session_id@,
            path: self.path@,
            exists_on_disk: self.exists_on_disk,
        }
    }
}

impl Clone for SessionInfo {
    fn clone(&self) -> (r: Self)
        ensures
            r@ == self@,
    {
        SessionInfo {
            session_id: self.session_id.clone(),
            path: self.path.clone(),
            exists_on_disk: self.exists_on_disk,
        }
    }
}

/// What some information about sessions holds.
pub open spec fn info_views(infos: Seq<SessionInfo>) -> Seq<InfoView> {
    Seq::new(infos.len(), |i: int| infos[i]@)
}

/// Why a session id is not accepted.
#[derive(Debug, Copy, Clone, PartialEq, Eq, Structural)]
pub enum SessionIdError {
    Length,
    Characters,
}

impl SessionIdError {
    /// The message of the error.
    pub open spec fn spec_message(self) -> Seq<char> {
        match self {
            SessionIdError::Length => "invalid session_id length"@,
            SessionIdError::Characters =>
                "invalid session_id characters (allowed: [A-Za-z0-9_-])"@,
        }
    }

    /// The message of the error.
    pub fn message(&self) -> (r: &'static str)
        ensures
            r@ == self.spec_message(),
    {
        match self {
            SessionIdError::Length => "invalid session_id length",
            SessionIdError::Characters =>
                "invalid session_id characters (allowed: [A-Za-z0-9_-])",
        }
    }
}

/// Whether a character may stand in a session id.
pub open spec fn id_char(c: char) -> bool {
    ||| 'a' <= c && c <= 'z'
    ||| 'A' <= c && c <= 'Z'
    ||| '0' <= c && c <= '9'
    ||| c == '-'
    ||| c == '_'
}

/// Why a session id is not accepted, if it is not.
pub open spec fn id_refusal(id: Seq<char>) -> Option<SessionIdError> {
    if id.len() == 0 || text::byte_len(id) > 64 {
        Some(SessionIdError::Length)
    } else if exists|i: int| 0 <= i < id.len() && !id_char(#[trigger] id[i]) {
        Some(SessionIdError::Characters)
    } else {
        None
    }
}

/// A session id has one to sixty-four characters, each of which is a letter or a digit
/// without accents, a hyphen or an underscore. Nothing else is a session id.
pub proof fn law_session_ids_are_these(id: Seq<char>)
    ensures
        id_refusal(id) is None <==> 1 <= id.len() <= 64 && forall|i: int|
            0 <= i < id.len() ==> {
                let c = #[trigger] id[i];
                'a' <= c <= 'z' || 'A' <= c <= 'Z' || '0' <= c <= '9' || c == '-' || c == '_'
            },
        id.len() == 0 || text::byte_len(id) > 64 ==> id_refusal(id) == Some(SessionIdError::Length),
        id_refusal(id) is Some && 1 <= id.len() && text::byte_len(id) <= 64 ==> id_refusal(id)
            == Some(SessionIdError::Characters),
{
    let fine = forall|i: int|
        0 <= i < id.len() ==> {
            let c = #[trigger] id[i];
            'a' <= c <= 'z' || 'A' <= c <= 'Z' || '0' <= c <= '9' || c == '-' || c == '_'
        };
    lemma_at_least_one_byte(id, id.len() as int);
    assert(id.take(id.len() as int) =~= id);
    if fine {
        assert forall|i: int| 0 <= i < id.len() implies id_char(#[trigger] id[i]) by {}
        assert(vstd::utf8::is_ascii_chars(id));
        vstd::utf8::is_ascii_chars_encode_utf8(id);
    }
    if id_refusal(id) is None {
        assert forall|i: int| 0 <= i < id.len() implies {
            let c = #[trigger] id[i];
            'a' <= c <= 'z' || 'A' <= c <= 'Z' || '0' <= c <= '9' || c == '-' || c == '_'
        } by {
            assert(id_char(id[i]));
        }
    }
}

proof fn lemma_at_least_one_byte(text: Seq<char>, n: int)
    requires
        0 <= n <= text.len(),
    ensures
        text::byte_len(text.take(n)) >= n,
    decreases n,
{
    if n > 0 {
        lemma_at_least_one_byte(text, n - 1);
        text::lemma_byte_len_step(text, n - 1);
    }
}

/// Accepts a session id of 1 to 64 characters out of `[A-Za-z0-9_-]`.
pub fn validate_session_id(session_id: &str) -> (r: Result<(), SessionIdError>)
    ensures
        match id_refusal(session_id@) {
            Some(e) => r == Err::<(), SessionIdError>(e),
            None => r is Ok,
        },
{
    let chars = text::chars_of(session_id);
    if chars.len() == 0 || text::text_bytes(session_id) > 64 {
        return Err(SessionIdError::Length);
    }
    let mut i: usize = 0;
    while i < chars.len()
        invariant
            i <= chars@.len(),
            chars@ == session_id@,
            text::byte_len(session_id@) <= 64,
            chars@.len() > 0,
            forall|k: int| 0 <= k < i ==> id_char(#[trigger] chars@[k]),
        decreases chars@.len() - i,
    {
        let c: char = chars[i];
        if !('a' <= c && c <= 'z' || 'A' <= c && c <= 'Z' || '0' <= c && c <= '9' || c == '-' || c
            == '_') {
            proof {
                assert(!id_char(session_id@[i as int]));
            }
            return Err(SessionIdError::Characters);
        }
        i += 1;
    }
    Ok(())
}

/// The ending of a session's file name.
pub open spec fn file_ending() -> Seq<char> {
    ".session.json"@
}

/// The name of a session's file.
pub open spec fn file_name(id: Seq<char>) -> Seq<char> {
    id + file_ending()
}

/// Whether a text ends with another one.
pub open spec fn ends_with(text: Seq<char>, ending: Seq<char>) -> bool {
    text::stands_at(text, ending, text.len() - ending.len())
}

/// A text without an ending, however often it has it.
pub open spec fn without_endings(text: Seq<char>, ending: Seq<char>) -> Seq<char>
    decreases text.len(),
{
    if ending.len() > 0 && ends_with(text, ending) {
        without_endings(text.take(text.len() - ending.len()), ending)
    } else {
        text
    }
}

/// The session that a file is of, if its name is that of a session's file.
pub open spec fn id_of_file(name: Seq<char>) -> Option<Seq<char>> {
    let id = without_endings(name, file_ending());
    if ends_with(name, file_ending()) && id_refusal(id) is None {
        Some(id)
    } else {
        None
    }
}

/// Taking an ending off a text takes it off as often as it stands there: what is left
/// does not end so, and one more ending makes no difference.
pub proof fn law_endings_are_all_taken_off(text: Seq<char>, ending: Seq<char>)
    requires
        ending.len() > 0,
    ensures
        !ends_with(without_endings(text, ending), ending),
        without_endings(text + ending, ending) == without_endings(text, ending),
        !ends_with(text, ending) ==> without_endings(text, ending) == text,
        ends_with(text, ending) <==> exists|head: Seq<char>| text == #[trigger] (head + ending),
    decreases text.len(),
{
    let more = text + ending;
    assert(more.subrange(more.len() - ending.len(), more.len() as int) =~= ending);
    assert(more.take(more.len() - ending.len()) =~= text);
    if ends_with(text, ending) {
        let head = text.take(text.len() - ending.len());
        assert(text =~= head + ending);
        law_endings_are_all_taken_off(head, ending);
    }
    if exists|head: Seq<char>| text == #[trigger] (head + ending) {
        let head = choose|head: Seq<char>| text == #[trigger] (head + ending);
        assert(text.subrange(text.len() - ending.len(), text.len() as int) =~= ending);
    }
}

/// A file is a session's exactly where its name ends so and what is left without the
/// ending is a session id.
pub proof fn law_session_files_are_these(name: Seq<char>)
    ensures
        id_of_file(name) is Some <==> ends_with(name, ".session.json"@) && id_refusal(
            without_endings(name, ".session.json"@),
        ) is None,
        id_of_file(name) is Some ==> id_of_file(name)->0 == without_endings(
            name,
            ".session.json"@,
        ),
{
}

/// Where a session is kept.
#[derive(Debug)]
pub enum SessionPlace {
    /// At a given path.
    At(String),
    /// In the directory of sessions, under a file name.
    InDirectory(String),
}

impl AgentManagerConfig {
    /// Where a session is kept: the default session where it was put, any other
    /// one in the directory of sessions.
    pub fn session_path_for(&self, session_id: &str) -> (r: SessionPlace)
        ensures
            if session_id@ == self.default_session_id@ && self.default_session_path_override
                is Some {
                r matches SessionPlace::At(p) && p@ == self.default_session_path_override->0@
            } else {
                r matches SessionPlace::InDirectory(f) && f@ == file_name(session_id@)
            },
    {
        if text::text_eq(session_id, self.default_session_id.as_str()) {
            if let Some(p) = &self.default_session_path_override {
                return SessionPlace::At(p.clone());
            }
        }
        let mut name = String::from_str(session_id);
        name.append(".session.json");
        SessionPlace::InDirectory(name)
    }
}

/// The session that a file is of, if its name is that of a session's file.
pub fn session_of_file(name: &str) -> (r: Option<String>)
    ensures
        match id_of_file(name@) {
            Some(id) => r is Some && r->0@ == id,
            None => r is None,
        },
{
    proof {
        reveal_strlit(".session.json");
    }
    let chars = text::chars_of(name);
    let ending = text::chars_of(".session.json");
    let mut end: usize = chars.len();
    proof {
        assert(chars@.take(end as int) =~= name@);
    }
    while end >= ending.len() && text::pattern_stands_at(&chars, &ending, end - ending.len())
        invariant
            end <= chars@.len(),
            chars@ == name@,
            ending@ == file_ending(),
            ending@.len() == 13,
            without_endings(name@, file_ending()) == without_endings(
                chars@.take(end as int),
                file_ending(),
            ),
            end < chars@.len() ==> ends_with(name@, file_ending()),
        decreases end,
    {
        proof {
            let t = chars@.take(end as int);
            let from = end - ending@.len();
            assert(t.subrange(from, end as int) =~= chars@.subrange(from, end as int));
            assert(t.take(from) =~= chars@.take(from));
        }
        end = end - ending.len();
    }
    proof {
        let t = chars@.take(end as int);
        if end >= ending@.len() {
            let from = end - ending@.len();
            assert(t.subrange(from, end as int) =~= chars@.subrange(from, end as int));
        }
        assert(!ends_with(t, file_ending()));
        if end == chars@.len() {
            assert(t =~= name@);
        }
        assert(chars@.subrange(0, end as int) =~= t);
    }
    if end == chars.len() {
        return None;
    }
    let id = text::text_between(&chars, 0, end);
    match validate_session_id(id.as_str()) {
        Ok(_) => Some(id),
        Err(_) => None,
    }
}

/// The sessions of some files, each given with its name and its path.
pub open spec fn sessions_of_files(files: Seq<(Seq<char>, Seq<char>)>) -> Seq<InfoView>
    decreases files.len(),
{
    if files.len() == 0 {
        Seq::empty()
    } else {
        let before = sessions_of_files(files.drop_last());
        match id_of_file(files.last().0) {
            Some(id) => before.push(
                InfoView { session_id: id, path: files.last().1, exists_on_disk: true },
            ),
            None => before,
        }
    }
}

/// Whether a session is among some.
pub open spec fn lists(infos: Seq<InfoView>, id: Seq<char>) -> bool {
    exists|i: int| 0 <= i < infos.len() && (#[trigger] infos[i]).session_id == id
}

/// Sessions and, after them, those others that are not among them.
pub open spec fn with_others(infos: Seq<InfoView>, others: Seq<InfoView>) -> Seq<InfoView>
    decreases others.len(),
{
    if others.len() == 0 {
        infos
    } else {
        let before = with_others(infos, others.drop_last());
        if lists(before, others.last().session_id) {
            before
        } else {
            before.push(others.last())
        }
    }
}

/// How many leading sessions have an id that does not come after `id`.
pub open spec fn not_after(infos: Seq<InfoView>, id: Seq<char>) -> nat
    decreases infos.len(),
{
    if infos.len() > 0 && !text::text_order(id, infos[0].session_id) {
        1 + not_after(infos.skip(1), id)
    } else {
        0
    }
}

/// Sessions in the order of their ids, equal ones as they were given.
pub open spec fn by_id(infos: Seq<InfoView>) -> Seq<InfoView>
    decreases infos.len(),
{
    if infos.len() == 0 {
        Seq::empty()
    } else {
        let before = by_id(infos.drop_last());
        before.insert(not_after(before, infos.last().session_id) as int, infos.last())
    }
}

/// The listing of sessions: those on disk, then the others that are not among
/// them, in the order of their ids.
pub open spec fn listing(files: Seq<(Seq<char>, Seq<char>)>, others: Seq<InfoView>) -> Seq<
    InfoView,
> {
    by_id(with_others(sessions_of_files(files), others))
}

fn lists_session(infos: &Vec<SessionInfo>, id: &str) -> (r: bool)
    ensures
        r == lists(info_views(infos@), id@),
{
    let ghost all = info_views(infos@);
    let mut i: usize = 0;
    while i < infos.len()
        invariant
            i <= infos@.len(),
            all == info_views(infos@),
            forall|k: int| 0 <= k < i ==> (#[trigger] all[k]).session_id != id@,
        decreases infos@.len() - i,
    {
        if text::text_eq(infos[i].session_id.as_str(), id) {
            proof {
                assert(all[i as int].session_id == id@);
            }
            return true;
        }
        i += 1;
    }
    false
}

fn insert_by_id(infos: &mut Vec<SessionInfo>, info: SessionInfo)
    ensures
        info_views(final(infos)@) == info_views(old(infos)@).insert(
            not_after(info_views(old(infos)@), info@.session_id) as int,
            info@,
        ),
{
    let ghost all = info_views(infos@);
    let mut i: usize = 0;
    proof {
        assert(all.skip(0) =~= all);
        lemma_not_after(all, info@.session_id);
    }
    while i < infos.len() && !text::text_before(
        info.session_id.as_str(),
        infos[i].session_id.as_str(),
    )
        invariant
            i <= infos@.len(),
            infos@ == old(infos)@,
            all == info_views(infos@),
            not_after(all, info@.session_id) == i + not_after(
                all.skip(i as int),
                info@.session_id,
            ),
        decreases infos@.len() - i,
    {
        proof {
            assert(all.skip(i as int)[0] == infos@[i as int]@);
            assert(all.skip(i as int).skip(1) =~= all.skip(i + 1));
        }
        i += 1;
    }
    proof {
        if i < infos@.len() {
            assert(all.skip(i as int)[0] == infos@[i as int]@);
        }
    }
    infos.insert(i, info);
    proof {
        assert(info_views(infos@) =~= all.insert(i as int, info@));
    }
}

/// Lists sessions: those of the files in the directory of sessions, which come
/// with their names and paths, then those of the others, the default one and the
/// ones in memory, that are not among them.
pub fn list_sessions(files: &Vec<(String, String)>, others: &Vec<SessionInfo>) -> (r: Vec<
    SessionInfo,
>)
    ensures
        info_views(r@) == listing(text::pair_views(files@), info_views(others@)),
{
    let ghost named = text::pair_views(files@);
    let mut found: Vec<SessionInfo> = Vec::new();
    let mut i: usize = 0;
    proof {
        assert(info_views(found@) =~= sessions_of_files(named.take(0)));
    }
    while i < files.len()
        invariant
            i <= files@.len(),
            named == text::pair_views(files@),
            info_views(found@) == sessions_of_files(named.take(i as int)),
        decreases files@.len() - i,
    {
        let ghost before = found@;
        proof {
            assert(named.take(i + 1).drop_last() =~= named.take(i as int));
            assert(named.take(i + 1).last() == named[i as int]);
        }
        if let Some(id) = session_of_file(files[i].0.as_str()) {
            found.push(
                SessionInfo { session_id: id, path: files[i].1.clone(), exists_on_disk: true },
            );
            proof {
                assert(info_views(found@) =~= info_views(before).push(found@.last()@));
            }
        }
        i += 1;
    }
    let ghost on_disk = sessions_of_files(named);
    let ghost rest = info_views(others@);
    proof {
        assert(named.take(named.len() as int) =~= named);
        assert(rest.take(0) =~= Seq::empty());
    }
    let mut j: usize = 0;
    while j < others.len()
        invariant
            j <= others@.len(),
            rest == info_views(others@),
            info_views(found@) == with_others(on_disk, rest.take(j as int)),
        decreases others@.len() - j,
    {
        let ghost before = found@;
        proof {
            assert(rest.take(j + 1).drop_last() =~= rest.take(j as int));
            assert(rest.take(j + 1).last() == others@[j as int]@);
        }
        if !lists_session(&found, others[j].session_id.as_str()) {
            found.push(others[j].clone());
            proof {
                assert(info_views(found@) =~= info_views(before).push(others@[j as int]@));
            }
        }
        j += 1;
    }
    let ghost whole = info_views(found@);
    proof {
        assert(rest.take(rest.len() as int) =~= rest);
    }
    let mut out: Vec<SessionInfo> = Vec::new();
    let mut k: usize = 0;
    proof {
        assert(info_views(out@) =~= by_id(whole.take(0)));
    }
    while k < found.len()
        invariant
            k <= found@.len(),
            whole == info_views(found@),
            info_views(out@) == by_id(whole.take(k as int)),
        decreases found@.len() - k,
    {
        proof {
            assert(whole.take(k + 1).drop_last() =~= whole.take(k as int));
            assert(whole.take(k + 1).last() == found@[k as int]@);
        }
        insert_by_id(&mut out, found[k].clone());
        k += 1;
    }
    proof {
        assert(whole.take(whole.len() as int) =~= whole);
    }
    out
}

proof fn lemma_not_after(infos: Seq<InfoView>, id: Seq<char>)
    ensures
        not_after(infos, id) <= infos.len(),
        forall|i: int|
            0 <= i < not_after(infos, id) ==> !text::text_order(
                id,
                (#[trigger] infos[i]).session_id,
            ),
        not_after(infos, id) < infos.len() ==> text::text_order(
            id,
            infos[not_after(infos, id) as int].session_id,
        ),
    decreases infos.len(),
{
    if infos.len() > 0 && !text::text_order(id, infos[0].session_id) {
        let rest = infos.skip(1);
        lemma_not_after(rest, id);
        assert forall|i: int| 0 <= i < not_after(infos, id) implies !text::text_order(
            id,
            (#[trigger] infos[i]).session_id,
        ) by {
            if i > 0 {
                assert(rest[i - 1] == infos[i]);
            }
        }
    }
}

/// Putting sessions in the order of their ids adds and drops none, and no
/// session comes before one with a smaller id.
pub proof fn law_listing_is_sorted(infos: Seq<InfoView>)
    ensures
        by_id(infos).to_multiset() == infos.to_multiset(),
        forall|i: int, j: int|
            0 <= i < j < by_id(infos).len() ==> !text::text_order(
                (#[trigger] by_id(infos)[j]).session_id,
                (#[trigger] by_id(infos)[i]).session_id,
            ),
    decreases infos.len(),
{
    broadcast use vstd::seq_lib::group_to_multiset_ensures;

    if infos.len() > 0 {
        let front = infos.drop_last();
        let last = infos.last();
        law_listing_is_sorted(front);
        let before = by_id(front);
        lemma_not_after(before, last.session_id);
        let p = not_after(before, last.session_id) as int;
        let after = by_id(infos);
        assert(after == before.insert(p, last));
        assert(infos =~= front.push(last));
        assert forall|i: int, j: int| 0 <= i < j < after.len() implies !text::text_order(
            (#[trigger] after[j]).session_id,
            (#[trigger] after[i]).session_id,
        ) by {
            let a = if i < p { i } else { i - 1 };
            let b = if j < p { j } else { j - 1 };
            if i != p {
                assert(after[i] == before[a]);
            }
            if j != p {
                assert(after[j] == before[b]);
            }
            if i == p {
                let next = before[p].session_id;
                text::law_text_order(last.session_id, next, after[j].session_id);
                text::law_text_order(after[j].session_id, last.session_id, next);
                if b > p {
                    assert(!text::text_order(before[b].session_id, before[p].session_id));
                }
            }
        }
    } else {
        assert(by_id(infos) =~= infos);
    }
}

/// Sessions with one id are listed in the order in which they were given.
#[verifier::spinoff_prover]
#[verifier::rlimit(40)]
pub proof fn law_listing_is_stable(infos: Seq<InfoView>, id: Seq<char>)
    ensures
        by_id(infos).filter(|info: InfoView| info.session_id == id) == infos.filter(
            |info: InfoView| info.session_id == id,
        ),
    decreases infos.len(),
{
    reveal(Seq::filter);
    if infos.len() > 0 {
        let front = infos.drop_last();
        let last = infos.last();
        let same = |info: InfoView| info.session_id == id;
        law_listing_is_stable(front, id);
        law_listing_is_sorted(front);
        let before = by_id(front);
        lemma_not_after(before, last.session_id);
        let p = not_after(before, last.session_id) as int;
        let after = by_id(infos);
        let head = before.take(p);
        let tail = before.skip(p);
        assert(before =~= head + tail);
        assert(after =~= head.push(last) + tail);
        Seq::filter_distributes_over_add(head, tail, same);
        Seq::filter_distributes_over_add(head.push(last), tail, same);
        assert(head.push(last).drop_last() =~= head);
        if last.session_id == id {
            assert forall|i: int| 0 <= i < tail.len() implies !same(#[trigger] tail[i]) by {
                assert(tail[i] == before[p + i]);
                let next = before[p].session_id;
                text::law_text_order(id, next, id);
                if i > 0 {
                    assert(!text::text_order(before[p + i].session_id, before[p].session_id));
                }
            }
            tail.lemma_all_neg_filter_empty(same);
            assert(tail.filter(same) =~= Seq::empty());
            assert(after.filter(same) =~= before.filter(same).push(last));
        } else {
            assert(after.filter(same) =~= before.filter(same));
        }
    } else {
        assert(by_id(infos) =~= infos);
    }
}

/// A session's file bears the id of the session and the ending of session files.
pub proof fn law_session_file_bears_the_id(id: Seq<char>)
    ensures
        file_name(id) == id + ".session.json"@,
{
}

/// A listing names every session that has a file and every other one that it is given,
/// and no others.
pub proof fn law_listing_names_every_session(
    files: Seq<(Seq<char>, Seq<char>)>,
    others: Seq<InfoView>,
    id: Seq<char>,
)
    ensures
        lists(listing(files, others), id) <==> (exists|i: int|
            0 <= i < files.len() && id_of_file((#[trigger] files[i]).0) == Some(id)) || lists(
            others,
            id,
        ),
{
    let found = sessions_of_files(files);
    let all = with_others(found, others);
    lemma_files_listed(files, id);
    lemma_others_listed(found, others, id);
    law_listing_is_sorted(all);
    lemma_lists_same(by_id(all), all, id);
}

proof fn lemma_lists_same(a: Seq<InfoView>, b: Seq<InfoView>, id: Seq<char>)
    requires
        a.to_multiset() == b.to_multiset(),
    ensures
        lists(a, id) <==> lists(b, id),
{
    broadcast use vstd::seq_lib::group_to_multiset_ensures;

    if lists(a, id) {
        let i = choose|i: int| 0 <= i < a.len() && (#[trigger] a[i]).session_id == id;
        assert(a.contains(a[i]));
        assert(a.to_multiset().count(a[i]) > 0);
        assert(b.contains(a[i]));
        let j = b.index_of(a[i]);
        assert(b[j].session_id == id);
    }
    if lists(b, id) {
        let i = choose|i: int| 0 <= i < b.len() && (#[trigger] b[i]).session_id == id;
        assert(b.contains(b[i]));
        assert(b.to_multiset().count(b[i]) > 0);
        assert(a.contains(b[i]));
        let j = a.index_of(b[i]);
        assert(a[j].session_id == id);
    }
}

proof fn lemma_files_listed(files: Seq<(Seq<char>, Seq<char>)>, id: Seq<char>)
    ensures
        lists(sessions_of_files(files), id) <==> exists|i: int|
            0 <= i < files.len() && id_of_file((#[trigger] files[i]).0) == Some(id),
    decreases files.len(),
{
    if files.len() > 0 {
        let front = files.drop_last();
        lemma_files_listed(front, id);
        let before = sessions_of_files(front);
        let all = sessions_of_files(files);
        if lists(all, id) {
            let i = choose|i: int| 0 <= i < all.len() && (#[trigger] all[i]).session_id == id;
            if i < before.len() {
                assert(before[i].session_id == id);
                let j = choose|j: int|
                    0 <= j < front.len() && id_of_file((#[trigger] front[j]).0) == Some(id);
                assert(files[j] == front[j]);
            } else {
                assert(id_of_file(files[files.len() - 1].0) == Some(id));
            }
        }
        if exists|i: int| 0 <= i < files.len() && id_of_file((#[trigger] files[i]).0) == Some(id) {
            let i = choose|i: int|
                0 <= i < files.len() && id_of_file((#[trigger] files[i]).0) == Some(id);
            if i < front.len() {
                assert(front[i] == files[i]);
                let j = choose|j: int|
                    0 <= j < before.len() && (#[trigger] before[j]).session_id == id;
                assert(all[j].session_id == id);
            } else {
                assert(all[all.len() - 1].session_id == id);
            }
        }
    }
}

proof fn lemma_others_listed(infos: Seq<InfoView>, others: Seq<InfoView>, id: Seq<char>)
    ensures
        lists(with_others(infos, others), id) <==> lists(infos, id) || lists(others, id),
        infos.is_prefix_of(with_others(infos, others)),
    decreases others.len(),
{
    if others.len() == 0 {
        assert(infos =~= infos.subrange(0, infos.len() as int));
    } else {
        let front = others.drop_last();
        let last = others.last();
        lemma_others_listed(infos, front, id);
        let before = with_others(infos, front);
        let all = with_others(infos, others);
        assert(infos =~= before.subrange(0, infos.len() as int));
        assert(infos =~= all.subrange(0, infos.len() as int));
        if lists(front, id) {
            let i = choose|i: int| 0 <= i < front.len() && (#[trigger] front[i]).session_id == id;
            assert(others[i].session_id == id);
        }
        if lists(others, id) {
            let i = choose|i: int| 0 <= i < others.len() && (#[trigger] others[i]).session_id == id;
            if i < front.len() {
                assert(front[i].session_id == id);
            }
        }
        assert(others[others.len() - 1] == last);
        if lists(before, id) {
            let i = choose|i: int| 0 <= i < before.len() && (#[trigger] before[i]).session_id == id;
            assert(all[i].session_id == id);
        }
        if lists(all, id) {
            let i = choose|i: int| 0 <= i < all.len() && (#[trigger] all[i]).session_id == id;
            if i < before.len() {
                assert(before[i].session_id == id);
            }
        }
        if !lists(before, last.session_id) && last.session_id == id {
            assert(all[all.len() - 1].session_id == id);
        }
    }
}

/// A session that has a file is listed as it is on disk: with the path of the file, and
/// said to be there. What else is listed is one of the others, as it was given.
pub proof fn law_files_prevail_in_a_listing(
    files: Seq<(Seq<char>, Seq<char>)>,
    others: Seq<InfoView>,
    k: int,
)
    requires
        0 <= k < listing(files, others).len(),
    ensures
        ({
            let info = listing(files, others)[k];
            ||| exists|i: int|
                0 <= i < files.len() && id_of_file((#[trigger] files[i]).0) == Some(info.session_id)
                    && info.path == files[i].1 && info.exists_on_disk
            ||| others.contains(info) && forall|i: int|
                0 <= i < files.len() ==> id_of_file((#[trigger] files[i]).0) != Some(
                    info.session_id,
                )
        }),
{
    broadcast use vstd::seq_lib::group_to_multiset_ensures;

    let found = sessions_of_files(files);
    let all = with_others(found, others);
    let info = listing(files, others)[k];
    law_listing_is_sorted(all);
    assert(by_id(all).contains(info));
    assert(by_id(all).to_multiset().count(info) > 0);
    assert(all.contains(info));
    lemma_listed_from(found, others, all.index_of(info));
    lemma_files_listed(files, info.session_id);
    if found.contains(info) {
        lemma_found_from(files, found.index_of(info));
    }
}

proof fn lemma_found_from(files: Seq<(Seq<char>, Seq<char>)>, k: int)
    requires
        0 <= k < sessions_of_files(files).len(),
    ensures
        exists|i: int|
            0 <= i < files.len() && id_of_file((#[trigger] files[i]).0) == Some(
                sessions_of_files(files)[k].session_id,
            ) && sessions_of_files(files)[k].path == files[i].1 && sessions_of_files(
                files,
            )[k].exists_on_disk,
    decreases files.len(),
{
    let front = files.drop_last();
    let before = sessions_of_files(front);
    if k < before.len() {
        lemma_found_from(front, k);
        let i = choose|i: int|
            0 <= i < front.len() && id_of_file((#[trigger] front[i]).0) == Some(
                before[k].session_id,
            ) && before[k].path == front[i].1 && before[k].exists_on_disk;
        assert(files[i] == front[i]);
        assert(sessions_of_files(files)[k] == before[k]);
    } else {
        assert(files[files.len() - 1] == files.last());
    }
}

proof fn lemma_listed_from(infos: Seq<InfoView>, others: Seq<InfoView>, k: int)
    requires
        0 <= k < with_others(infos, others).len(),
    ensures
        ({
            let info = with_others(infos, others)[k];
            infos.contains(info) || others.contains(info) && !lists(infos, info.session_id)
        }),
    decreases others.len(),
{
    let all = with_others(infos, others);
    if others.len() == 0 {
        assert(infos.contains(all[k]));
    } else {
        let front = others.drop_last();
        let before = with_others(infos, front);
        if k < before.len() {
            lemma_listed_from(infos, front, k);
            assert(all[k] == before[k]);
            if front.contains(before[k]) {
                let i = front.index_of(before[k]);
                assert(others[i] == before[k]);
            }
        } else {
            let last = others.last();
            assert(others[others.len() - 1] == last);
            lemma_others_listed(infos, front, last.session_id);
        }
    }
}

/// The name of a session's file stays in its directory: it holds no separator
/// of paths and is neither `.` nor `..`.
pub proof fn law_session_file_stays_in_its_directory(id: Seq<char>)
    requires
        id_refusal(id) is None,
    ensures
        !file_name(id).contains('/'),
        !file_name(id).contains('\\'),
        file_name(id) != "."@,
        file_name(id) != ".."@,
{
    reveal_strlit(".session.json");
    reveal_strlit(".");
    reveal_strlit("..");
    assert forall|i: int| 0 <= i < file_name(id).len() implies file_name(id)[i] != '/' && file_name(
        id,
    )[i] != '\\' by {
        if i < id.len() {
            assert(id_char(id[i]));
            assert(file_name(id)[i] == id[i]);
        } else {
            assert(file_name(id)[i] == file_ending()[i - id.len()]);
        }
    }
    assert(file_name(id).len() > 2);
}

/// A session is found again under its id: the file of a session is listed as
/// that session's, so that no two sessions share a file.
pub proof fn law_session_file_names_its_session(id: Seq<char>)
    requires
        id_refusal(id) is None,
    ensures
        id_of_file(file_name(id)) == Some(id),
{
    reveal_strlit(".session.json");
    let e = file_ending();
    let name = file_name(id);
    assert(name.subrange(name.len() - e.len(), name.len() as int) =~= e);
    assert(ends_with(name, e));
    assert(name.take(name.len() - e.len()) =~= id);
    if ends_with(id, e) {
        let from = id.len() - e.len();
        assert(id.subrange(from, id.len() as int)[0] == id[from]);
        assert(id[from] == '.');
        assert(!id_char(id[from]));
    }
    assert(without_endings(id, e) == id);
}

/// Why a session is not created.
#[derive(Debug, Copy, Clone, PartialEq, Eq, Structural)]
pub enum CreateError {
    Id(SessionIdError),
    Exists,
}

impl CreateError {
    /// The message of the error.
    pub open spec fn spec_message(self) -> Seq<char> {
        match self {
            CreateError::Id(e) => e.spec_message(),
            CreateError::Exists => "session already exists"@,
        }
    }

    /// The message of the error.
    pub fn message(&self) -> (r: &'static str)
        ensures
            r@ == self.spec_message(),
    {
        match self {
            CreateError::Id(e) => e.message(),
            CreateError::Exists => "session already exists",
        }
    }
}

/// The id of a session to be created: the one that was asked for, if it is
/// accepted, or a fresh one.
pub fn new_session_id(requested: Option<String>) -> (r: Result<String, CreateError>)
    ensures
        match requested {
            Some(id) => match id_refusal(id@) {
                Some(e) => r == Err::<String, CreateError>(CreateError::Id(e)),
                None => r is Ok && r->Ok_0@ == id@,
            },
            None => r is Ok && exists|bytes: Seq<u8>|
                crypto::is_random_uuid(bytes) && r->Ok_0@ == #[trigger] crypto::uuid_notation(
                    bytes,
                ),
        },
        r matches Ok(id) ==> id_refusal(id@) is None,
{
    match requested {
        Some(id) => match validate_session_id(id.as_str()) {
            Ok(_) => Ok(id),
            Err(e) => Err(CreateError::Id(e)),
        },
        None => {
            let uuid = crypto::random_uuid();
            let id = uuid.text();
            proof {
                lemma_uuid_is_an_id(uuid.bytes@);
            }
            Ok(id)
        },
    }
}

proof fn lemma_hex_chars(bytes: Seq<u8>)
    ensures
        text::hex(bytes).len() == 2 * bytes.len(),
        forall|i: int|
            0 <= i < text::hex(bytes).len() ==> id_char(#[trigger] text::hex(bytes)[i]),
    decreases bytes.len(),
{
    if bytes.len() > 0 {
        lemma_hex_chars(bytes.drop_last());
        let h = text::hex(bytes.drop_last());
        assert forall|i: int| 0 <= i < text::hex(bytes).len() implies id_char(
            #[trigger] text::hex(bytes)[i],
        ) by {
            if i < h.len() {
                assert(text::hex(bytes)[i] == h[i]);
            }
        }
    }
}

proof fn lemma_uuid_is_an_id(bytes: Seq<u8>)
    requires
        bytes.len() == 16,
    ensures
        id_refusal(crypto::uuid_notation(bytes)) is None,
{
    lemma_hex_chars(bytes);
    let id = crypto::uuid_notation(bytes);
    assert(id.len() == 36);
    assert(forall|i: int| 0 <= i < id.len() ==> id_char(#[trigger] id[i]));
    lemma_ascii_bytes(id);
}

proof fn lemma_ascii_bytes(text: Seq<char>)
    requires
        forall|i: int| 0 <= i < text.len() ==> id_char(#[trigger] text[i]),
    ensures
        text::byte_len(text) == text.len(),
{
    assert(vstd::utf8::is_ascii_chars(text));
    vstd::utf8::is_ascii_chars_encode_utf8(text);
}

impl AgentManagerConfig {
    /// The session to be created, unless there is one in its place.
    pub fn create_session(&self, exists_on_disk: bool, system_prompt: Option<String>) -> (r: Result<
        Session,
        CreateError,
    >)
        ensures
            if exists_on_disk {
                r is Err && r->Err_0 == CreateError::Exists
            } else {
                r is Ok && session::is_new_session(
                    r->Ok_0@,
                    match system_prompt {
                        Some(s) => s@,
                        None => self.default_system_prompt@,
                    },
                )
            },
    {
        if exists_on_disk {
            return Err(CreateError::Exists);
        }
        let system = match system_prompt {
            Some(s) => s,
            None => self.default_system_prompt.clone(),
        };
        Ok(Session::new(system))
    }
}

/// How a session is brought into memory.
#[derive(Debug, Copy, Clone, PartialEq, Eq, Structural)]
pub enum OpenPlan {
    /// It is there.
    InMemory,
    /// It is read from disk.
    Load,
    /// It is created with the default system prompt.
    Create,
}

/// Decides how a session is brought into memory.
pub fn get_or_load(session_id: &str, in_memory: bool, on_disk: bool) -> (r: Result<
    OpenPlan,
    SessionIdError,
>)
    ensures
        match id_refusal(session_id@) {
            Some(e) => r == Err::<OpenPlan, SessionIdError>(e),
            None => r == Ok::<OpenPlan, SessionIdError>(
                if in_memory {
                    OpenPlan::InMemory
                } else if on_disk {
                    OpenPlan::Load
                } else {
                    OpenPlan::Create
                },
            ),
        },
{
    match validate_session_id(session_id) {
        Err(e) => Err(e),
        Ok(_) => if in_memory {
            Ok(OpenPlan::InMemory)
        } else if on_disk {
            Ok(OpenPlan::Load)
        } else {
            Ok(OpenPlan::Create)
        },
    }
}

} // verus!
