//! Client-side redaction.
//!
//! Sensitive strings give way to placeholders before a prompt leaves the
//! client. The mapping stays local, so that what comes back can be rehydrated.

use vstd::prelude::*;
use vstd::string::*;
use vstd::utf8::encode_utf8;

use crate::crypto;
use crate::crypto::{key_of_text, sha256_digest, KeyTextError};
use crate::text;
use crate::text::{byte_len, hex, occurs, pair_views, substituted, trimmed, views};

verus! {

/// How aggressively to redact before a prompt leaves the client.
#[derive(Copy, Clone, Debug, PartialEq, Eq, Structural)]
pub enum RedactMode {
    /// Nothing is redacted.
    Off,
    /// Common identifiers and secrets.
    Basic,
    /// Links too.
    Strict,
}

/// What a placeholder stands for.
#[derive(Copy, Clone, Debug, PartialEq, Eq, Structural)]
pub enum RedactionKind {
    PrivateKey,
    ApiKey,
    Email,
    Phone,
    EthAddress,
    Url,
    Custom,
}

/// One placeholder and what it stands for.
#[derive(Debug)]
pub struct RedactionEntry {
    pub placeholder: String,
    pub original: String,
    pub kind: RedactionKind,
}

/// What an entry holds.
pub struct EntryView {
    pub placeholder: Seq<char>,
    pub original: Seq<char>,
    pub kind: RedactionKind,
}

impl View for RedactionEntry {
    type V = EntryView;

    open spec fn view(&self) -> EntryView {
        EntryView {
            placeholder: self.placeholder@,
            original: self.original@,
            kind: self.kind,
        }
    }
}

impl Clone for RedactionEntry {
    fn clone(&self) -> (r: Self)
        ensures
            r@ == self@,
    {
        RedactionEntry {
            placeholder: self.placeholder.clone(),
            original: self.original.clone(),
            kind: self.kind,
        }
    }
}

/// What a redactor keeps between sessions.
#[derive(Debug)]
pub struct RedactionState {
    /// Base64-encoded 32-byte salt.
    pub salt_b64: String,
    /// Placeholders and what they stand for.
    pub entries: Vec<RedactionEntry>,
    /// Further terms that the user wants redacted.
    pub custom_terms: Vec<String>,
}

/// What a redaction state holds.
#[verifier::ext_equal]
pub struct RedactionView {
    pub salt_b64: Seq<char>,
    pub entries: Seq<EntryView>,
    pub custom_terms: Seq<Seq<char>>,
}

/// What some entries hold.
pub open spec fn entry_views(entries: Seq<RedactionEntry>) -> Seq<EntryView> {
    Seq::new(entries.len(), |i: int| entries[i]@)
}

impl View for RedactionState {
    type V = RedactionView;

    open spec fn view(&self) -> RedactionView {
        RedactionView {
            salt_b64: self.salt_b64@,
            entries: entry_views(self.entries@),
            custom_terms: views(self.custom_terms@),
        }
    }
}

impl Clone for RedactionState {
    fn clone(&self) -> (r: Self)
        ensures
            r@ == self@,
    {
        let mut entries: Vec<RedactionEntry> = Vec::new();
        let mut i: usize = 0;
        while i < self.entries.len()
            invariant
                i <= self.entries@.len(),
                entries@.len() == i,
                forall|k: int| 0 <= k < i ==> (#[trigger] entries@[k])@ == self.entries@[k]@,
            decreases self.entries@.len() - i,
        {
            entries.push(self.entries[i].clone());
            i += 1;
        }
        proof {
            assert(entry_views(entries@) =~= entry_views(self.entries@));
        }
        RedactionState {
            salt_b64: self.salt_b64.clone(),
            entries,
            custom_terms: text::copy_texts(&self.custom_terms),
        }
    }
}

impl RedactionState {
    /// A state with a salt and nothing else.
    pub fn new(salt_b64: String) -> (r: Self)
        ensures
            r@ == (RedactionView {
                salt_b64: salt_b64@,
                entries: Seq::empty(),
                custom_terms: Seq::empty(),
            }),
    {
        let r = RedactionState { salt_b64, entries: Vec::new(), custom_terms: Vec::new() };
        proof {
            assert(entry_views(r.entries@) =~= Seq::empty());
            assert(views(r.custom_terms@) =~= Seq::empty());
        }
        r
    }
}

/// A compiled regular expression.
#[verifier::external_type_specification]
#[verifier::external_body]
pub struct ExRegex(regex::Regex);

/// The error of a regular expression that does not compile.
#[verifier::external_type_specification]
#[verifier::external_body]
pub struct ExRegexError(regex::Error);

/// Whether a text is a regular expression.
pub uninterp spec fn regex_compiles(pattern: Seq<char>) -> bool;

/// The text of a compiled regular expression.
pub uninterp spec fn regex_pattern(re: regex::Regex) -> Seq<char>;

/// The matches of a regular expression in a text, from left to right, each as
/// the positions of its first character and of the character after its last.
pub uninterp spec fn regex_matches(pattern: Seq<char>, text: Seq<char>) -> Seq<(int, int)>;

/// Whether spans lie within a text of `len` characters, in order and without
/// overlap.
pub open spec fn spans_fit(spans: Seq<(int, int)>, len: nat) -> bool {
    &&& forall|k: int|
        0 <= k < spans.len() ==> 0 <= (#[trigger] spans[k]).0 <= spans[k].1 <= len
    &&& forall|k: int, m: int|
        0 <= k < m < spans.len() ==> (#[trigger] spans[k]).1 <= (#[trigger] spans[m]).0
}

/// Calls `regex::Regex::new`. Whether it compiles depends on the pattern alone,
/// and the expression keeps the pattern.
#[verifier::external_body]
fn compile(pattern: &str) -> (r: Result<regex::Regex, regex::Error>)
    ensures
        r is Ok <==> regex_compiles(pattern@),
        r matches Ok(re) ==> regex_pattern(re) == pattern@,
{
    regex::Regex::new(pattern)
}

/// Whether byte offsets in a text mark spans of its characters that fit.
pub open spec fn marks(
    offsets: Seq<(usize, usize)>,
    spans: Seq<(int, int)>,
    text: Seq<char>,
) -> bool {
    &&& offsets.len() == spans.len()
    &&& spans_fit(spans, text.len())
    &&& forall|k: int|
        0 <= k < spans.len() ==> (#[trigger] offsets[k]).0 == byte_len(text.take(spans[k].0))
            && offsets[k].1 == byte_len(text.take(spans[k].1))
}

/// Calls `regex::Regex::find_iter`, which yields the successive matches without
/// overlap, and takes their byte offsets, which lie between characters. The
/// matches depend on the pattern and on the text alone.
#[verifier::external_body]
fn find_spans(re: &regex::Regex, text: &str) -> (r: Vec<(usize, usize)>)
    ensures
        marks(r@, regex_matches(regex_pattern(*re), text@), text@),
{
    re.find_iter(text).map(|m| (m.start(), m.end())).collect()
}

/// Calls `clone` on a `regex::Regex`, which gives an expression with the same
/// pattern.
#[verifier::external_body]
fn copy_regex(re: &regex::Regex) -> (r: regex::Regex)
    ensures
        regex_pattern(r) == regex_pattern(*re),
{
    re.clone()
}

/// A kind of sensitive text: the pattern that finds it and the tag of its
/// placeholders.
pub struct RuleView {
    pub pattern: Seq<char>,
    pub kind: RedactionKind,
    pub tag: Seq<char>,
}

/// The rules in the order in which they apply: what is most damaging first, and
/// blocks of several lines before anything that may stand inside of them.
pub open spec fn basic_rules() -> Seq<RuleView> {
    seq![
        RuleView {
            pattern:
                "(?s)-----BEGIN [A-Z ]*PRIVATE KEY-----.*?-----END [A-Z ]*PRIVATE KEY-----"@,
            kind: RedactionKind::PrivateKey,
            tag: "PRIVATE_KEY"@,
        },
        RuleView { pattern: "sk-[A-Za-z0-9]{16,}"@, kind: RedactionKind::ApiKey, tag: "API_KEY"@ },
        RuleView {
            pattern: "[A-Za-z0-9._%+-]+@[A-Za-z0-9.-]+\\.[A-Za-z]{2,}"@,
            kind: RedactionKind::Email,
            tag: "EMAIL"@,
        },
        RuleView {
            pattern: "\\+?\\d[\\d\\s\\-()]{7,}\\d"@,
            kind: RedactionKind::Phone,
            tag: "PHONE"@,
        },
        RuleView {
            pattern: "0x[a-fA-F0-9]{40}"@,
            kind: RedactionKind::EthAddress,
            tag: "ETH_ADDR"@,
        },
    ]
}

/// The rule for links, which applies in strict mode only.
pub open spec fn url_rule() -> RuleView {
    RuleView { pattern: "https?://[^\\s]+"@, kind: RedactionKind::Url, tag: "URL"@ }
}

/// The rules of a mode.
pub open spec fn mode_rules(mode: RedactMode) -> Seq<RuleView> {
    match mode {
        RedactMode::Off => Seq::empty(),
        RedactMode::Basic => basic_rules(),
        RedactMode::Strict => basic_rules().push(url_rule()),
    }
}

struct Rule {
    re: regex::Regex,
    kind: RedactionKind,
    tag: &'static str,
}

impl Rule {
    spec fn holds(&self, view: RuleView) -> bool {
        &&& regex_pattern(self.re) == view.pattern
        &&& self.kind == view.kind
        &&& self.tag@ == view.tag
    }

    fn new(pattern: &str, kind: RedactionKind, tag: &'static str) -> (r: Result<Rule, regex::Error>)
        ensures
            r is Ok <==> regex_compiles(pattern@),
            r matches Ok(rule) ==> rule.holds(RuleView { pattern: pattern@, kind, tag: tag@ }),
    {
        match compile(pattern) {
            Ok(re) => Ok(Rule { re, kind, tag }),
            Err(e) => Err(e),
        }
    }
}

/// Whether every rule has a pattern that compiles.
pub open spec fn rules_compile() -> bool {
    forall|i: int|
        0 <= i < mode_rules(RedactMode::Strict).len() ==> regex_compiles(
            (#[trigger] mode_rules(RedactMode::Strict)[i]).pattern,
        )
}

fn compile_rules() -> (r: Result<Vec<Rule>, regex::Error>)
    ensures
        r is Ok <==> rules_compile(),
        r matches Ok(rules) ==> {
            &&& rules@.len() == 6
            &&& forall|i: int|
                0 <= i < 6 ==> (#[trigger] rules@[i]).holds(mode_rules(RedactMode::Strict)[i])
        },
{
    let ghost all = mode_rules(RedactMode::Strict);
    let mut rules: Vec<Rule> = Vec::new();
    match Rule::new(
        "(?s)-----BEGIN [A-Z ]*PRIVATE KEY-----.*?-----END [A-Z ]*PRIVATE KEY-----",
        RedactionKind::PrivateKey,
        "PRIVATE_KEY",
    ) {
        Ok(rule) => rules.push(rule),
        Err(e) => {
            proof {
                assert(!regex_compiles(all[0].pattern));
            }
            return Err(e);
        },
    }
    match Rule::new("sk-[A-Za-z0-9]{16,}", RedactionKind::ApiKey, "API_KEY") {
        Ok(rule) => rules.push(rule),
        Err(e) => {
            proof {
                assert(!regex_compiles(all[1].pattern));
            }
            return Err(e);
        },
    }
    match Rule::new(
        "[A-Za-z0-9._%+-]+@[A-Za-z0-9.-]+\\.[A-Za-z]{2,}",
        RedactionKind::Email,
        "EMAIL",
    ) {
        Ok(rule) => rules.push(rule),
        Err(e) => {
            proof {
                assert(!regex_compiles(all[2].pattern));
            }
            return Err(e);
        },
    }
    match Rule::new("\\+?\\d[\\d\\s\\-()]{7,}\\d", RedactionKind::Phone, "PHONE") {
        Ok(rule) => rules.push(rule),
        Err(e) => {
            proof {
                assert(!regex_compiles(all[3].pattern));
            }
            return Err(e);
        },
    }
    match Rule::new("0x[a-fA-F0-9]{40}", RedactionKind::EthAddress, "ETH_ADDR") {
        Ok(rule) => rules.push(rule),
        Err(e) => {
            proof {
                assert(!regex_compiles(all[4].pattern));
            }
            return Err(e);
        },
    }
    match Rule::new("https?://[^\\s]+", RedactionKind::Url, "URL") {
        Ok(rule) => rules.push(rule),
        Err(e) => {
            proof {
                assert(!regex_compiles(all[5].pattern));
            }
            return Err(e);
        },
    }
    proof {
        assert(rules@.len() == 6);
    }
    Ok(rules)
}

/// The compiled rules of the strict mode, of which the basic mode takes all but
/// the last.
struct RuleSet {
    rules: Vec<Rule>,
}

impl RuleSet {
    #[verifier::type_invariant]
    spec fn rules_stand(self) -> bool {
        &&& self.rules@.len() == 6
        &&& forall|i: int|
            0 <= i < 6 ==> (#[trigger] self.rules@[i]).holds(mode_rules(RedactMode::Strict)[i])
    }
}

impl Clone for RuleSet {
    fn clone(&self) -> (r: Self) {
        proof {
            use_type_invariant(self);
        }
        let mut rules: Vec<Rule> = Vec::new();
        let mut i: usize = 0;
        while i < 6
            invariant
                i <= 6,
                self.rules@.len() == 6,
                forall|k: int|
                    0 <= k < 6 ==> (#[trigger] self.rules@[k]).holds(
                        mode_rules(RedactMode::Strict)[k],
                    ),
                rules@.len() == i,
                forall|k: int|
                    0 <= k < i ==> (#[trigger] rules@[k]).holds(mode_rules(RedactMode::Strict)[k]),
            decreases 6 - i,
        {
            let rule = &self.rules[i];
            proof {
                assert(self.rules@[i as int].holds(mode_rules(RedactMode::Strict)[i as int]));
            }
            rules.push(Rule { re: copy_regex(&rule.re), kind: rule.kind, tag: rule.tag });
            i += 1;
        }
        RuleSet { rules }
    }
}

/// Client-side redactor.
///
/// It replaces sensitive strings by placeholders, always the same for the same
/// string, and keeps what they stand for.
pub struct Redactor {
    salt: [u8; 32],
    /// Placeholders and what they stand for, each placeholder once.
    rev: Vec<(String, String)>,
    state: RedactionState,
    rules: RuleSet,
    /// The most further terms that a redaction was given so far.
    asked: usize,
}

/// What a redactor holds.
#[verifier::ext_equal]
pub struct RedactorView {
    pub salt: Seq<u8>,
    pub rev: Seq<(Seq<char>, Seq<char>)>,
    pub state: RedactionView,
    /// The most further terms that a redaction was given so far.
    pub asked: nat,
}

impl View for Redactor {
    type V = RedactorView;

    closed spec fn view(&self) -> RedactorView {
        RedactorView {
            salt: self.salt@,
            rev: pair_views(self.rev@),
            state: self.state@,
            asked: self.asked as nat,
        }
    }
}

/// What a placeholder stands for, if it is known.
pub open spec fn mapped(rev: Seq<(Seq<char>, Seq<char>)>, placeholder: Seq<char>) -> Option<
    Seq<char>,
>
    decreases rev.len(),
{
    if rev.len() == 0 {
        None
    } else if rev.last().0 == placeholder {
        Some(rev.last().1)
    } else {
        mapped(rev.drop_last(), placeholder)
    }
}

/// The mapping with a placeholder set to what it stands for.
pub open spec fn with_mapping(
    rev: Seq<(Seq<char>, Seq<char>)>,
    placeholder: Seq<char>,
    original: Seq<char>,
) -> Seq<(Seq<char>, Seq<char>)>
    decreases rev.len(),
{
    if rev.len() == 0 {
        seq![(placeholder, original)]
    } else if rev[0].0 == placeholder {
        rev.update(0, (placeholder, original))
    } else {
        seq![rev[0]] + with_mapping(rev.skip(1), placeholder, original)
    }
}

/// The mapping of some entries, the later of which prevail.
pub open spec fn mapping_of(entries: Seq<EntryView>) -> Seq<(Seq<char>, Seq<char>)>
    decreases entries.len(),
{
    if entries.len() == 0 {
        Seq::empty()
    } else {
        with_mapping(
            mapping_of(entries.drop_last()),
            entries.last().placeholder,
            entries.last().original,
        )
    }
}

/// The placeholder of a text: its tag and a short salted hash.
pub open spec fn placeholder(salt: Seq<u8>, tag: Seq<char>, original: Seq<char>) -> Seq<char> {
    "<"@ + tag + "_"@ + hex(
        sha256_digest(salt + encode_utf8(tag) + encode_utf8(original)).take(8),
    ) + ">"@
}

/// A redactor that knows what a placeholder stands for. A placeholder that it
/// knows already keeps its meaning.
pub open spec fn upserted(
    red: RedactorView,
    ph: Seq<char>,
    original: Seq<char>,
    kind: RedactionKind,
) -> RedactorView {
    if mapped(red.rev, ph) is Some {
        red
    } else {
        RedactorView {
            rev: red.rev.push((ph, original)),
            state: RedactionView {
                entries: red.state.entries.push(EntryView { placeholder: ph, original, kind }),
                ..red.state
            },
            ..red
        }
    }
}

/// Where the first `k` of some spans end.
pub open spec fn spans_end(spans: Seq<(int, int)>, k: int) -> int {
    if k <= 0 {
        0
    } else {
        spans[k - 1].1
    }
}

/// The redactor after the first `k` matches of a rule.
pub open spec fn red_after(
    red: RedactorView,
    text: Seq<char>,
    rule: RuleView,
    spans: Seq<(int, int)>,
    k: int,
) -> RedactorView
    decreases k,
{
    if k <= 0 {
        red
    } else {
        let original = text.subrange(spans[k - 1].0, spans[k - 1].1);
        upserted(
            red_after(red, text, rule, spans, k - 1),
            placeholder(red.salt, rule.tag, original),
            original,
            rule.kind,
        )
    }
}

/// The text up to the end of the first `k` matches of a rule, with placeholders
/// in their place.
pub open spec fn masked(
    salt: Seq<u8>,
    text: Seq<char>,
    rule: RuleView,
    spans: Seq<(int, int)>,
    k: int,
) -> Seq<char>
    decreases k,
{
    if k <= 0 {
        Seq::empty()
    } else {
        masked(salt, text, rule, spans, k - 1) + text.subrange(
            spans_end(spans, k - 1),
            spans[k - 1].0,
        ) + placeholder(salt, rule.tag, text.subrange(spans[k - 1].0, spans[k - 1].1))
    }
}

/// What a rule makes of a redactor and a text.
pub open spec fn rule_pass(red: RedactorView, text: Seq<char>, rule: RuleView) -> (
    RedactorView,
    Seq<char>,
) {
    let spans = regex_matches(rule.pattern, text);
    let n = spans.len() as int;
    (
        red_after(red, text, rule, spans, n),
        masked(red.salt, text, rule, spans, n) + text.skip(spans_end(spans, n)),
    )
}

/// What a term makes of a redactor and a text.
pub open spec fn term_pass(red: RedactorView, text: Seq<char>, term: Seq<char>) -> (
    RedactorView,
    Seq<char>,
) {
    if trimmed(term).len() == 0 || !occurs(text, term) {
        (red, text)
    } else {
        let ph = placeholder(red.salt, "CUSTOM"@, term);
        (upserted(red, ph, term, RedactionKind::Custom), substituted(text, term, ph))
    }
}

/// What some rules make of a redactor and a text, one after the other.
pub open spec fn rule_passes(red: RedactorView, text: Seq<char>, rules: Seq<RuleView>) -> (
    RedactorView,
    Seq<char>,
)
    decreases rules.len(),
{
    if rules.len() == 0 {
        (red, text)
    } else {
        let before = rule_passes(red, text, rules.drop_last());
        rule_pass(before.0, before.1, rules.last())
    }
}

/// What some terms make of a redactor and a text, one after the other.
pub open spec fn term_passes(red: RedactorView, text: Seq<char>, terms: Seq<Seq<char>>) -> (
    RedactorView,
    Seq<char>,
)
    decreases terms.len(),
{
    if terms.len() == 0 {
        (red, text)
    } else {
        let before = term_passes(red, text, terms.drop_last());
        term_pass(before.0, before.1, terms.last())
    }
}

/// A redactor that remembers how many further terms a redaction was given.
pub open spec fn after_terms(red: RedactorView, extra_terms: Seq<Seq<char>>) -> RedactorView {
    if red.asked < extra_terms.len() {
        RedactorView { asked: extra_terms.len(), ..red }
    } else {
        red
    }
}

/// What redaction makes of a redactor and a text: first the rules of the mode,
/// then the terms of the user and the further terms.
pub open spec fn redaction(
    red: RedactorView,
    text: Seq<char>,
    mode: RedactMode,
    extra_terms: Seq<Seq<char>>,
) -> (RedactorView, Seq<char>) {
    if mode == RedactMode::Off {
        (red, text)
    } else {
        let ruled = rule_passes(red, text, mode_rules(mode));
        let out = term_passes(ruled.0, ruled.1, red.state.custom_terms + extra_terms);
        (after_terms(out.0, extra_terms), out.1)
    }
}

/// The mapping with longer placeholders before shorter ones, and otherwise in
/// the order in which they became known.
pub open spec fn longest_first(rev: Seq<(Seq<char>, Seq<char>)>) -> Seq<(Seq<char>, Seq<char>)>
    decreases rev.len(),
{
    if rev.len() == 0 {
        Seq::empty()
    } else {
        let before = longest_first(rev.drop_last());
        before.insert(longer_count(before, byte_len(rev.last().0)) as int, rev.last())
    }
}

/// How many leading placeholders take at least `len` bytes.
pub open spec fn longer_count(rev: Seq<(Seq<char>, Seq<char>)>, len: nat) -> nat
    decreases rev.len(),
{
    if rev.len() > 0 && byte_len(rev[0].0) >= len {
        1 + longer_count(rev.skip(1), len)
    } else {
        0
    }
}

/// A text with placeholders replaced by what they stand for, one placeholder
/// after the other.
pub open spec fn restored(text: Seq<char>, keys: Seq<(Seq<char>, Seq<char>)>) -> Seq<char>
    decreases keys.len(),
{
    if keys.len() == 0 {
        text
    } else {
        let before = restored(text, keys.drop_last());
        substituted(before, keys.last().0, keys.last().1)
    }
}

/// A text after rounds of putting originals in the place of placeholders, until
/// a round changes nothing or there were `rounds` of them.
pub open spec fn restored_in_rounds(
    text: Seq<char>,
    keys: Seq<(Seq<char>, Seq<char>)>,
    rounds: nat,
) -> Seq<char>
    decreases rounds,
{
    if rounds == 0 {
        text
    } else {
        let next = restored(text, keys);
        if next == text {
            text
        } else {
            restored_in_rounds(next, keys, (rounds - 1) as nat)
        }
    }
}

/// How deep placeholders can stand in what placeholders stand for: one level for
/// every rule, every term of the user, every further term and everything that is
/// known.
pub open spec fn depth(red: RedactorView) -> nat {
    red.rev.len() + red.state.custom_terms.len() + red.asked + mode_rules(
        RedactMode::Strict,
    ).len()
}

/// A text with originals in the place of placeholders, and in the place of those
/// that stand in what placeholders stand for.
pub open spec fn rehydrated(red: RedactorView, text: Seq<char>) -> Seq<char> {
    restored_in_rounds(text, longest_first(red.rev), depth(red))
}

/// Whether the matches of a rule lie within a text.
pub open spec fn rule_fits(text: Seq<char>, rule: RuleView) -> bool {
    spans_fit(regex_matches(rule.pattern, text), text.len())
}

/// Whether the matches of every rule lie within the text that it passes over.
pub open spec fn rules_fit(red: RedactorView, text: Seq<char>, rules: Seq<RuleView>) -> bool
    decreases rules.len(),
{
    rules.len() > 0 ==> {
        &&& rules_fit(red, text, rules.drop_last())
        &&& rule_fits(rule_passes(red, text, rules.drop_last()).1, rules.last())
    }
}

/// Why a redactor cannot be made from a state.
#[derive(Debug, Copy, Clone, PartialEq, Eq, Structural)]
pub enum RedactorError {
    SaltNotBase64,
    SaltLength,
    BadPattern,
}

impl RedactorError {
    /// The message of the error.
    pub open spec fn spec_message(self) -> Seq<char> {
        match self {
            RedactorError::SaltNotBase64 => "salt is not base64"@,
            RedactorError::SaltLength => "salt must be 32 bytes"@,
            RedactorError::BadPattern => "pattern does not compile"@,
        }
    }

    /// The message of the error.
    pub fn message(&self) -> (r: &'static str)
        ensures
            r@ == self.spec_message(),
    {
        match self {
            RedactorError::SaltNotBase64 => "salt is not base64",
            RedactorError::SaltLength => "salt must be 32 bytes",
            RedactorError::BadPattern => "pattern does not compile",
        }
    }
}

/// Why a redactor cannot be made with a salt, if it cannot.
pub open spec fn redactor_refusal(salt_b64: Seq<char>) -> Option<RedactorError> {
    match key_of_text(salt_b64) {
        Err(KeyTextError::NotBase64) => Some(RedactorError::SaltNotBase64),
        Err(KeyTextError::WrongLength) => Some(RedactorError::SaltLength),
        Ok(_) => if rules_compile() {
            None
        } else {
            Some(RedactorError::BadPattern)
        },
    }
}

fn set_mapping(rev: &mut Vec<(String, String)>, key: String, original: String)
    ensures
        pair_views(final(rev)@) == with_mapping(pair_views(old(rev)@), key@, original@),
{
    let ghost all = pair_views(rev@);
    let mut i: usize = 0;
    proof {
        assert(all.skip(0) =~= all);
        assert(Seq::<(Seq<char>, Seq<char>)>::empty() + with_mapping(all, key@, original@)
            =~= with_mapping(all, key@, original@));
        assert(all.take(0) =~= Seq::empty());
    }
    while i < rev.len()
        invariant
            i <= rev@.len(),
            all == pair_views(rev@),
            all == pair_views(old(rev)@),
            with_mapping(all, key@, original@) == all.take(i as int) + with_mapping(
                all.skip(i as int),
                key@,
                original@,
            ),
        decreases rev@.len() - i,
    {
        let ghost rest = all.skip(i as int);
        proof {
            assert(rest[0] == all[i as int]);
        }
        if text::text_eq(rev[i].0.as_str(), key.as_str()) {
            proof {
                assert(all.take(i as int) + rest.update(0, (key@, original@)) =~= all.update(
                    i as int,
                    (key@, original@),
                ));
                assert(pair_views(rev@.update(i as int, (key, original))) =~= all.update(
                    i as int,
                    (key@, original@),
                ));
            }
            rev.set(i, (key, original));
            return;
        }
        proof {
            assert(rest.skip(1) =~= all.skip(i + 1));
            assert(all.take(i + 1) =~= all.take(i as int) + seq![all[i as int]]);
            let tail = with_mapping(all.skip(i + 1), key@, original@);
            assert(all.take(i as int) + (seq![rest[0]] + tail) =~= all.take(i + 1) + tail);
        }
        i += 1;
    }
    proof {
        assert(all.skip(i as int) =~= Seq::empty());
        assert(all.take(i as int) =~= all);
        assert(pair_views(rev@.push((key, original))) =~= all + seq![(key@, original@)]);
    }
    rev.push((key, original));
}

fn is_mapped(rev: &Vec<(String, String)>, placeholder: &str) -> (r: bool)
    ensures
        r == (mapped(pair_views(rev@), placeholder@) is Some),
{
    let ghost all = pair_views(rev@);
    let mut i: usize = rev.len();
    proof {
        assert(all.take(i as int) =~= all);
    }
    while i > 0
        invariant
            i <= rev@.len(),
            all == pair_views(rev@),
            mapped(all, placeholder@) == mapped(all.take(i as int), placeholder@),
        decreases i,
    {
        proof {
            assert(all.take(i as int).last() == all[i - 1]);
            assert(all.take(i as int).drop_last() =~= all.take(i - 1));
        }
        if text::text_eq(rev[i - 1].0.as_str(), placeholder) {
            return true;
        }
        i -= 1;
    }
    false
}

impl Redactor {
    /// A redactor that goes on from a state.
    pub fn from_state(state: RedactionState) -> (r: Result<Redactor, RedactorError>)
        ensures
            match redactor_refusal(state@.salt_b64) {
                Some(e) => r is Err && r->Err_0 == e,
                None => r is Ok && r->Ok_0@ == (RedactorView {
                    salt: key_of_text(state@.salt_b64)->Ok_0,
                    rev: mapping_of(state@.entries),
                    state: state@,
                    asked: 0,
                }),
            },
    {
        let salt: [u8; 32] = match crypto::decode_b64_32(state.salt_b64.as_str()) {
            Ok(salt) => salt,
            Err(KeyTextError::NotBase64) => return Err(RedactorError::SaltNotBase64),
            Err(KeyTextError::WrongLength) => return Err(RedactorError::SaltLength),
        };
        let rules = match compile_rules() {
            Ok(rules) => RuleSet { rules },
            Err(_) => return Err(RedactorError::BadPattern),
        };
        let mut rev: Vec<(String, String)> = Vec::new();
        let ghost all = entry_views(state.entries@);
        let mut i: usize = 0;
        proof {
            assert(pair_views(rev@) =~= mapping_of(all.take(0)));
        }
        while i < state.entries.len()
            invariant
                i <= state.entries@.len(),
                all == entry_views(state.entries@),
                pair_views(rev@) == mapping_of(all.take(i as int)),
            decreases state.entries@.len() - i,
        {
            proof {
                assert(all.take(i + 1).drop_last() =~= all.take(i as int));
                assert(all.take(i + 1).last() == state.entries@[i as int]@);
            }
            set_mapping(
                &mut rev,
                state.entries[i].placeholder.clone(),
                state.entries[i].original.clone(),
            );
            i += 1;
        }
        proof {
            assert(all.take(all.len() as int) =~= all);
        }
        Ok(Redactor { salt, rev, state, rules, asked: 0 })
    }

    pub fn state(&self) -> (r: &RedactionState)
        ensures
            r@ == self@.state,
    {
        &self.state
    }

    pub fn state_mut(&mut self) -> (r: &mut RedactionState)
        ensures
            r@ == old(self)@.state,
            final(self)@.state == final(r)@,
            final(self)@.salt == old(self)@.salt,
            final(self)@.rev == old(self)@.rev,
            final(self)@.asked == old(self)@.asked,
    {
        &mut self.state
    }
}

impl Redactor {
    /// Adds a term to those that are always redacted, unless it is blank or
    /// among them already.
    pub fn add_custom_term(&mut self, term: String)
        ensures
            final(self)@.salt == old(self)@.salt,
            final(self)@.rev == old(self)@.rev,
            final(self)@.asked == old(self)@.asked,
            final(self)@.state == (if trimmed(term@).len() == 0
                || old(self)@.state.custom_terms.contains(term@) {
                old(self)@.state
            } else {
                RedactionView {
                    custom_terms: old(self)@.state.custom_terms.push(term@),
                    ..old(self)@.state
                }
            }),
    {
        if text::is_blank(term.as_str()) {
            return;
        }
        if !text::contains_one(&self.state.custom_terms, term.as_str()) {
            let ghost before = self.state.custom_terms@;
            self.state.custom_terms.push(term);
            proof {
                assert(views(self.state.custom_terms@) =~= views(before).push(term@));
            }
        }
    }

    fn upsert_mapping(&mut self, placeholder: String, original: String, kind: RedactionKind)
        ensures
            final(self)@ == upserted(old(self)@, placeholder@, original@, kind),
            final(self).rules == old(self).rules,
    {
        if is_mapped(&self.rev, placeholder.as_str()) {
            return;
        }
        let ghost rev_before = self.rev@;
        let ghost entries_before = self.state.entries@;
        self.rev.push((placeholder.clone(), original.clone()));
        self.state.entries.push(RedactionEntry { placeholder, original, kind });
        proof {
            assert(pair_views(self.rev@) =~= pair_views(rev_before).push(
                (placeholder@, original@),
            ));
            assert(entry_views(self.state.entries@) =~= entry_views(entries_before).push(
                EntryView { placeholder: placeholder@, original: original@, kind },
            ));
        }
    }

    fn placeholder_for(&self, tag: &str, original: &str) -> (r: String)
        ensures
            r@ == placeholder(self@.salt, tag@, original@),
    {
        let mut input = text::copy_bytes(self.salt.as_slice());
        text::append_bytes(&mut input, tag.as_bytes());
        text::append_bytes(&mut input, original.as_bytes());
        proof {
            assert(input@ =~= self@.salt + encode_utf8(tag@) + encode_utf8(original@));
        }
        let digest = crypto::sha256_bytes(input.as_slice());
        let short = vstd::slice::slice_subrange(digest.as_slice(), 0, 8);
        proof {
            assert(digest@.subrange(0, 8) =~= digest@.take(8));
        }
        let mut out = String::from_str("<");
        out.append(tag);
        out.append("_");
        out.append(text::to_hex(short).as_str());
        out.append(">");
        out
    }
}

fn redact_regex(red: &mut Redactor, input: &str, index: usize) -> (r: String)
    requires
        index < 6,
    ensures
        (final(red)@, r@) == rule_pass(
            old(red)@,
            input@,
            mode_rules(RedactMode::Strict)[index as int],
        ),
        rule_fits(input@, mode_rules(RedactMode::Strict)[index as int]),
        final(red).rules == old(red).rules,
{
    let ghost rule = mode_rules(RedactMode::Strict)[index as int];
    let ghost start = red@;
    proof {
        use_type_invariant(&red.rules);
    }
    let kind = red.rules.rules[index].kind;
    let tag: &'static str = red.rules.rules[index].tag;
    let offsets = find_spans(&red.rules.rules[index].re, input);
    let ghost spans = regex_matches(rule.pattern, input@);
    let chars = text::chars_of(input);
    let mut out: String = String::new();
    let mut at: usize = 0;
    let mut at_bytes: usize = 0;
    let mut k: usize = 0;
    let ghost rules = red.rules;
    proof {
        reveal_strlit("");
        assert(out@ =~= masked(start.salt, input@, rule, spans, 0));
        assert(input@.take(0) =~= Seq::empty());
    }
    while k < offsets.len()
        invariant
            k <= offsets@.len(),
            start == old(red)@,
            rules == old(red).rules,
            marks(offsets@, spans, input@),
            chars@ == input@,
            tag@ == rule.tag,
            kind == rule.kind,
            at == spans_end(spans, k as int),
            at <= chars@.len(),
            at_bytes == byte_len(input@.take(at as int)),
            red.rules == rules,
            red@ == red_after(start, input@, rule, spans, k as int),
            red@.salt == start.salt,
            out@ == masked(start.salt, input@, rule, spans, k as int),
        decreases offsets@.len() - k,
    {
        let (first, last) = offsets[k];
        proof {
            let (a, b) = spans[k as int];
            assert(first == byte_len(input@.take(a)) && last == byte_len(input@.take(b)));
            if k > 0 {
                assert(spans[k - 1].1 <= spans[k as int].0);
            }
            assert(byte_len(chars@.take(a)) == first);
        }
        let from: usize = text::position_of_byte(&chars, at, at_bytes, first);
        proof {
            let (a, b) = spans[k as int];
            assert(chars@.take(a) == input@.take(a));
            assert(from == a);
            assert(byte_len(chars@.take(b)) == last);
        }
        let to: usize = text::position_of_byte(&chars, from, first, last);
        proof {
            let (a, b) = spans[k as int];
            assert(chars@.take(b) == input@.take(b));
            assert(to == b);
        }
        let original = text::text_between(&chars, from, to);
        let ph = red.placeholder_for(tag, original.as_str());
        out.append(text::text_between(&chars, at, from).as_str());
        out.append(ph.as_str());
        red.upsert_mapping(ph, original, kind);
        at = to;
        at_bytes = last;
        k += 1;
    }
    out.append(text::text_between(&chars, at, chars.len()).as_str());
    proof {
        assert(input@.subrange(at as int, input@.len() as int) =~= input@.skip(at as int));
    }
    out
}

fn redact_literal(red: &mut Redactor, input: &str, literal: &str) -> (r: String)
    ensures
        (final(red)@, r@) == term_pass(old(red)@, input@, literal@),
        final(red).rules == old(red).rules,
{
    if text::is_blank(literal) || !text::contains_text(input, literal) {
        return String::from_str(input);
    }
    let ph = red.placeholder_for("CUSTOM", literal);
    let out = text::replace_text(input, literal, ph.as_str());
    red.upsert_mapping(ph, String::from_str(literal), RedactionKind::Custom);
    out
}

/// The rules of each mode: what each of them looks for, what it calls it and how
/// it marks it, in the order in which they apply. In the rule for telephone
/// numbers the plus sign is optional, so that numbers without a country code are
/// found too.
pub proof fn law_rules_of_each_mode(mode: RedactMode)
    ensures
        mode_rules(RedactMode::Off).len() == 0,
        mode_rules(RedactMode::Basic).len() == 5,
        mode_rules(RedactMode::Strict).len() == 6,
        mode != RedactMode::Off ==> {
            let rules = mode_rules(mode);
            &&& rules[0].pattern
                == "(?s)-----BEGIN [A-Z ]*PRIVATE KEY-----.*?-----END [A-Z ]*PRIVATE KEY-----"@
            &&& rules[0].kind == RedactionKind::PrivateKey
            &&& rules[0].tag == "PRIVATE_KEY"@
            &&& rules[1].pattern == "sk-[A-Za-z0-9]{16,}"@
            &&& rules[1].kind == RedactionKind::ApiKey
            &&& rules[1].tag == "API_KEY"@
            &&& rules[2].pattern == "[A-Za-z0-9._%+-]+@[A-Za-z0-9.-]+\\.[A-Za-z]{2,}"@
            &&& rules[2].kind == RedactionKind::Email
            &&& rules[2].tag == "EMAIL"@
            &&& rules[3].pattern == "\\+?\\d[\\d\\s\\-()]{7,}\\d"@
            &&& rules[3].kind == RedactionKind::Phone
            &&& rules[3].tag == "PHONE"@
            &&& rules[4].pattern == "0x[a-fA-F0-9]{40}"@
            &&& rules[4].kind == RedactionKind::EthAddress
            &&& rules[4].tag == "ETH_ADDR"@
        },
        mode == RedactMode::Strict ==> {
            let rules = mode_rules(mode);
            &&& rules[5].pattern == "https?://[^\\s]+"@
            &&& rules[5].kind == RedactionKind::Url
            &&& rules[5].tag == "URL"@
        },
{
}

/// A piece of a text in which some spans are marked: at even positions what stands
/// between two spans, as it is, and at odd positions a mark in the place of a span.
/// A mark holds a tag and the first eight bytes of a salted digest of what it
/// stands for.
pub open spec fn marked_piece(
    salt: Seq<u8>,
    text: Seq<char>,
    tag: Seq<char>,
    spans: Seq<(int, int)>,
    j: int,
) -> Seq<char> {
    let i = j / 2;
    if j % 2 == 1 {
        "<"@ + tag + "_"@ + hex(
            sha256_digest(
                salt + encode_utf8(tag) + encode_utf8(text.subrange(spans[i].0, spans[i].1)),
            ).subrange(0, 8),
        ) + ">"@
    } else {
        text.subrange(
            if i == 0 {
                0
            } else {
                spans[i - 1].1
            },
            if i < spans.len() {
                spans[i].0
            } else {
                text.len() as int
            },
        )
    }
}

proof fn lemma_pieces_extend(pieces: Seq<Seq<char>>, next: Seq<char>)
    ensures
        pieces.push(next).flatten() == pieces.flatten() + next,
{
    pieces.lemma_flatten_and_flatten_alt_are_equivalent();
    pieces.push(next).lemma_flatten_and_flatten_alt_are_equivalent();
    assert(pieces.push(next).drop_last() =~= pieces);
}

proof fn lemma_masked_pieces(
    salt: Seq<u8>,
    text: Seq<char>,
    rule: RuleView,
    spans: Seq<(int, int)>,
    k: int,
)
    requires
        0 <= k <= spans.len(),
    ensures
        masked(salt, text, rule, spans, k) == Seq::new(
            (2 * k) as nat,
            |j: int| marked_piece(salt, text, rule.tag, spans, j),
        ).flatten(),
    decreases k,
{
    let pieces = Seq::new((2 * k) as nat, |j: int| marked_piece(salt, text, rule.tag, spans, j));
    if k == 0 {
        assert(pieces =~= Seq::empty());
        pieces.lemma_flatten_and_flatten_alt_are_equivalent();
        assert(masked(salt, text, rule, spans, k) =~= pieces.flatten());
    } else {
        lemma_masked_pieces(salt, text, rule, spans, k - 1);
        let before = Seq::new(
            (2 * (k - 1)) as nat,
            |j: int| marked_piece(salt, text, rule.tag, spans, j),
        );
        let gap = marked_piece(salt, text, rule.tag, spans, 2 * k - 2);
        let mark = marked_piece(salt, text, rule.tag, spans, 2 * k - 1);
        assert(pieces =~= before.push(gap).push(mark));
        lemma_pieces_extend(before, gap);
        lemma_pieces_extend(before.push(gap), mark);
        assert((2 * k - 1) / 2 == k - 1 && (2 * k - 2) / 2 == k - 1);
        assert(gap == text.subrange(spans_end(spans, k - 1), spans[k - 1].0));
        let original = text.subrange(spans[k - 1].0, spans[k - 1].1);
        let digest = sha256_digest(salt + encode_utf8(rule.tag) + encode_utf8(original));
        assert(digest.subrange(0, 8) == digest.take(8));
        assert(mark == placeholder(salt, rule.tag, original));
    }
}

/// A rule takes every match out of a text and puts a mark in its place. What
/// stands between the matches stays as it is and where it is.
pub proof fn law_matches_give_way_to_marks(red: RedactorView, text: Seq<char>, rule: RuleView)
    requires
        rule_fits(text, rule),
    ensures
        ({
            let spans = regex_matches(rule.pattern, text);
            rule_pass(red, text, rule).1 == Seq::new(
                2 * spans.len() + 1,
                |j: int| marked_piece(red.salt, text, rule.tag, spans, j),
            ).flatten()
        }),
{
    let spans = regex_matches(rule.pattern, text);
    let n = spans.len() as int;
    lemma_masked_pieces(red.salt, text, rule, spans, n);
    let before = Seq::new(
        (2 * n) as nat,
        |j: int| marked_piece(red.salt, text, rule.tag, spans, j),
    );
    let rest = marked_piece(red.salt, text, rule.tag, spans, 2 * n);
    lemma_pieces_extend(before, rest);
    assert(Seq::new(
        2 * spans.len() + 1,
        |j: int| marked_piece(red.salt, text, rule.tag, spans, j),
    ) =~= before.push(rest));
    if n > 0 {
        assert(0 <= spans[n - 1].0 <= spans[n - 1].1 <= text.len());
    }
    assert(rest =~= text.skip(spans_end(spans, n)));
}

proof fn lemma_mapped_more(rev: Seq<(Seq<char>, Seq<char>)>, ph: Seq<char>, e: (Seq<char>, Seq<char>))
    ensures
        mapped(rev.push(e), ph) == if e.0 == ph {
            Some(e.1)
        } else {
            mapped(rev, ph)
        },
{
    assert(rev.push(e).drop_last() =~= rev);
}

#[verifier::spinoff_prover]
#[verifier::rlimit(40)]
proof fn lemma_matches_known(
    red: RedactorView,
    text: Seq<char>,
    rule: RuleView,
    spans: Seq<(int, int)>,
    k: int,
)
    requires
        0 <= k <= spans.len(),
    ensures
        red.state.entries.is_prefix_of(red_after(red, text, rule, spans, k).state.entries),
        forall|m: int|
            0 <= m < k ==> mapped(
                red_after(red, text, rule, spans, k).rev,
                placeholder(
                    red.salt,
                    rule.tag,
                    text.subrange((#[trigger] spans[m]).0, spans[m].1),
                ),
            ) is Some,
        forall|e: int|
            red.state.entries.len() <= e < red_after(red, text, rule, spans, k).state.entries.len()
                ==> exists|m: int|
                0 <= m < k && ({
                    let original = text.subrange((#[trigger] spans[m]).0, spans[m].1);
                    let entry = #[trigger] red_after(red, text, rule, spans, k).state.entries[e];
                    &&& entry.original == original
                    &&& entry.placeholder == placeholder(red.salt, rule.tag, original)
                    &&& entry.kind == rule.kind
                }),
    decreases k,
{
    let after = red_after(red, text, rule, spans, k);
    if k == 0 {
        assert(red.state.entries =~= red.state.entries.subrange(
            0,
            red.state.entries.len() as int,
        ));
    } else {
        lemma_matches_known(red, text, rule, spans, k - 1);
        let before = red_after(red, text, rule, spans, k - 1);
        let original = text.subrange(spans[k - 1].0, spans[k - 1].1);
        let ph = placeholder(red.salt, rule.tag, original);
        if mapped(before.rev, ph) is None {
            assert(after.rev == before.rev.push((ph, original)));
            assert(red.state.entries =~= after.state.entries.subrange(
                0,
                red.state.entries.len() as int,
            )) by {
                assert(red.state.entries =~= before.state.entries.subrange(
                    0,
                    red.state.entries.len() as int,
                ));
            }
            assert forall|m: int| 0 <= m < k implies mapped(
                after.rev,
                placeholder(
                    red.salt,
                    rule.tag,
                    text.subrange((#[trigger] spans[m]).0, spans[m].1),
                ),
            ) is Some by {
                let other = placeholder(
                    red.salt,
                    rule.tag,
                    text.subrange(spans[m].0, spans[m].1),
                );
                lemma_mapped_more(before.rev, other, (ph, original));
            }
            assert forall|e: int|
                red.state.entries.len() <= e < after.state.entries.len() implies exists|m: int|
                0 <= m < k && ({
                    let original = text.subrange((#[trigger] spans[m]).0, spans[m].1);
                    let entry = #[trigger] after.state.entries[e];
                    &&& entry.original == original
                    &&& entry.placeholder == placeholder(red.salt, rule.tag, original)
                    &&& entry.kind == rule.kind
                }) by {
                if e < before.state.entries.len() {
                    assert(after.state.entries[e] == before.state.entries[e]);
                } else {
                    let own = text.subrange(spans[k - 1].0, spans[k - 1].1);
                    assert(after.state.entries[e].original == own);
                }
            }
        }
    }
}

/// What a rule takes out becomes known: every match has a placeholder that is
/// mapped afterwards, nothing that was recorded before is lost, and whatever is
/// recorded anew is a match under its own placeholder, with the kind of the rule.
pub proof fn law_matches_become_known(red: RedactorView, text: Seq<char>, rule: RuleView)
    ensures
        ({
            let spans = regex_matches(rule.pattern, text);
            let after = rule_pass(red, text, rule).0;
            &&& red.state.entries.is_prefix_of(after.state.entries)
            &&& forall|m: int|
                0 <= m < spans.len() ==> mapped(
                    after.rev,
                    placeholder(
                        red.salt,
                        rule.tag,
                        text.subrange((#[trigger] spans[m]).0, spans[m].1),
                    ),
                ) is Some
            &&& forall|e: int|
                red.state.entries.len() <= e < after.state.entries.len() ==> exists|m: int|
                    0 <= m < spans.len() && ({
                        let original = text.subrange((#[trigger] spans[m]).0, spans[m].1);
                        let entry = #[trigger] after.state.entries[e];
                        &&& entry.original == original
                        &&& entry.placeholder == placeholder(red.salt, rule.tag, original)
                        &&& entry.kind == rule.kind
                    })
        }),
{
    let spans = regex_matches(rule.pattern, text);
    lemma_matches_known(red, text, rule, spans, spans.len() as int);
}

/// Whether a text is a telephone number: a digit, at least seven digits, spaces,
/// hyphens or brackets, and a digit, with or without a plus sign in front.
pub open spec fn is_phone_number(text: Seq<char>) -> bool {
    let number = if text.len() > 0 && text[0] == '+' {
        text.skip(1)
    } else {
        text
    };
    &&& number.len() >= 9
    &&& '0' <= number[0] <= '9'
    &&& '0' <= number[number.len() - 1] <= '9'
    &&& forall|i: int|
        0 <= i < number.len() ==> {
            let c = #[trigger] number[i];
            '0' <= c <= '9' || c == ' ' || c == '-' || c == '(' || c == ')'
        }
}

/// Whether a stretch of a text lies within one of some spans.
pub open spec fn is_covered(spans: Seq<(int, int)>, a: int, b: int) -> bool {
    exists|k: int| 0 <= k < spans.len() && (#[trigger] spans[k]).0 <= a && b <= spans[k].1
}

/// Whether a pattern finds every telephone number of every text.
pub open spec fn finds_phone_numbers(pattern: Seq<char>) -> bool {
    forall|text: Seq<char>, a: int, b: int|
        0 <= a <= b <= text.len() && #[trigger] is_phone_number(text.subrange(a, b)) ==> is_covered(
            regex_matches(pattern, text),
            a,
            b,
        )
}

/// No telephone number is left outside of placeholders. Of the expression for an
/// optional plus sign, a digit, at least seven digits, spaces, hyphens or brackets
/// and a digit it is presumed that it finds every number of that shape. Then every
/// number in the text that the rule for them passes over, with or without a plus
/// sign, lies in one of the spans that it takes out, in basic and in strict mode.
pub proof fn law_no_phone_number_is_left(
    red: RedactorView,
    text: Seq<char>,
    mode: RedactMode,
    a: int,
    b: int,
)
    requires
        mode == RedactMode::Basic || mode == RedactMode::Strict,
        rules_fit(red, text, mode_rules(mode)),
        finds_phone_numbers("\\+?\\d[\\d\\s\\-()]{7,}\\d"@),
        ({
            let seen = rule_passes(red, text, mode_rules(mode).take(3)).1;
            0 <= a <= b <= seen.len() && is_phone_number(seen.subrange(a, b))
        }),
    ensures
        ({
            let seen = rule_passes(red, text, mode_rules(mode).take(3)).1;
            let spans = regex_matches(mode_rules(mode)[3].pattern, seen);
            &&& is_covered(spans, a, b)
            &&& rule_passes(red, text, mode_rules(mode).take(4)).1 == Seq::new(
                2 * spans.len() + 1,
                |j: int| marked_piece(red.salt, seen, "PHONE"@, spans, j),
            ).flatten()
        }),
{
    let rules = mode_rules(mode);
    let three = rule_passes(red, text, rules.take(3));
    let seen = three.1;
    law_rules_of_each_mode(mode);
    assert(rules.take(4).drop_last() =~= rules.take(3));
    assert(rules.take(4).last() == rules[3]);
    assert(is_covered(regex_matches(rules[3].pattern, seen), a, b));
    law_rules_keep_salt_and_terms(red, text, rules.take(3));
    lemma_rules_fit_prefix(red, text, rules, 4);
    law_matches_give_way_to_marks(three.0, seen, rules[3]);
}

proof fn lemma_rules_fit_prefix(red: RedactorView, text: Seq<char>, rules: Seq<RuleView>, n: int)
    requires
        0 <= n <= rules.len(),
        rules_fit(red, text, rules),
    ensures
        rules_fit(red, text, rules.take(n)),
    decreases rules.len() - n,
{
    if n == rules.len() {
        assert(rules.take(n) =~= rules);
    } else {
        lemma_rules_fit_prefix(red, text, rules, n + 1);
        assert(rules.take(n + 1).drop_last() =~= rules.take(n));
    }
}

/// A term of the user gives way wherever it stands, unless it is blank: a mark with the
/// tag for such terms takes its place, and what it stands for is recorded.
pub proof fn law_term_gives_way(red: RedactorView, text: Seq<char>, term: Seq<char>)
    ensures
        ({
            let digest = sha256_digest(red.salt + encode_utf8("CUSTOM"@) + encode_utf8(term));
            let mark = "<"@ + "CUSTOM"@ + "_"@ + hex(digest.subrange(0, 8)) + ">"@;
            let out = term_pass(red, text, term);
            &&& trimmed(term).len() == 0 || !occurs(text, term) ==> out == (red, text)
            &&& trimmed(term).len() > 0 && occurs(text, term) ==> {
                &&& out.1 == substituted(text, term, mark)
                &&& mapped(out.0.rev, mark) is Some
                &&& mapped(red.rev, mark) is Some ==> out.0 == red
                &&& mapped(red.rev, mark) is None ==> {
                    &&& mapped(out.0.rev, mark) == Some(term)
                    &&& out.0.state.entries.drop_last() == red.state.entries
                    &&& out.0.state.entries.last().placeholder == mark
                    &&& out.0.state.entries.last().original == term
                    &&& out.0.state.entries.last().kind == RedactionKind::Custom
                }
            }
        }),
{
    let digest = sha256_digest(red.salt + encode_utf8("CUSTOM"@) + encode_utf8(term));
    assert(digest.subrange(0, 8) == digest.take(8));
    let mark = placeholder(red.salt, "CUSTOM"@, term);
    let out = term_pass(red, text, term);
    if trimmed(term).len() > 0 && occurs(text, term) && mapped(red.rev, mark) is None {
        lemma_mapped_more(red.rev, mark, (mark, term));
        assert(out.0.state.entries.drop_last() =~= red.state.entries);
    }
}

/// Redaction goes through the rules of its mode, one after the other, and then through
/// the terms of the user and the further terms, one after the other, each on what the
/// one before left behind.
pub proof fn law_redaction_goes_through_all(
    red: RedactorView,
    text: Seq<char>,
    mode: RedactMode,
    rules: Seq<RuleView>,
    rule: RuleView,
    terms: Seq<Seq<char>>,
    term: Seq<char>,
    extra_terms: Seq<Seq<char>>,
)
    ensures
        rule_passes(red, text, Seq::empty()) == (red, text),
        rule_passes(red, text, rules.push(rule)) == rule_pass(
            rule_passes(red, text, rules).0,
            rule_passes(red, text, rules).1,
            rule,
        ),
        term_passes(red, text, Seq::empty()) == (red, text),
        term_passes(red, text, terms.push(term)) == term_pass(
            term_passes(red, text, terms).0,
            term_passes(red, text, terms).1,
            term,
        ),
        mode == RedactMode::Off ==> redaction(red, text, mode, extra_terms) == (red, text),
        mode != RedactMode::Off ==> {
            let ruled = rule_passes(red, text, mode_rules(mode));
            let out = term_passes(ruled.0, ruled.1, red.state.custom_terms + extra_terms);
            &&& redaction(red, text, mode, extra_terms).1 == out.1
            &&& redaction(red, text, mode, extra_terms).0.rev == out.0.rev
            &&& redaction(red, text, mode, extra_terms).0.state == out.0.state
            &&& redaction(red, text, mode, extra_terms).0.salt == red.salt
        },
{
    assert(rules.push(rule).drop_last() =~= rules);
    assert(terms.push(term).drop_last() =~= terms);
    if mode != RedactMode::Off {
        let ruled = rule_passes(red, text, mode_rules(mode));
        law_rules_keep_salt_and_terms(red, text, mode_rules(mode));
        lemma_term_passes_keep_salt(ruled.0, ruled.1, red.state.custom_terms + extra_terms);
    }
}

proof fn lemma_term_passes_keep_salt(red: RedactorView, text: Seq<char>, terms: Seq<Seq<char>>)
    ensures
        term_passes(red, text, terms).0.salt == red.salt,
    decreases terms.len(),
{
    if terms.len() > 0 {
        lemma_term_passes_keep_salt(red, text, terms.drop_last());
    }
}

/// A redactor is made exactly from a salt of thirty-two bytes, where all rules compile.
pub proof fn law_redactor_needs_its_salt(salt_b64: Seq<char>)
    ensures
        ({
            let salt = crypto::base64_bytes(salt_b64);
            &&& salt is None ==> redactor_refusal(salt_b64) == Some(RedactorError::SaltNotBase64)
            &&& salt is Some && salt->0.len() != 32 ==> redactor_refusal(salt_b64) == Some(
                RedactorError::SaltLength,
            )
            &&& salt is Some && salt->0.len() == 32 ==> (redactor_refusal(salt_b64) is None <==> (
            forall|i: int|
                0 <= i < 6 ==> regex_compiles(
                    (#[trigger] mode_rules(RedactMode::Strict)[i]).pattern,
                )))
        }),
{
}

proof fn lemma_longer_ahead(rev: Seq<(Seq<char>, Seq<char>)>, len: nat)
    ensures
        longer_count(rev, len) <= rev.len(),
        forall|i: int|
            0 <= i < longer_count(rev, len) ==> byte_len((#[trigger] rev[i]).0) >= len,
        longer_count(rev, len) < rev.len() ==> byte_len(rev[longer_count(rev, len) as int].0) < len,
    decreases rev.len(),
{
    if rev.len() > 0 && byte_len(rev[0].0) >= len {
        let rest = rev.skip(1);
        lemma_longer_ahead(rest, len);
        assert forall|i: int| 0 <= i < longer_count(rev, len) implies byte_len(
            (#[trigger] rev[i]).0,
        ) >= len by {
            if i > 0 {
                assert(rest[i - 1] == rev[i]);
            }
        }
    }
}

/// Placeholders are put back longest first, so that none is taken for a part of a
/// longer one. Those of equal length go in the order in which they became known.
#[verifier::spinoff_prover]
#[verifier::rlimit(40)]
pub proof fn law_longer_placeholders_come_first(rev: Seq<(Seq<char>, Seq<char>)>, len: nat)
    ensures
        longest_first(rev).to_multiset() == rev.to_multiset(),
        forall|i: int, j: int|
            0 <= i < j < longest_first(rev).len() ==> byte_len((#[trigger] longest_first(rev)[i]).0)
                >= byte_len((#[trigger] longest_first(rev)[j]).0),
        longest_first(rev).filter(|e: (Seq<char>, Seq<char>)| byte_len(e.0) == len) == rev.filter(
            |e: (Seq<char>, Seq<char>)| byte_len(e.0) == len,
        ),
    decreases rev.len(),
{
    broadcast use vstd::seq_lib::group_to_multiset_ensures;

    reveal(Seq::filter);
    if rev.len() > 0 {
        let front = rev.drop_last();
        let last = rev.last();
        let same = |e: (Seq<char>, Seq<char>)| byte_len(e.0) == len;
        law_longer_placeholders_come_first(front, len);
        let before = longest_first(front);
        lemma_longer_ahead(before, byte_len(last.0));
        let p = longer_count(before, byte_len(last.0)) as int;
        let after = longest_first(rev);
        assert(after == before.insert(p, last));
        assert(rev =~= front.push(last));
        assert forall|i: int, j: int| 0 <= i < j < after.len() implies byte_len(
            (#[trigger] after[i]).0,
        ) >= byte_len((#[trigger] after[j]).0) by {
            let a = if i < p { i } else { i - 1 };
            let b = if j < p { j } else { j - 1 };
            if i != p {
                assert(after[i] == before[a]);
            }
            if j != p {
                assert(after[j] == before[b]);
            }
            if i == p && b > p {
                assert(byte_len(before[p].0) >= byte_len(before[b].0));
            }
        }
        let head = before.take(p);
        let tail = before.skip(p);
        assert(before =~= head + tail);
        assert(after =~= head.push(last) + tail);
        Seq::filter_distributes_over_add(head, tail, same);
        Seq::filter_distributes_over_add(head.push(last), tail, same);
        assert(head.push(last).drop_last() =~= head);
        if byte_len(last.0) == len {
            assert forall|i: int| 0 <= i < tail.len() implies !same(#[trigger] tail[i]) by {
                assert(tail[i] == before[p + i]);
                if i > 0 {
                    assert(byte_len(before[p].0) >= byte_len(before[p + i].0));
                }
            }
            tail.lemma_all_neg_filter_empty(same);
            assert(tail.filter(same) =~= Seq::empty());
            assert(after.filter(same) =~= before.filter(same).push(last));
        } else {
            assert(after.filter(same) =~= before.filter(same));
        }
    } else {
        assert(longest_first(rev) =~= rev);
    }
}

/// A placeholder gives way to what it stands for, one after the other.
pub proof fn law_placeholders_are_put_back_in_turn(
    text: Seq<char>,
    keys: Seq<(Seq<char>, Seq<char>)>,
    key: (Seq<char>, Seq<char>),
)
    ensures
        restored(text, Seq::empty()) == text,
        restored(text, keys.push(key)) == substituted(restored(text, keys), key.0, key.1),
{
    assert(keys.push(key).drop_last() =~= keys);
}

/// Where there is nothing to hide nothing changes: a text in which no rule of the
/// mode finds anything and in which no term stands comes out as it is, and the
/// redactor records nothing.
pub proof fn law_nothing_to_hide(
    red: RedactorView,
    text: Seq<char>,
    mode: RedactMode,
    extra_terms: Seq<Seq<char>>,
)
    requires
        forall|i: int|
            0 <= i < mode_rules(mode).len() ==> regex_matches(
                (#[trigger] mode_rules(mode)[i]).pattern,
                text,
            ).len() == 0,
        forall|i: int|
            0 <= i < red.state.custom_terms.len() ==> !occurs(
                text,
                #[trigger] red.state.custom_terms[i],
            ),
        forall|i: int|
            0 <= i < extra_terms.len() ==> !occurs(text, #[trigger] extra_terms[i]),
    ensures
        redaction(red, text, mode, extra_terms).1 == text,
        redaction(red, text, mode, extra_terms).0.rev == red.rev,
        redaction(red, text, mode, extra_terms).0.state == red.state,
        redaction(red, text, RedactMode::Off, extra_terms) == (red, text),
{
    if mode != RedactMode::Off {
        lemma_no_match_no_change(red, text, mode_rules(mode));
        let terms = red.state.custom_terms + extra_terms;
        assert forall|i: int| 0 <= i < terms.len() implies !occurs(text, #[trigger] terms[i]) by {
            if i < red.state.custom_terms.len() {
                assert(terms[i] == red.state.custom_terms[i]);
            } else {
                assert(terms[i] == extra_terms[i - red.state.custom_terms.len()]);
            }
        }
        lemma_no_term_no_change(red, text, terms);
    }
}

proof fn lemma_no_match_no_change(red: RedactorView, text: Seq<char>, rules: Seq<RuleView>)
    requires
        forall|i: int|
            0 <= i < rules.len() ==> regex_matches((#[trigger] rules[i]).pattern, text).len() == 0,
    ensures
        rule_passes(red, text, rules) == (red, text),
    decreases rules.len(),
{
    if rules.len() > 0 {
        let front = rules.drop_last();
        assert forall|i: int| 0 <= i < front.len() implies regex_matches(
            (#[trigger] front[i]).pattern,
            text,
        ).len() == 0 by {
            assert(front[i] == rules[i]);
        }
        lemma_no_match_no_change(red, text, front);
        let last = rules[rules.len() - 1];
        assert(regex_matches(last.pattern, text).len() == 0);
        let spans = regex_matches(last.pattern, text);
        assert(masked(red.salt, text, last, spans, 0) + text.skip(0) =~= text);
    }
}

proof fn lemma_no_term_no_change(red: RedactorView, text: Seq<char>, terms: Seq<Seq<char>>)
    requires
        forall|i: int| 0 <= i < terms.len() ==> !occurs(text, #[trigger] terms[i]),
    ensures
        term_passes(red, text, terms) == (red, text),
    decreases terms.len(),
{
    if terms.len() > 0 {
        let front = terms.drop_last();
        assert forall|i: int| 0 <= i < front.len() implies !occurs(text, #[trigger] front[i]) by {
            assert(front[i] == terms[i]);
        }
        lemma_no_term_no_change(red, text, front);
        assert(!occurs(text, terms[terms.len() - 1]));
    }
}

/// Of the entries that a redactor is made from, the last one for a placeholder
/// says what it stands for, and a placeholder without an entry stands for nothing.
pub proof fn law_last_entry_prevails(entries: Seq<EntryView>, ph: Seq<char>, i: int)
    ensures
        0 <= i < entries.len() && entries[i].placeholder == ph && (forall|j: int|
            i < j < entries.len() ==> (#[trigger] entries[j]).placeholder != ph) ==> mapped(
            mapping_of(entries),
            ph,
        ) == Some(entries[i].original),
        (forall|j: int| 0 <= j < entries.len() ==> (#[trigger] entries[j]).placeholder != ph)
            ==> mapped(mapping_of(entries), ph) is None,
    decreases entries.len(),
{
    if entries.len() > 0 {
        let front = entries.drop_last();
        let last = entries.last();
        law_last_entry_prevails(front, ph, i);
        lemma_mapping_distinct(front);
        lemma_with_mapping(mapping_of(front), last.placeholder, last.original, ph);
        assert(forall|j: int| 0 <= j < front.len() ==> #[trigger] front[j] == entries[j]);
        assert(entries[entries.len() - 1] == last);
        if 0 <= i < entries.len() && entries[i].placeholder == ph && (forall|j: int|
            i < j < entries.len() ==> (#[trigger] entries[j]).placeholder != ph) {
            if i < front.len() {
                assert(last.placeholder != ph);
                assert forall|j: int| i < j < front.len() implies (
                #[trigger] front[j]).placeholder != ph by {
                    assert(entries[j].placeholder != ph);
                }
            }
        }
        if forall|j: int| 0 <= j < entries.len() ==> (#[trigger] entries[j]).placeholder != ph {
            assert forall|j: int| 0 <= j < front.len() implies (#[trigger] front[j]).placeholder
                != ph by {
                assert(entries[j].placeholder != ph);
            }
        }
    }
}

spec fn distinct_keys(rev: Seq<(Seq<char>, Seq<char>)>) -> bool {
    forall|i: int, j: int|
        0 <= i < j < rev.len() ==> (#[trigger] rev[i]).0 != (#[trigger] rev[j]).0
}

proof fn lemma_mapped_at(rev: Seq<(Seq<char>, Seq<char>)>, p: int)
    requires
        distinct_keys(rev),
        0 <= p < rev.len(),
    ensures
        mapped(rev, rev[p].0) == Some(rev[p].1),
    decreases rev.len(),
{
    if p < rev.len() - 1 {
        assert(rev[p].0 != rev[rev.len() - 1].0);
        lemma_mapped_at(rev.drop_last(), p);
    }
}

proof fn lemma_mapped_nowhere(rev: Seq<(Seq<char>, Seq<char>)>, ph: Seq<char>)
    requires
        forall|j: int| 0 <= j < rev.len() ==> (#[trigger] rev[j]).0 != ph,
    ensures
        mapped(rev, ph) is None,
    decreases rev.len(),
{
    if rev.len() > 0 {
        assert(rev[rev.len() - 1].0 != ph);
        let front = rev.drop_last();
        assert forall|j: int| 0 <= j < front.len() implies (#[trigger] front[j]).0 != ph by {
            assert(front[j] == rev[j]);
        }
        lemma_mapped_nowhere(front, ph);
    }
}

proof fn lemma_mapping_shape(
    rev: Seq<(Seq<char>, Seq<char>)>,
    key: Seq<char>,
    original: Seq<char>,
) -> (p: int)
    ensures
        0 <= p <= rev.len(),
        p < rev.len() ==> rev[p].0 == key && with_mapping(rev, key, original) == rev.update(
            p,
            (key, original),
        ),
        p == rev.len() ==> with_mapping(rev, key, original) == rev.push((key, original)) && forall|
            j: int,
        |
            0 <= j < rev.len() ==> (#[trigger] rev[j]).0 != key,
    decreases rev.len(),
{
    if rev.len() == 0 {
        assert(with_mapping(rev, key, original) =~= rev.push((key, original)));
        0
    } else if rev[0].0 == key {
        0
    } else {
        let rest = rev.skip(1);
        let q = lemma_mapping_shape(rest, key, original);
        if q < rest.len() {
            assert(with_mapping(rev, key, original) =~= rev.update(q + 1, (key, original)));
        } else {
            assert(with_mapping(rev, key, original) =~= rev.push((key, original)));
            assert forall|j: int| 0 <= j < rev.len() implies (#[trigger] rev[j]).0 != key by {
                if j > 0 {
                    assert(rest[j - 1] == rev[j]);
                }
            }
        }
        q + 1
    }
}

proof fn lemma_with_mapping(
    rev: Seq<(Seq<char>, Seq<char>)>,
    key: Seq<char>,
    original: Seq<char>,
    ph: Seq<char>,
)
    requires
        distinct_keys(rev),
    ensures
        distinct_keys(with_mapping(rev, key, original)),
        mapped(with_mapping(rev, key, original), ph) == if ph == key {
            Some(original)
        } else {
            mapped(rev, ph)
        },
{
    let p = lemma_mapping_shape(rev, key, original);
    let next = with_mapping(rev, key, original);
    if p < rev.len() {
        assert forall|i: int, j: int| 0 <= i < j < next.len() implies (#[trigger] next[i]).0 != (
        #[trigger] next[j]).0 by {
            assert(rev[i].0 != rev[j].0);
        }
    } else {
        assert forall|i: int, j: int| 0 <= i < j < next.len() implies (#[trigger] next[i]).0 != (
        #[trigger] next[j]).0 by {
            if j < rev.len() {
                assert(rev[i].0 != rev[j].0);
            }
        }
    }
    if ph == key {
        assert(next[p] == (key, original));
        lemma_mapped_at(next, p);
    } else if exists|j: int| 0 <= j < rev.len() && (#[trigger] rev[j]).0 == ph {
        let j = choose|j: int| 0 <= j < rev.len() && (#[trigger] rev[j]).0 == ph;
        lemma_mapped_at(rev, j);
        assert(next[j] == rev[j]);
        lemma_mapped_at(next, j);
    } else {
        lemma_mapped_nowhere(rev, ph);
        assert forall|j: int| 0 <= j < next.len() implies (#[trigger] next[j]).0 != ph by {
            if j < rev.len() && j != p {
                assert(next[j] == rev[j]);
            }
        }
        lemma_mapped_nowhere(next, ph);
    }
}

proof fn lemma_mapping_distinct(entries: Seq<EntryView>)
    ensures
        distinct_keys(mapping_of(entries)),
    decreases entries.len(),
{
    if entries.len() > 0 {
        lemma_mapping_distinct(entries.drop_last());
        lemma_with_mapping(
            mapping_of(entries.drop_last()),
            entries.last().placeholder,
            entries.last().original,
            entries.last().placeholder,
        );
    }
}

/// Rules change neither the salt nor the terms of the user.
pub proof fn law_rules_keep_salt_and_terms(red: RedactorView, text: Seq<char>, rules: Seq<RuleView>)
    ensures
        rule_passes(red, text, rules).0.state.custom_terms == red.state.custom_terms,
        rule_passes(red, text, rules).0.salt == red.salt,
    decreases rules.len(),
{
    if rules.len() > 0 {
        let before = rule_passes(red, text, rules.drop_last());
        law_rules_keep_salt_and_terms(red, text, rules.drop_last());
        let spans = regex_matches(rules.last().pattern, before.1);
        lemma_red_after(before.0, before.1, rules.last(), spans, spans.len() as int);
    }
}

proof fn lemma_red_after(
    red: RedactorView,
    text: Seq<char>,
    rule: RuleView,
    spans: Seq<(int, int)>,
    k: int,
)
    ensures
        red_after(red, text, rule, spans, k).state.custom_terms == red.state.custom_terms,
        red_after(red, text, rule, spans, k).salt == red.salt,
    decreases k,
{
    if k > 0 {
        lemma_red_after(red, text, rule, spans, k - 1);
    }
}

impl Redactor {
    /// Redacts sensitive content in a text according to a mode.
    ///
    /// What is sensitive gives way to placeholders such as
    /// `<EMAIL_1a2b3c4d5e6f7081>`.
    pub fn redact(&mut self, text: &str, mode: RedactMode, extra_terms: &Vec<String>) -> (r: String)
        ensures
            (final(self)@, r@) == redaction(old(self)@, text@, mode, views(extra_terms@)),
            rules_fit(old(self)@, text@, mode_rules(mode)),
    {
        if mode == RedactMode::Off {
            return String::from_str(text);
        }
        let ghost start = self@;
        let ghost all = mode_rules(RedactMode::Strict);
        let count: usize = if mode == RedactMode::Strict {
            6
        } else {
            5
        };
        let mut out: String = String::from_str(text);
        let mut i: usize = 0;
        proof {
            assert(all.take(0) =~= Seq::empty());
        }
        while i < count
            invariant
                i <= count <= 6,
                all == mode_rules(RedactMode::Strict),
                all.len() == 6,
                start == old(self)@,
                (self@, out@) == rule_passes(start, text@, all.take(i as int)),
                rules_fit(start, text@, all.take(i as int)),
            decreases count - i,
        {
            proof {
                assert(all.take(i + 1).drop_last() =~= all.take(i as int));
                assert(all.take(i + 1).last() == all[i as int]);
            }
            out = redact_regex(self, out.as_str(), i);
            i += 1;
        }
        let ghost ruled = rule_passes(start, text@, mode_rules(mode));
        proof {
            if mode == RedactMode::Strict {
                assert(all.take(6) =~= all);
            } else {
                assert(all.take(5) =~= basic_rules());
            }
            law_rules_keep_salt_and_terms(start, text@, mode_rules(mode));
        }
        let mut terms = text::copy_texts(&self.state.custom_terms);
        let mut further = text::copy_texts(extra_terms);
        let ghost t1 = terms@;
        let ghost t2 = further@;
        terms.append(&mut further);
        let ghost all_terms = views(terms@);
        proof {
            assert(all_terms =~= views(t1) + views(t2));
            assert(all_terms == start.state.custom_terms + views(extra_terms@));
            assert(all_terms.take(0) =~= Seq::empty());
        }
        let mut j: usize = 0;
        while j < terms.len()
            invariant
                j <= terms@.len(),
                all_terms == views(terms@),
                (self@, out@) == term_passes(ruled.0, ruled.1, all_terms.take(j as int)),
            decreases terms@.len() - j,
        {
            proof {
                assert(all_terms.take(j + 1).drop_last() =~= all_terms.take(j as int));
                assert(all_terms.take(j + 1).last() == terms@[j as int]@);
            }
            out = redact_literal(self, out.as_str(), terms[j].as_str());
            j += 1;
        }
        proof {
            assert(all_terms.take(all_terms.len() as int) =~= all_terms);
        }
        if self.asked < extra_terms.len() {
            self.asked = extra_terms.len();
        }
        out
    }

    fn sorted_mapping(&self) -> (r: Vec<(String, String)>)
        ensures
            pair_views(r@) == longest_first(self@.rev),
    {
        let ghost all = pair_views(self.rev@);
        let mut out: Vec<(String, String)> = Vec::new();
        let mut i: usize = 0;
        proof {
            assert(pair_views(out@) =~= longest_first(all.take(0)));
        }
        while i < self.rev.len()
            invariant
                i <= self.rev@.len(),
                all == pair_views(self.rev@),
                pair_views(out@) == longest_first(all.take(i as int)),
            decreases self.rev@.len() - i,
        {
            let len: usize = text::text_bytes(self.rev[i].0.as_str());
            let ghost before = pair_views(out@);
            let mut p: usize = 0;
            proof {
                assert(before.skip(0) =~= before);
            }
            while p < out.len() && text::text_bytes(out[p].0.as_str()) >= len
                invariant
                    p <= out@.len(),
                    before == pair_views(out@),
                    longer_count(before, len as nat) == p + longer_count(
                        before.skip(p as int),
                        len as nat,
                    ),
                decreases out@.len() - p,
            {
                proof {
                    assert(before.skip(p as int)[0] == before[p as int]);
                    assert(before.skip(p as int).skip(1) =~= before.skip(p + 1));
                }
                p += 1;
            }
            proof {
                if p < before.len() {
                    assert(before.skip(p as int)[0] == before[p as int]);
                }
                assert(all.take(i + 1).drop_last() =~= all.take(i as int));
                assert(all.take(i + 1).last() == all[i as int]);
            }
            let ghost out_before = out@;
            let pair = (self.rev[i].0.clone(), self.rev[i].1.clone());
            out.insert(p, pair);
            proof {
                assert(pair_views(out@) =~= before.insert(p as int, all[i as int]));
            }
            i += 1;
        }
        proof {
            assert(all.take(all.len() as int) =~= all);
        }
        out
    }

    /// Replaces the placeholders in a text by what they stand for, longer ones
    /// before shorter ones, and again those that stood in what others stand for.
    ///
    /// This is for the user's eyes only: what leaves the client holds
    /// placeholders.
    pub fn rehydrate(&self, text: &str) -> (r: String)
        ensures
            r@ == rehydrated(self@, text@),
    {
        let keys = self.sorted_mapping();
        let ghost all = pair_views(keys@);
        let most: u128 = self.rev.len() as u128 + self.state.custom_terms.len() as u128
            + self.asked as u128 + 6;
        let mut out: String = String::from_str(text);
        let mut rounds: u128 = most;
        while rounds > 0
            invariant_except_break
                all == pair_views(keys@),
                restored_in_rounds(out@, all, rounds as nat) == restored_in_rounds(
                    text@,
                    all,
                    most as nat,
                ),
            ensures
                out@ == restored_in_rounds(text@, all, most as nat),
            decreases rounds,
        {
            let next = restore_once(out.as_str(), &keys);
            if text::text_eq(next.as_str(), out.as_str()) {
                break;
            }
            out = next;
            rounds -= 1;
        }
        out
    }
}

fn restore_once(text: &str, keys: &Vec<(String, String)>) -> (r: String)
    ensures
        r@ == restored(text@, pair_views(keys@)),
{
    let ghost all = pair_views(keys@);
    let mut out: String = String::from_str(text);
    let mut i: usize = 0;
    proof {
        assert(all.take(0) =~= Seq::empty());
    }
    while i < keys.len()
        invariant
            i <= keys@.len(),
            all == pair_views(keys@),
            out@ == restored(text@, all.take(i as int)),
        decreases keys@.len() - i,
    {
        proof {
            assert(all.take(i + 1).drop_last() =~= all.take(i as int));
            assert(all.take(i + 1).last() == all[i as int]);
        }
        out = text::replace_text(out.as_str(), keys[i].0.as_str(), keys[i].1.as_str());
        i += 1;
    }
    proof {
        assert(all.take(all.len() as int) =~= all);
    }
    out
}

impl Clone for Redactor {
    fn clone(&self) -> (r: Self)
        ensures
            r@ == self@,
    {
        let mut rev: Vec<(String, String)> = Vec::new();
        let mut i: usize = 0;
        while i < self.rev.len()
            invariant
                i <= self.rev@.len(),
                rev@.len() == i,
                forall|k: int|
                    0 <= k < i ==> (#[trigger] rev@[k]).0@ == self.rev@[k].0@ && rev@[k].1@
                        == self.rev@[k].1@,
            decreases self.rev@.len() - i,
        {
            rev.push((self.rev[i].0.clone(), self.rev[i].1.clone()));
            i += 1;
        }
        proof {
            assert(pair_views(rev@) =~= pair_views(self.rev@));
        }
        Redactor {
            salt: self.salt,
            rev,
            state: self.state.clone(),
            rules: self.rules.clone(),
            asked: self.asked,
        }
    }
}

} // verus!
