//! A lightweight local full-text index over memory items and messages.
//!
//! The client retrieves the few items that matter for a question and reveals
//! only those. What is indexed, which entries a query touches and how results
//! are ordered and shaped is decided here. The scores themselves are floating
//! point and are computed by the caller.

use vstd::hash_map::StringHashMap;
use vstd::prelude::*;
use vstd::string::*;

use crate::crypto::uuid_notation;
use crate::session::{memory_views, MemoryItem, MemoryView};
use crate::text;
use crate::text::{
    byte_len, char_is_alphanumeric, decimal, first_chars, lowercase_text, trimmed, views,
};
use crate::types;
use crate::types::{message_views, ChatMessage, MessageView};

verus! {

/// What an indexed document comes from.
#[derive(Copy, Clone, Debug, PartialEq, Eq, Structural)]
pub enum DocKind {
    Memory,
    Message,
}

/// An indexed document.
#[derive(Debug)]
pub struct Doc {
    pub kind: DocKind,
    pub id: String,
    pub created_at_ms: i64,
    pub role: Option<String>,
    /// The position of a message in its session.
    pub msg_index: Option<usize>,
    pub text: String,
    pub tags: Vec<String>,
}

/// What a document holds.
pub struct DocView {
    pub kind: DocKind,
    pub id: Seq<char>,
    pub created_at_ms: i64,
    pub role: Option<Seq<char>>,
    pub msg_index: Option<usize>,
    pub text: Seq<char>,
    pub tags: Seq<Seq<char>>,
}

/// An optional text by what it holds.
pub open spec fn opt_view(s: Option<String>) -> Option<Seq<char>> {
    match s {
        Some(t) => Some(t@),
        None => None,
    }
}

impl View for Doc {
    type V = DocView;

    open spec fn view(&self) -> DocView {
        DocView {
            kind: self.kind,
            id: self.id@,
            created_at_ms: self.created_at_ms,
            role: opt_view(self.role),
            msg_index: self.msg_index,
            text: self.text@,
            tags: views(self.tags@),
        }
    }
}

impl Clone for Doc {
    fn clone(&self) -> (r: Self)
        ensures
            r@ == self@,
    {
        Doc {
            kind: self.kind,
            id: self.id.clone(),
            created_at_ms: self.created_at_ms,
            role: match &self.role {
                Some(role) => Some(role.clone()),
                None => None,
            },
            msg_index: self.msg_index,
            text: self.text.clone(),
            tags: text::copy_texts(&self.tags),
        }
    }
}

/// What some documents hold.
pub open spec fn doc_views(docs: Seq<Doc>) -> Seq<DocView> {
    Seq::new(docs.len(), |i: int| docs[i]@)
}

/// Words that say nothing about what a text is about.
pub open spec fn stopwords() -> Seq<Seq<char>> {
    seq![
        "the"@, "and"@, "for"@, "with"@, "this"@, "that"@, "from"@, "have"@, "you"@, "your"@,
        "are"@, "was"@, "were"@, "will"@, "would"@, "should"@, "could"@, "what"@, "when"@,
        "where"@, "why"@, "how"@, "into"@, "about"@, "them"@, "they"@, "then"@, "than"@, "also"@,
        "just"@, "like"@, "want"@, "need"@, "been"@, "being"@, "can"@, "not"@, "but"@, "our"@,
        "out"@, "use"@, "using"@, "used"@,
    ]
}

fn stopword_list() -> (r: Vec<&'static str>)
    ensures
        r@.len() == stopwords().len(),
        forall|i: int| 0 <= i < r@.len() ==> (#[trigger] r@[i])@ == stopwords()[i],
{
    vec![
        "the", "and", "for", "with", "this", "that", "from", "have", "you", "your",
        "are", "was", "were", "will", "would", "should", "could", "what", "when",
        "where", "why", "how", "into", "about", "them", "they", "then", "than", "also",
        "just", "like", "want", "need", "been", "being", "can", "not", "but", "our",
        "out", "use", "using", "used",
    ]
}

fn is_stopword(word: &str) -> (r: bool)
    ensures
        r == stopwords().contains(word@),
{
    let words = stopword_list();
    let mut i: usize = 0;
    while i < words.len()
        invariant
            i <= words@.len(),
            words@.len() == stopwords().len(),
            forall|k: int| 0 <= k < words@.len() ==> (#[trigger] words@[k])@ == stopwords()[k],
            forall|k: int| 0 <= k < i ==> #[trigger] stopwords()[k] != word@,
        decreases words@.len() - i,
    {
        if text::text_eq(words[i], word) {
            proof {
                assert(stopwords()[i as int] == word@);
            }
            return true;
        }
        i += 1;
    }
    false
}

/// The pieces of a text between the characters that are neither letters nor
/// digits.
pub open spec fn words(text: Seq<char>) -> Seq<Seq<char>>
    decreases text.len(),
{
    if text.len() == 0 {
        seq![Seq::empty()]
    } else {
        let w = words(text.drop_last());
        if char_is_alphanumeric(text.last()) {
            w.update(w.len() - 1, w.last().push(text.last()))
        } else {
            w.push(Seq::empty())
        }
    }
}

/// Whether a word is worth indexing.
pub open spec fn is_term(word: Seq<char>) -> bool {
    byte_len(word) >= 3 && !stopwords().contains(word)
}

/// The words that are worth indexing, without surrounding white space.
pub open spec fn terms_of(words: Seq<Seq<char>>) -> Seq<Seq<char>>
    decreases words.len(),
{
    if words.len() == 0 {
        Seq::empty()
    } else {
        let before = terms_of(words.drop_last());
        if is_term(trimmed(words.last())) {
            before.push(trimmed(words.last()))
        } else {
            before
        }
    }
}

/// The index terms of a text.
pub open spec fn tokens(text: Seq<char>) -> Seq<Seq<char>> {
    terms_of(words(lowercase_text(text)))
}

fn split_words(text: &str) -> (r: Vec<String>)
    ensures
        views(r@) == words(text@),
{
    let chars = text::chars_of(text);
    let mut out: Vec<String> = Vec::new();
    let mut piece: String = String::new();
    let mut i: usize = 0;
    proof {
        assert(views(out@).push(piece@) =~= words(text@.take(0)));
    }
    while i < chars.len()
        invariant
            i <= chars@.len(),
            chars@ == text@,
            views(out@).push(piece@) == words(text@.take(i as int)),
        decreases chars@.len() - i,
    {
        let ghost before = views(out@);
        let ghost last = piece@;
        proof {
            assert(text@.take(i + 1).drop_last() =~= text@.take(i as int));
            assert(text@.take(i + 1).last() == text@[i as int]);
        }
        if text::is_alphanumeric(chars[i]) {
            text::push_char(&mut piece, chars[i]);
            proof {
                assert(views(out@).push(piece@) =~= before.push(last).update(
                    before.len() as int,
                    last.push(text@[i as int]),
                ));
            }
        } else {
            out.push(piece);
            piece = String::new();
            proof {
                assert(views(out@) =~= before.push(last));
                assert(piece@ =~= Seq::empty());
            }
        }
        i += 1;
    }
    let ghost before = views(out@);
    let ghost last = piece@;
    out.push(piece);
    proof {
        assert(views(out@) =~= before.push(last));
        assert(text@.take(text@.len() as int) =~= text@);
    }
    out
}

/// The index terms of a text.
pub fn tokenize(s: &str) -> (r: Vec<String>)
    ensures
        views(r@) == tokens(s@),
{
    let lower = text::to_lowercase(s);
    let pieces = split_words(lower.as_str());
    let ghost all = views(pieces@);
    let mut out: Vec<String> = Vec::new();
    let mut i: usize = 0;
    proof {
        assert(views(out@) =~= terms_of(all.take(0)));
    }
    while i < pieces.len()
        invariant
            i <= pieces@.len(),
            all == views(pieces@),
            views(out@) == terms_of(all.take(i as int)),
        decreases pieces@.len() - i,
    {
        let word = text::trim(pieces[i].as_str());
        let ghost before = views(out@);
        proof {
            assert(all.take(i + 1).drop_last() =~= all.take(i as int));
            assert(all.take(i + 1).last() == pieces@[i as int]@);
        }
        if text::text_bytes(word.as_str()) >= 3 && !is_stopword(word.as_str()) {
            out.push(word);
            proof {
                assert(views(out@) =~= before.push(word@));
            }
        }
        i += 1;
    }
    proof {
        assert(all.take(all.len() as int) =~= all);
    }
    out
}

/// The terms that stand for the tags of a document.
pub open spec fn tag_terms(tags: Seq<Seq<char>>) -> Seq<Seq<char>>
    decreases tags.len(),
{
    if tags.len() == 0 {
        Seq::empty()
    } else {
        let before = tag_terms(tags.drop_last());
        let tag = lowercase_text(trimmed(tags.last()));
        if tag.len() == 0 {
            before
        } else {
            before.push("tag:"@ + tag)
        }
    }
}

/// All terms under which a document is indexed.
pub open spec fn index_terms(text: Seq<char>, tags: Seq<Seq<char>>) -> Seq<Seq<char>> {
    tokens(text) + tag_terms(tags)
}

fn tokenize_for_index(text: &str, tags: &Vec<String>) -> (r: Vec<String>)
    ensures
        views(r@) == index_terms(text@, views(tags@)),
{
    let mut toks = tokenize(text);
    let ghost head = views(toks@);
    let ghost all = views(tags@);
    let mut i: usize = 0;
    proof {
        assert(head + tag_terms(all.take(0)) =~= head);
    }
    while i < tags.len()
        invariant
            i <= tags@.len(),
            all == views(tags@),
            views(toks@) == head + tag_terms(all.take(i as int)),
        decreases tags@.len() - i,
    {
        let trimmed_tag = text::trim(tags[i].as_str());
        let tag = text::to_lowercase(trimmed_tag.as_str());
        let ghost before = views(toks@);
        proof {
            assert(all.take(i + 1).drop_last() =~= all.take(i as int));
            assert(all.take(i + 1).last() == tags@[i as int]@);
            text::lemma_byte_len_zero(tag@);
        }
        if text::text_bytes(tag.as_str()) > 0 {
            let mut term = String::from_str("tag:");
            term.append(tag.as_str());
            toks.push(term);
            proof {
                assert(views(toks@) =~= before.push(term@));
                assert(before.push(term@) =~= head + tag_terms(all.take(i + 1)));
            }
        }
        i += 1;
    }
    proof {
        assert(all.take(all.len() as int) =~= all);
    }
    toks
}

/// Terms without repetitions, in the order in which they first occur.
pub open spec fn firsts(terms: Seq<Seq<char>>) -> Seq<Seq<char>>
    decreases terms.len(),
{
    if terms.len() == 0 {
        Seq::empty()
    } else {
        let before = firsts(terms.drop_last());
        if before.contains(terms.last()) {
            before
        } else {
            before.push(terms.last())
        }
    }
}

/// The terms of a query, each once, so that repeated words do not dominate.
pub fn tokenize_query(q: &str) -> (r: Vec<String>)
    ensures
        views(r@) == firsts(tokens(q@)),
{
    let toks = tokenize(q);
    let ghost all = views(toks@);
    let mut out: Vec<String> = Vec::new();
    let mut i: usize = 0;
    proof {
        assert(views(out@) =~= firsts(all.take(0)));
    }
    while i < toks.len()
        invariant
            i <= toks@.len(),
            all == views(toks@),
            views(out@) == firsts(all.take(i as int)),
        decreases toks@.len() - i,
    {
        let ghost before = views(out@);
        proof {
            assert(all.take(i + 1).drop_last() =~= all.take(i as int));
            assert(all.take(i + 1).last() == toks@[i as int]@);
        }
        if !text::contains_one(&out, toks[i].as_str()) {
            out.push(toks[i].clone());
            proof {
                assert(views(out@) =~= before.push(toks@[i as int]@));
            }
        }
        i += 1;
    }
    proof {
        assert(all.take(all.len() as int) =~= all);
    }
    out
}

/// Repeated words carry no weight in a query: no term stands twice in it, its
/// terms are those of the text, and they stand in the order in which they first
/// occur there.
pub proof fn law_query_terms_stand_once(q: Seq<char>)
    ensures
        firsts(tokens(q)).no_duplicates(),
        forall|t: Seq<char>| #[trigger] firsts(tokens(q)).contains(t) <==> tokens(q).contains(t),
        forall|i: int, j: int|
            0 <= i < j < firsts(tokens(q)).len() ==> tokens(q).index_of_first(
                #[trigger] firsts(tokens(q))[i],
            )->0 < tokens(q).index_of_first(#[trigger] firsts(tokens(q))[j])->0,
{
    lemma_firsts(tokens(q));
}

/// Doubled terms make the same query.
pub proof fn law_doubled_terms_make_the_same_query(terms: Seq<Seq<char>>)
    ensures
        firsts(terms + terms) == firsts(terms),
{
    lemma_firsts(terms);
    lemma_known_terms_add_nothing(terms, terms);
}

/// Repeated words carry no weight: a query that is written twice, with a space
/// between, is the same query. Lower-casing must work on the two halves as it does
/// on the query, which it does but for letters that depend on what surrounds them.
pub proof fn law_doubled_query(q: Seq<char>)
    requires
        lowercase_text(q + " "@ + q) == lowercase_text(q) + " "@ + lowercase_text(q),
        !char_is_alphanumeric(' '),
    ensures
        firsts(tokens(q + " "@ + q)) == firsts(tokens(q)),
{
    let low = lowercase_text(q);
    reveal_strlit(" ");
    assert(low + " "@ + low =~= low.push(' ') + low);
    lemma_words_apart(low, low);
    lemma_terms_of_concat(words(low), words(low));
    law_doubled_terms_make_the_same_query(tokens(q));
}

/// Whether a stretch of a text is a word: letters and digits only, with none on
/// either side.
pub open spec fn is_word_at(text: Seq<char>, i: int, j: int) -> bool {
    &&& 0 <= i < j <= text.len()
    &&& forall|k: int| i <= k < j ==> char_is_alphanumeric(#[trigger] text[k])
    &&& i > 0 ==> !char_is_alphanumeric(text[i - 1])
    &&& j < text.len() ==> !char_is_alphanumeric(text[j])
}

/// The pieces of a text hold its letters and digits, all of them and in order,
/// and nothing else.
pub proof fn law_words_keep_letters_and_digits(text: Seq<char>)
    ensures
        words(text).len() > 0,
        words(text).flatten() == text.filter(|c: char| char_is_alphanumeric(c)),
    decreases text.len(),
{
    reveal(Seq::filter);
    let w = words(text);
    w.lemma_flatten_and_flatten_alt_are_equivalent();
    if text.len() == 0 {
        assert(w.drop_last().flatten_alt() =~= Seq::empty());
        assert(w.flatten() =~= Seq::empty());
    } else {
        let front = text.drop_last();
        law_words_keep_letters_and_digits(front);
        let v = words(front);
        v.lemma_flatten_and_flatten_alt_are_equivalent();
        if char_is_alphanumeric(text.last()) {
            assert(w.drop_last() =~= v.drop_last());
            assert(v.flatten() == v.drop_last().flatten_alt() + v.last());
            assert(w.flatten() =~= v.flatten().push(text.last()));
        } else {
            assert(w.drop_last() =~= v);
            assert(w.flatten() =~= v.flatten());
        }
    }
}

/// Every word of a text is one of its pieces, and every piece that is not empty
/// is a word of the text.
pub proof fn law_pieces_are_the_words(text: Seq<char>)
    ensures
        forall|i: int, j: int|
            #[trigger] is_word_at(text, i, j) ==> words(text).contains(text.subrange(i, j)),
        forall|k: int|
            0 <= k < words(text).len() && (#[trigger] words(text)[k]).len() > 0 ==> exists|
                i: int,
                j: int,
            | #[trigger]
                is_word_at(text, i, j) && words(text)[k] == text.subrange(i, j),
{
    lemma_pieces(text);
    assert forall|i: int, j: int| #[trigger] is_word_at(text, i, j) implies words(text).contains(
        text.subrange(i, j),
    ) by {
        if j == text.len() {
            lemma_last_piece(text, i);
            assert(words(text)[words(text).len() - 1] == text.subrange(i, j));
        }
    }
}

proof fn lemma_last_piece(text: Seq<char>, i: int)
    requires
        0 <= i <= text.len(),
        forall|k: int| i <= k < text.len() ==> char_is_alphanumeric(#[trigger] text[k]),
        i > 0 ==> !char_is_alphanumeric(text[i - 1]),
    ensures
        words(text).len() > 0,
        words(text).last() == text.skip(i),
        text.skip(i) == text.subrange(i, text.len() as int),
    decreases text.len(),
{
    if text.len() > 0 {
        let front = text.drop_last();
        if i < text.len() {
            assert(char_is_alphanumeric(text[text.len() - 1]));
            assert forall|k: int| i <= k < front.len() implies char_is_alphanumeric(
                #[trigger] front[k],
            ) by {
                assert(front[k] == text[k]);
            }
            lemma_last_piece(front, i);
            assert(front.skip(i).push(text.last()) =~= text.skip(i));
        }
    }
}

#[verifier::spinoff_prover]
#[verifier::rlimit(40)]
proof fn lemma_pieces(text: Seq<char>)
    ensures
        words(text).len() > 0,
        exists|i: int|
            0 <= i <= text.len() && words(text).last() == #[trigger] text.skip(i) && (forall|k: int|
                i <= k < text.len() ==> char_is_alphanumeric(#[trigger] text[k])) && (i > 0
                ==> !char_is_alphanumeric(text[i - 1])),
        forall|i: int, j: int|
            j < text.len() && #[trigger] is_word_at(text, i, j)
                ==> words(text).drop_last().contains(text.subrange(i, j)),
        forall|k: int|
            0 <= k < words(text).len() && (#[trigger] words(text)[k]).len() > 0 ==> exists|
                i: int,
                j: int,
            | #[trigger]
                is_word_at(text, i, j) && words(text)[k] == text.subrange(i, j),
    decreases text.len(),
{
    let w = words(text);
    if text.len() == 0 {
        assert(w.last() =~= text.skip(0));
    } else {
        let front = text.drop_last();
        let v = words(front);
        lemma_pieces(front);
        let s = choose|i: int|
            0 <= i <= front.len() && v.last() == #[trigger] front.skip(i) && (forall|k: int|
                i <= k < front.len() ==> char_is_alphanumeric(#[trigger] front[k])) && (i > 0
                ==> !char_is_alphanumeric(front[i - 1]));
        assert forall|i: int, j: int| 0 <= i <= j <= front.len() implies #[trigger] front.subrange(
            i,
            j,
        ) == text.subrange(i, j) by {
            assert(front.subrange(i, j) =~= text.subrange(i, j));
        }
        assert forall|i: int, j: int| j < front.len() implies #[trigger] is_word_at(text, i, j)
            == is_word_at(front, i, j) by {
            assert forall|k: int| 0 <= k < front.len() implies #[trigger] front[k] == text[k] by {}
            if is_word_at(text, i, j) {
                assert forall|k: int| i <= k < j implies char_is_alphanumeric(
                    #[trigger] front[k],
                ) by {
                    assert(front[k] == text[k]);
                }
            }
            if is_word_at(front, i, j) {
                assert forall|k: int| i <= k < j implies char_is_alphanumeric(
                    #[trigger] text[k],
                ) by {
                    assert(front[k] == text[k]);
                }
            }
        }
        if char_is_alphanumeric(text.last()) {
            assert(w.drop_last() =~= v.drop_last());
            assert(front.skip(s).push(text.last()) =~= text.skip(s));
            assert forall|k: int| s <= k < text.len() implies char_is_alphanumeric(
                #[trigger] text[k],
            ) by {
                if k < front.len() {
                    assert(front[k] == text[k]);
                }
            }
            if s > 0 {
                assert(front[s - 1] == text[s - 1]);
            }
            assert forall|i: int, j: int|
                j < text.len() && #[trigger] is_word_at(text, i, j) implies w.drop_last().contains(
                text.subrange(i, j),
            ) by {
                assert(text[text.len() - 1] == text.last());
                assert(is_word_at(front, i, j));
                assert(front.subrange(i, j) == text.subrange(i, j));
            }
            assert forall|k: int| 0 <= k < w.len() && (#[trigger] w[k]).len() > 0 implies exists|
                i: int,
                j: int,
            | #[trigger]
                is_word_at(text, i, j) && w[k] == text.subrange(i, j) by {
                if k == w.len() - 1 {
                    assert(text.skip(s) =~= text.subrange(s, text.len() as int));
                    assert(is_word_at(text, s, text.len() as int));
                } else {
                    assert(w[k] == v[k]);
                    lemma_inner_piece(front, k);
                    let (i, j) = choose|i: int, j: int| #[trigger]
                        is_word_at(front, i, j) && j < front.len() && v[k] == front.subrange(i, j);
                    assert(is_word_at(text, i, j));
                    assert(front.subrange(i, j) == text.subrange(i, j));
                }
            }
        } else {
            assert(w.drop_last() =~= v);
            assert(w.last() =~= text.skip(text.len() as int));
            assert forall|i: int, j: int|
                j < text.len() && #[trigger] is_word_at(text, i, j) implies w.drop_last().contains(
                text.subrange(i, j),
            ) by {
                assert(front.subrange(i, j) == text.subrange(i, j));
                if j < front.len() {
                    assert(is_word_at(front, i, j));
                    let k = v.drop_last().index_of(front.subrange(i, j));
                    assert(v[k] == v.drop_last()[k]);
                } else {
                    assert forall|k: int| i <= k < front.len() implies char_is_alphanumeric(
                        #[trigger] front[k],
                    ) by {
                        assert(front[k] == text[k]);
                    }
                    if i > 0 {
                        assert(front[i - 1] == text[i - 1]);
                    }
                    lemma_last_piece(front, i);
                    assert(v[v.len() - 1] == front.subrange(i, j));
                }
            }
            assert forall|k: int| 0 <= k < w.len() && (#[trigger] w[k]).len() > 0 implies exists|
                i: int,
                j: int,
            | #[trigger]
                is_word_at(text, i, j) && w[k] == text.subrange(i, j) by {
                assert(w[k] == v[k]);
                let (i, j) = choose|i: int, j: int| #[trigger]
                    is_word_at(front, i, j) && v[k] == front.subrange(i, j);
                assert(front.subrange(i, j) == text.subrange(i, j));
                assert forall|m: int| i <= m < j implies char_is_alphanumeric(
                    #[trigger] text[m],
                ) by {
                    assert(front[m] == text[m]);
                }
                assert(is_word_at(text, i, j));
            }
        }
    }
}

proof fn lemma_inner_piece(text: Seq<char>, k: int)
    requires
        0 <= k < words(text).len() - 1,
        words(text)[k].len() > 0,
    ensures
        exists|i: int, j: int| #[trigger]
            is_word_at(text, i, j) && j < text.len() && words(text)[k] == text.subrange(i, j),
    decreases text.len(),
{
    let front = text.drop_last();
    let v = words(front);
    lemma_pieces(front);
    if char_is_alphanumeric(text.last()) {
        assert(words(text)[k] == v[k]);
        lemma_inner_piece(front, k);
    } else {
        assert(words(text)[k] == v[k]);
    }
    let (i, j) = choose|i: int, j: int| #[trigger]
        is_word_at(front, i, j) && (char_is_alphanumeric(text.last()) ==> j < front.len()) && v[k]
            == front.subrange(i, j);
    assert(front.subrange(i, j) =~= text.subrange(i, j));
    assert forall|m: int| i <= m < j implies char_is_alphanumeric(#[trigger] text[m]) by {
        assert(front[m] == text[m]);
    }
    assert(is_word_at(text, i, j));
}

/// Whether a word is one of those that say nothing about what a text is about.
pub open spec fn says_nothing(word: Seq<char>) -> bool {
    ||| word == "the"@
    ||| word == "and"@
    ||| word == "for"@
    ||| word == "with"@
    ||| word == "this"@
    ||| word == "that"@
    ||| word == "from"@
    ||| word == "have"@
    ||| word == "you"@
    ||| word == "your"@
    ||| word == "are"@
    ||| word == "was"@
    ||| word == "were"@
    ||| word == "will"@
    ||| word == "would"@
    ||| word == "should"@
    ||| word == "could"@
    ||| word == "what"@
    ||| word == "when"@
    ||| word == "where"@
    ||| word == "why"@
    ||| word == "how"@
    ||| word == "into"@
    ||| word == "about"@
    ||| word == "them"@
    ||| word == "they"@
    ||| word == "then"@
    ||| word == "than"@
    ||| word == "also"@
    ||| word == "just"@
    ||| word == "like"@
    ||| word == "want"@
    ||| word == "need"@
    ||| word == "been"@
    ||| word == "being"@
    ||| word == "can"@
    ||| word == "not"@
    ||| word == "but"@
    ||| word == "our"@
    ||| word == "out"@
    ||| word == "use"@
    ||| word == "using"@
    ||| word == "used"@
}

/// What stands for a text are its words in lower case that take at least three
/// bytes and say something: all of these, and no others.
pub proof fn law_terms_are_the_words_that_say_something(text: Seq<char>, term: Seq<char>)
    ensures
        tokens(text).contains(term) <==> byte_len(term) >= 3 && !says_nothing(term) && exists|
            k: int,
        |
            0 <= k < words(lowercase_text(text)).len() && trimmed(
                #[trigger] words(lowercase_text(text))[k],
            ) == term,
{
    lemma_terms(words(lowercase_text(text)), term);
    lemma_stopwords(term);
}

proof fn lemma_stopwords(word: Seq<char>)
    ensures
        stopwords().contains(word) <==> says_nothing(word),
{
    let all = stopwords();
    assert(all.len() == 43);
    if all.contains(word) {
        let i = all.index_of(word);
        assert(all[i] == word);
    }
    if says_nothing(word) {
        assert(all[0] == "the"@);
        assert(all[1] == "and"@);
        assert(all[2] == "for"@);
        assert(all[3] == "with"@);
        assert(all[4] == "this"@);
        assert(all[5] == "that"@);
        assert(all[6] == "from"@);
        assert(all[7] == "have"@);
        assert(all[8] == "you"@);
        assert(all[9] == "your"@);
        assert(all[10] == "are"@);
        assert(all[11] == "was"@);
        assert(all[12] == "were"@);
        assert(all[13] == "will"@);
        assert(all[14] == "would"@);
        assert(all[15] == "should"@);
        assert(all[16] == "could"@);
        assert(all[17] == "what"@);
        assert(all[18] == "when"@);
        assert(all[19] == "where"@);
        assert(all[20] == "why"@);
        assert(all[21] == "how"@);
        assert(all[22] == "into"@);
        assert(all[23] == "about"@);
        assert(all[24] == "them"@);
        assert(all[25] == "they"@);
        assert(all[26] == "then"@);
        assert(all[27] == "than"@);
        assert(all[28] == "also"@);
        assert(all[29] == "just"@);
        assert(all[30] == "like"@);
        assert(all[31] == "want"@);
        assert(all[32] == "need"@);
        assert(all[33] == "been"@);
        assert(all[34] == "being"@);
        assert(all[35] == "can"@);
        assert(all[36] == "not"@);
        assert(all[37] == "but"@);
        assert(all[38] == "our"@);
        assert(all[39] == "out"@);
        assert(all[40] == "use"@);
        assert(all[41] == "using"@);
        assert(all[42] == "used"@);
    }
}

proof fn lemma_terms(words: Seq<Seq<char>>, term: Seq<char>)
    ensures
        terms_of(words).contains(term) <==> is_term(term) && exists|k: int|
            0 <= k < words.len() && trimmed(#[trigger] words[k]) == term,
    decreases words.len(),
{
    if words.len() > 0 {
        let front = words.drop_last();
        let before = terms_of(front);
        let all = terms_of(words);
        lemma_terms(front, term);
        if all.contains(term) {
            let i = all.index_of(term);
            if i < before.len() {
                assert(before[i] == term);
                let k = choose|k: int| 0 <= k < front.len() && trimmed(#[trigger] front[k]) == term;
                assert(words[k] == front[k]);
            } else {
                assert(trimmed(words[words.len() - 1]) == term);
            }
        }
        if is_term(term) && exists|k: int|
            0 <= k < words.len() && trimmed(#[trigger] words[k]) == term {
            let k = choose|k: int| 0 <= k < words.len() && trimmed(#[trigger] words[k]) == term;
            if k < front.len() {
                assert(front[k] == words[k]);
                let i = before.index_of(term);
                assert(all[i] == term);
            } else {
                assert(all[all.len() - 1] == term);
            }
        }
    }
}

/// What stands for the tags of a document are its tags in lower case, without
/// the white space around them and with a mark in front, unless they are blank.
pub proof fn law_tags_stand_under_a_mark(tags: Seq<Seq<char>>, term: Seq<char>)
    ensures
        tag_terms(tags).contains(term) <==> exists|k: int|
            0 <= k < tags.len() && lowercase_text(trimmed(#[trigger] tags[k])).len() > 0 && term
                == "tag:"@ + lowercase_text(trimmed(tags[k])),
    decreases tags.len(),
{
    if tags.len() > 0 {
        let front = tags.drop_last();
        let before = tag_terms(front);
        let all = tag_terms(tags);
        law_tags_stand_under_a_mark(front, term);
        if all.contains(term) {
            let i = all.index_of(term);
            if i < before.len() {
                assert(before[i] == term);
                let k = choose|k: int|
                    0 <= k < front.len() && lowercase_text(trimmed(#[trigger] front[k])).len() > 0
                        && term == "tag:"@ + lowercase_text(trimmed(front[k]));
                assert(tags[k] == front[k]);
            } else {
                assert(term == "tag:"@ + lowercase_text(trimmed(tags[tags.len() - 1])));
            }
        }
        if exists|k: int|
            0 <= k < tags.len() && lowercase_text(trimmed(#[trigger] tags[k])).len() > 0 && term
                == "tag:"@ + lowercase_text(trimmed(tags[k])) {
            let k = choose|k: int|
                0 <= k < tags.len() && lowercase_text(trimmed(#[trigger] tags[k])).len() > 0
                    && term == "tag:"@ + lowercase_text(trimmed(tags[k]));
            if k < front.len() {
                assert(front[k] == tags[k]);
                let i = before.index_of(term);
                assert(all[i] == term);
            } else {
                assert(all[all.len() - 1] == term);
            }
        }
    }
}

proof fn lemma_words_apart(a: Seq<char>, b: Seq<char>)
    requires
        !char_is_alphanumeric(' '),
    ensures
        words(a.push(' ') + b) == words(a) + words(b),
        words(b).len() > 0,
    decreases b.len(),
{
    let whole = a.push(' ') + b;
    if b.len() == 0 {
        assert(whole =~= a.push(' '));
        assert(a.push(' ').drop_last() =~= a);
        assert(words(whole) =~= words(a) + words(b));
    } else {
        lemma_words_apart(a, b.drop_last());
        assert(whole.drop_last() =~= a.push(' ') + b.drop_last());
        assert(whole.last() == b.last());
        assert(words(whole) =~= words(a) + words(b));
    }
}

proof fn lemma_terms_of_concat(a: Seq<Seq<char>>, b: Seq<Seq<char>>)
    ensures
        terms_of(a + b) == terms_of(a) + terms_of(b),
    decreases b.len(),
{
    if b.len() == 0 {
        assert(a + b =~= a);
        assert(terms_of(a) + terms_of(b) =~= terms_of(a));
    } else {
        lemma_terms_of_concat(a, b.drop_last());
        assert((a + b).drop_last() =~= a + b.drop_last());
        assert((a + b).last() == b.last());
        assert(terms_of(a + b) =~= terms_of(a) + terms_of(b));
    }
}

proof fn lemma_known_terms_add_nothing(terms: Seq<Seq<char>>, more: Seq<Seq<char>>)
    requires
        forall|i: int| 0 <= i < more.len() ==> firsts(terms).contains(#[trigger] more[i]),
    ensures
        firsts(terms + more) == firsts(terms),
    decreases more.len(),
{
    if more.len() == 0 {
        assert(terms + more =~= terms);
    } else {
        lemma_known_terms_add_nothing(terms, more.drop_last());
        assert((terms + more).drop_last() =~= terms + more.drop_last());
        assert(firsts(terms).contains(more[more.len() - 1]));
    }
}

proof fn lemma_firsts(terms: Seq<Seq<char>>)
    ensures
        firsts(terms).no_duplicates(),
        forall|t: Seq<char>| #[trigger] firsts(terms).contains(t) <==> terms.contains(t),
        forall|i: int, j: int|
            0 <= i < j < firsts(terms).len() ==> terms.index_of_first(
                #[trigger] firsts(terms)[i],
            )->0 < terms.index_of_first(#[trigger] firsts(terms)[j])->0,
    decreases terms.len(),
{
    if terms.len() > 0 {
        let front = terms.drop_last();
        let known = firsts(front);
        let all = firsts(terms);
        lemma_firsts(front);
        assert forall|t: Seq<char>| #[trigger] all.contains(t) <==> terms.contains(t) by {
            if all.contains(t) {
                let i = all.index_of(t);
                if i < known.len() {
                    assert(known.contains(known[i]));
                    let j = front.index_of(t);
                    assert(terms[j] == t);
                } else {
                    assert(terms[terms.len() - 1] == t);
                }
            }
            if terms.contains(t) {
                let j = terms.index_of(t);
                if j < front.len() {
                    assert(front[j] == t);
                    assert(known.contains(t));
                    let i = known.index_of(t);
                    assert(all[i] == t);
                } else if known.contains(t) {
                    let i = known.index_of(t);
                    assert(all[i] == t);
                } else {
                    assert(all[all.len() - 1] == t);
                }
            }
        }
        assert forall|t: Seq<char>| front.contains(t) implies #[trigger] terms.index_of_first(t)
            == front.index_of_first(t) by {
            lemma_first_place(front, terms, t);
        }
        assert forall|i: int, j: int| 0 <= i < j < all.len() implies terms.index_of_first(
            #[trigger] all[i],
        )->0 < terms.index_of_first(#[trigger] all[j])->0 by {
            assert(known.contains(known[i]));
            if j < known.len() {
                assert(known.contains(known[j]));
            } else {
                front.index_of_first_ensures(known[i]);
                terms.index_of_first_ensures(all[j]);
                let place = terms.index_of_first(all[j])->0;
                if place < front.len() {
                    assert(front[place] == all[j]);
                    assert(known.contains(all[j]));
                }
            }
        }
    }
}

proof fn lemma_first_place(front: Seq<Seq<char>>, terms: Seq<Seq<char>>, t: Seq<char>)
    requires
        terms.len() > 0,
        front == terms.drop_last(),
        front.contains(t),
    ensures
        terms.index_of_first(t) == front.index_of_first(t),
{
    front.index_of_first_ensures(t);
    let i = front.index_of(t);
    assert(terms[i] == t);
    terms.index_of_first_ensures(t);
    let a = front.index_of_first(t)->0;
    let b = terms.index_of_first(t)->0;
    assert(terms[a] == t);
    if a < b {
        assert(terms[a] != t);
    }
    if b < a {
        assert(front[b] == t);
    }
}

/// How often a term occurs among some terms.
pub open spec fn count_of(terms: Seq<Seq<char>>, term: Seq<char>) -> nat
    decreases terms.len(),
{
    if terms.len() == 0 {
        0
    } else {
        count_of(terms.drop_last(), term) + (if terms.last() == term {
            1nat
        } else {
            0nat
        })
    }
}

/// The documents that hold a term, each with how often it does, in the order of
/// the documents.
pub open spec fn postings_of(lists: Seq<Seq<Seq<char>>>, term: Seq<char>) -> Seq<(nat, nat)>
    decreases lists.len(),
{
    if lists.len() == 0 {
        Seq::empty()
    } else {
        let before = postings_of(lists.drop_last(), term);
        let n = count_of(lists.last(), term);
        if n == 0 {
            before
        } else {
            before.push(((lists.len() - 1) as nat, n))
        }
    }
}

/// The terms of each of some documents.
pub open spec fn doc_terms(docs: Seq<DocView>) -> Seq<Seq<Seq<char>>> {
    Seq::new(docs.len(), |i: int| index_terms(docs[i].text, docs[i].tags))
}

/// The length of a document: its number of terms, but at least one.
pub open spec fn doc_length(doc: DocView) -> nat {
    let n = index_terms(doc.text, doc.tags).len();
    if n == 0 {
        1
    } else {
        n
    }
}

/// An inverted index over the terms of documents.
struct TermIndex {
    slots: StringHashMap<usize>,
    postings: Vec<Vec<(usize, usize)>>,
}

/// Postings by what they hold.
pub open spec fn posting_views(postings: Seq<(usize, usize)>) -> Seq<(nat, nat)> {
    Seq::new(postings.len(), |i: int| (postings[i].0 as nat, postings[i].1 as nat))
}

impl TermIndex {
    spec fn entry(&self, term: Seq<char>) -> Seq<(nat, nat)> {
        if self.slots@.contains_key(term) {
            posting_views(self.postings@[self.slots@[term] as int]@)
        } else {
            Seq::empty()
        }
    }

    spec fn slots_fit(&self) -> bool {
        &&& forall|t: Seq<char>| #[trigger]
            self.slots@.contains_key(t) ==> self.slots@[t] < self.postings@.len()
        &&& forall|t: Seq<char>, u: Seq<char>| #[trigger]
            self.slots@.contains_key(t) && #[trigger] self.slots@.contains_key(u) && t != u
                ==> self.slots@[t] != self.slots@[u]
    }

    spec fn holds(&self, lists: Seq<Seq<Seq<char>>>) -> bool {
        &&& self.slots_fit()
        &&& forall|t: Seq<char>| #[trigger] self.entry(t) == postings_of(lists, t)
    }

    fn new() -> (r: TermIndex)
        ensures
            r.holds(Seq::empty()),
    {
        let r = TermIndex { slots: StringHashMap::new(), postings: Vec::new() };
        proof {
            assert forall|t: Seq<char>| #[trigger] r.entry(t) == postings_of(Seq::empty(), t) by {
                assert(r.entry(t) =~= Seq::empty());
            }
        }
        r
    }

    /// Counts one more occurrence of a term in the document `doc`, which is the
    /// last.
    fn count(&mut self, doc: usize, term: &str)
        requires
            old(self).slots_fit(),
            old(self).entry(term@).len() > 0 && old(self).entry(term@).last().0 == doc ==> old(
                self,
            ).entry(term@).last().1 < usize::MAX,
        ensures
            final(self).slots_fit(),
            forall|t: Seq<char>|
                t != term@ ==> #[trigger] final(self).entry(t) == old(self).entry(t),
            ({
                let before = old(self).entry(term@);
                final(self).entry(term@) == if before.len() > 0 && before.last().0 == doc {
                    before.drop_last().push((doc as nat, before.last().1 + 1))
                } else {
                    before.push((doc as nat, 1))
                }
            }),
    {
        let ghost start = *self;
        let slot: Option<usize> = match self.slots.get(term) {
            Some(s) => Some(*s),
            None => None,
        };
        match slot {
            None => {
                let fresh: usize = self.postings.len();
                let list: Vec<(usize, usize)> = vec![(doc, 1)];
                self.postings.push(list);
                self.slots.insert(String::from_str(term), fresh);
                proof {
                    assert(posting_views(list@) =~= Seq::<(nat, nat)>::empty().push(
                        (doc as nat, 1),
                    ));
                    assert forall|t: Seq<char>| t != term@ implies #[trigger] self.entry(t)
                        == start.entry(t) by {
                        if start.slots@.contains_key(t) {
                            assert(self.slots@[t] == start.slots@[t]);
                        }
                    }
                }
            },
            Some(s) => {
                let ghost list = self.postings@[s as int]@;
                let n: usize = self.postings[s].len();
                proof {
                    assert(start.entry(term@) == posting_views(list));
                }
                if n > 0 && self.postings[s][n - 1].0 == doc {
                    let more: usize = self.postings[s][n - 1].1 + 1;
                    self.postings[s].set(n - 1, (doc, more));
                    proof {
                        assert(posting_views(self.postings@[s as int]@) =~= posting_views(
                            list,
                        ).drop_last().push((doc as nat, more as nat)));
                    }
                } else {
                    self.postings[s].push((doc, 1));
                    proof {
                        assert(posting_views(self.postings@[s as int]@) =~= posting_views(
                            list,
                        ).push((doc as nat, 1)));
                    }
                }
                proof {
                    assert forall|t: Seq<char>| t != term@ implies #[trigger] self.entry(t)
                        == start.entry(t) by {
                        if start.slots@.contains_key(t) {
                            assert(start.slots@.contains_key(term@));
                            assert(self.slots@[t] != s);
                        }
                    }
                }
            },
        }
    }
}

proof fn lemma_count_bound(terms: Seq<Seq<char>>, term: Seq<char>)
    ensures
        count_of(terms, term) <= terms.len(),
    decreases terms.len(),
{
    if terms.len() > 0 {
        lemma_count_bound(terms.drop_last(), term);
    }
}

proof fn lemma_postings_bound(lists: Seq<Seq<Seq<char>>>, term: Seq<char>)
    ensures
        forall|k: int|
            0 <= k < postings_of(lists, term).len() ==> (#[trigger] postings_of(lists, term)[k]).0
                < lists.len(),
    decreases lists.len(),
{
    if lists.len() > 0 {
        lemma_postings_bound(lists.drop_last(), term);
        let before = postings_of(lists.drop_last(), term);
        assert forall|k: int| 0 <= k < postings_of(lists, term).len() implies (
        #[trigger] postings_of(lists, term)[k]).0 < lists.len() by {
            if k < before.len() {
                assert(postings_of(lists, term)[k] == before[k]);
            }
        }
    }
}

/// A local index over the documents of a session.
pub struct MemoryStore {
    docs: Vec<Doc>,
    index: TermIndex,
    doc_len: Vec<usize>,
}

/// A document that a query term touches.
#[derive(Debug, Copy, Clone)]
pub struct Hit {
    /// The position of the document.
    pub doc: usize,
    /// How often the term occurs in it.
    pub tf: usize,
    /// How many terms it has.
    pub doc_len: usize,
}

/// The documents that one query term touches.
#[derive(Debug)]
pub struct TermHits {
    /// How many documents hold the term.
    pub df: usize,
    /// Those of them that the search is after.
    pub hits: Vec<Hit>,
}

/// What the hits of a term hold: the number of documents, and for each hit its
/// document, its count and its document's length.
pub struct HitsView {
    pub df: nat,
    pub hits: Seq<(nat, nat, nat)>,
}

/// Whether a document is what a search is after: it has the kind that is asked
/// for, and it is not a message at or after the cutoff.
pub open spec fn passes(doc: DocView, kind: Option<DocKind>, cutoff: Option<usize>) -> bool {
    &&& kind is Some ==> doc.kind == kind->0
    &&& !(cutoff is Some && doc.kind == DocKind::Message && doc.msg_index is Some
        && doc.msg_index->0 >= cutoff->0)
}

/// The postings that a search is after.
pub open spec fn hits_of(
    docs: Seq<DocView>,
    postings: Seq<(nat, nat)>,
    kind: Option<DocKind>,
    cutoff: Option<usize>,
) -> Seq<(nat, nat, nat)>
    decreases postings.len(),
{
    if postings.len() == 0 {
        Seq::empty()
    } else {
        let before = hits_of(docs, postings.drop_last(), kind, cutoff);
        let (i, tf) = postings.last();
        if passes(docs[i as int], kind, cutoff) {
            before.push((i, tf, doc_length(docs[i as int])))
        } else {
            before
        }
    }
}

/// For each query term that occurs at all, what it touches.
pub open spec fn plan_of(
    docs: Seq<DocView>,
    terms: Seq<Seq<char>>,
    kind: Option<DocKind>,
    cutoff: Option<usize>,
) -> Seq<HitsView>
    decreases terms.len(),
{
    if terms.len() == 0 {
        Seq::empty()
    } else {
        let before = plan_of(docs, terms.drop_last(), kind, cutoff);
        let postings = postings_of(doc_terms(docs), terms.last());
        if postings.len() == 0 {
            before
        } else {
            before.push(
                HitsView { df: postings.len(), hits: hits_of(docs, postings, kind, cutoff) },
            )
        }
    }
}

proof fn lemma_count_of(terms: Seq<Seq<char>>, term: Seq<char>)
    ensures
        count_of(terms, term) > 0 <==> terms.contains(term),
    decreases terms.len(),
{
    if terms.len() > 0 {
        let front = terms.drop_last();
        lemma_count_of(front, term);
        if front.contains(term) {
            let i = choose|i: int| 0 <= i < front.len() && front[i] == term;
            assert(terms[i] == term);
        }
        if terms.contains(term) && terms.last() != term {
            let i = choose|i: int| 0 <= i < terms.len() && terms[i] == term;
            assert(front[i] == term);
        }
        if terms.last() == term {
            assert(terms[terms.len() - 1] == term);
        }
    }
}

proof fn lemma_postings(lists: Seq<Seq<Seq<char>>>, term: Seq<char>, i: nat, n: nat)
    ensures
        postings_of(lists, term).contains((i, n)) <==> i < lists.len() && n == count_of(
            lists[i as int],
            term,
        ) && n > 0,
    decreases lists.len(),
{
    if lists.len() > 0 {
        let front = lists.drop_last();
        lemma_postings(front, term, i, n);
        let before = postings_of(front, term);
        let all = postings_of(lists, term);
        let last = ((lists.len() - 1) as nat, count_of(lists.last(), term));
        if last.1 > 0 {
            assert(all[all.len() - 1] == last);
            if before.contains((i, n)) {
                let k = choose|k: int| 0 <= k < before.len() && before[k] == (i, n);
                assert(all[k] == (i, n));
            }
            if all.contains((i, n)) && (i, n) != last {
                let k = choose|k: int| 0 <= k < all.len() && all[k] == (i, n);
                assert(before[k] == (i, n));
            }
        }
        if i < front.len() {
            assert(front[i as int] == lists[i as int]);
        }
    }
}

proof fn lemma_hits(
    docs: Seq<DocView>,
    postings: Seq<(nat, nat)>,
    kind: Option<DocKind>,
    cutoff: Option<usize>,
    hit: (nat, nat, nat),
)
    ensures
        hits_of(docs, postings, kind, cutoff).contains(hit) <==> postings.contains((hit.0, hit.1))
            && passes(docs[hit.0 as int], kind, cutoff) && hit.2 == doc_length(docs[hit.0 as int]),
    decreases postings.len(),
{
    if postings.len() > 0 {
        let front = postings.drop_last();
        lemma_hits(docs, front, kind, cutoff, hit);
        let before = hits_of(docs, front, kind, cutoff);
        let all = hits_of(docs, postings, kind, cutoff);
        let (i, tf) = postings.last();
        let last = (i, tf, doc_length(docs[i as int]));
        if passes(docs[i as int], kind, cutoff) {
            assert(all[all.len() - 1] == last);
            if before.contains(hit) {
                let k = choose|k: int| 0 <= k < before.len() && before[k] == hit;
                assert(all[k] == hit);
            }
            if all.contains(hit) && hit != last {
                let k = choose|k: int| 0 <= k < all.len() && all[k] == hit;
                assert(before[k] == hit);
            }
        }
        if front.contains((hit.0, hit.1)) {
            let k = choose|k: int| 0 <= k < front.len() && front[k] == (hit.0, hit.1);
            assert(postings[k] == (hit.0, hit.1));
        }
        if postings.contains((hit.0, hit.1)) && (hit.0, hit.1) != postings.last() {
            let k = choose|k: int| 0 <= k < postings.len() && postings[k] == (hit.0, hit.1);
            assert(front[k] == (hit.0, hit.1));
        }
        assert(postings[postings.len() - 1] == postings.last());
    }
}

/// A term touches exactly the documents that hold it and that the search is
/// after: what was added under a term is found under it, and nothing else is. In
/// particular no message at or after the cutoff is ever recalled.
pub proof fn law_term_touches_what_holds_it(
    docs: Seq<DocView>,
    term: Seq<char>,
    kind: Option<DocKind>,
    cutoff: Option<usize>,
    i: nat,
)
    ensures
        ({
            let hits = hits_of(docs, postings_of(doc_terms(docs), term), kind, cutoff);
            let found = exists|tf: nat, len: nat| #[trigger] hits.contains((i, tf, len));
            found <==> {
                &&& i < docs.len()
                &&& index_terms(docs[i as int].text, docs[i as int].tags).contains(term)
                &&& passes(docs[i as int], kind, cutoff)
            }
        }),
{
    let lists = doc_terms(docs);
    let postings = postings_of(lists, term);
    let hits = hits_of(docs, postings, kind, cutoff);
    if exists|tf: nat, len: nat| #[trigger] hits.contains((i, tf, len)) {
        let (tf, len) = choose|tf: nat, len: nat| #[trigger] hits.contains((i, tf, len));
        lemma_hits(docs, postings, kind, cutoff, (i, tf, len));
        lemma_postings(lists, term, i, tf);
        lemma_count_of(lists[i as int], term);
    }
    if i < docs.len() {
        let terms = index_terms(docs[i as int].text, docs[i as int].tags);
        assert(lists[i as int] == terms);
        if terms.contains(term) && passes(docs[i as int], kind, cutoff) {
            let n = count_of(terms, term);
            lemma_count_of(terms, term);
            lemma_postings(lists, term, i, n);
            lemma_hits(docs, postings, kind, cutoff, (i, n, doc_length(docs[i as int])));
        }
    }
}

proof fn lemma_multiset_count(terms: Seq<Seq<char>>, term: Seq<char>)
    ensures
        terms.to_multiset().count(term) == count_of(terms, term),
    decreases terms.len(),
{
    broadcast use vstd::seq_lib::group_to_multiset_ensures;

    if terms.len() > 0 {
        lemma_multiset_count(terms.drop_last(), term);
        assert(terms =~= terms.drop_last().push(terms.last()));
    }
}

#[verifier::spinoff_prover]
#[verifier::rlimit(40)]
proof fn lemma_plan(
    docs: Seq<DocView>,
    terms: Seq<Seq<char>>,
    kind: Option<DocKind>,
    cutoff: Option<usize>,
)
    ensures
        forall|t: int|
            0 <= t < plan_of(docs, terms, kind, cutoff).len() ==> exists|q: int|
                0 <= q < terms.len() && (#[trigger] plan_of(docs, terms, kind, cutoff)[t]).hits
                    == hits_of(docs, postings_of(doc_terms(docs), #[trigger] terms[q]), kind, cutoff)
                    && plan_of(docs, terms, kind, cutoff)[t].df == postings_of(
                    doc_terms(docs),
                    terms[q],
                ).len(),
        forall|q: int|
            0 <= q < terms.len() && postings_of(doc_terms(docs), #[trigger] terms[q]).len() > 0
                ==> exists|t: int|
                0 <= t < plan_of(docs, terms, kind, cutoff).len() && (#[trigger] plan_of(
                    docs,
                    terms,
                    kind,
                    cutoff,
                )[t]).hits == hits_of(
                    docs,
                    postings_of(doc_terms(docs), terms[q]),
                    kind,
                    cutoff,
                ),
    decreases terms.len(),
{
    if terms.len() > 0 {
        let front = terms.drop_last();
        lemma_plan(docs, front, kind, cutoff);
        let before = plan_of(docs, front, kind, cutoff);
        let all = plan_of(docs, terms, kind, cutoff);
        let lists = doc_terms(docs);
        assert forall|t: int| 0 <= t < all.len() implies exists|q: int|
            0 <= q < terms.len() && (#[trigger] all[t]).hits == hits_of(
                docs,
                postings_of(lists, #[trigger] terms[q]),
                kind,
                cutoff,
            ) && all[t].df == postings_of(lists, terms[q]).len() by {
            if t < before.len() {
                assert(all[t] == before[t]);
                let q = choose|q: int|
                    0 <= q < front.len() && before[t].hits == hits_of(
                        docs,
                        postings_of(lists, #[trigger] front[q]),
                        kind,
                        cutoff,
                    ) && before[t].df == postings_of(lists, front[q]).len();
                assert(terms[q] == front[q]);
            } else {
                assert(terms[terms.len() - 1] == terms.last());
            }
        }
        assert forall|q: int|
            0 <= q < terms.len() && postings_of(lists, #[trigger] terms[q]).len()
                > 0 implies exists|t: int|
            0 <= t < all.len() && (#[trigger] all[t]).hits == hits_of(
                docs,
                postings_of(lists, terms[q]),
                kind,
                cutoff,
            ) by {
            if q < front.len() {
                assert(front[q] == terms[q]);
                let t = choose|t: int|
                    0 <= t < before.len() && (#[trigger] before[t]).hits == hits_of(
                        docs,
                        postings_of(lists, front[q]),
                        kind,
                        cutoff,
                    );
                assert(all[t] == before[t]);
            } else {
                assert(all[all.len() - 1].hits == hits_of(
                    docs,
                    postings_of(lists, terms[q]),
                    kind,
                    cutoff,
                ));
            }
        }
    }
}

/// A search names nothing but what it asks for. A document that it names exists
/// and has the kind that is asked for, whichever that is; where it is a message,
/// it stands before the cutoff. It holds one of the terms, as often as is said,
/// and the number of documents that hold the term is counted over all kinds.
#[verifier::spinoff_prover]
#[verifier::rlimit(40)]
pub proof fn law_hits_are_what_is_asked_for(
    docs: Seq<DocView>,
    terms: Seq<Seq<char>>,
    kind: Option<DocKind>,
    cutoff: Option<usize>,
    t: int,
    h: int,
)
    requires
        0 <= t < plan_of(docs, terms, kind, cutoff).len(),
        0 <= h < plan_of(docs, terms, kind, cutoff)[t].hits.len(),
    ensures
        ({
            let found = plan_of(docs, terms, kind, cutoff)[t];
            let (doc, tf, len) = found.hits[h];
            let holds = index_terms(docs[doc as int].text, docs[doc as int].tags);
            &&& doc < docs.len()
            &&& kind == Some(DocKind::Memory) ==> docs[doc as int].kind == DocKind::Memory
            &&& kind == Some(DocKind::Message) ==> docs[doc as int].kind == DocKind::Message
            &&& forall|c: usize, m: usize|
                cutoff == Some(c) && docs[doc as int].kind == DocKind::Message
                    && docs[doc as int].msg_index == Some(m) ==> m < c
            &&& len == if holds.len() == 0 {
                1
            } else {
                holds.len()
            }
            &&& exists|q: int|
                0 <= q < terms.len() && holds.contains(#[trigger] terms[q]) && tf
                    == holds.to_multiset().count(terms[q]) && found.df == docs.filter(
                    |d: DocView| index_terms(d.text, d.tags).contains(terms[q]),
                ).len()
        }),
{
    lemma_plan(docs, terms, kind, cutoff);
    let plan = plan_of(docs, terms, kind, cutoff);
    let lists = doc_terms(docs);
    let hit = plan[t].hits[h];
    let q = choose|q: int|
        0 <= q < terms.len() && plan[t].hits == hits_of(
            docs,
            postings_of(lists, #[trigger] terms[q]),
            kind,
            cutoff,
        ) && plan[t].df == postings_of(lists, terms[q]).len();
    let postings = postings_of(lists, terms[q]);
    assert(hits_of(docs, postings, kind, cutoff).contains(hit));
    lemma_hits(docs, postings, kind, cutoff, hit);
    lemma_postings(lists, terms[q], hit.0, hit.1);
    assert(passes(docs[hit.0 as int], kind, cutoff));
    let holds = index_terms(docs[hit.0 as int].text, docs[hit.0 as int].tags);
    assert(lists[hit.0 as int] == holds);
    lemma_count_of(holds, terms[q]);
    lemma_multiset_count(holds, terms[q]);
    lemma_holders_count(docs, terms[q]);
}

proof fn lemma_holders_count(docs: Seq<DocView>, term: Seq<char>)
    ensures
        postings_of(doc_terms(docs), term).len() == docs.filter(
            |d: DocView| index_terms(d.text, d.tags).contains(term),
        ).len(),
    decreases docs.len(),
{
    reveal(Seq::filter);
    if docs.len() > 0 {
        let front = docs.drop_last();
        lemma_holders_count(front, term);
        assert(doc_terms(docs).drop_last() =~= doc_terms(front));
        lemma_count_of(doc_terms(docs).last(), term);
    }
}

/// What a query touches follows its terms one by one, in order: a term that no document
/// holds adds nothing, and any other adds one entry.
pub proof fn law_plan_follows_the_terms(
    docs: Seq<DocView>,
    terms: Seq<Seq<char>>,
    term: Seq<char>,
    kind: Option<DocKind>,
    cutoff: Option<usize>,
)
    ensures
        ({
            let before = plan_of(docs, terms, kind, cutoff);
            let after = plan_of(docs, terms.push(term), kind, cutoff);
            let held = exists|i: int|
                0 <= i < docs.len() && index_terms(
                    (#[trigger] docs[i]).text,
                    docs[i].tags,
                ).contains(term);
            &&& !held ==> after == before
            &&& held ==> after.len() == before.len() + 1 && after.drop_last() == before
            &&& plan_of(docs, Seq::empty(), kind, cutoff).len() == 0
        }),
{
    let before = plan_of(docs, terms, kind, cutoff);
    let after = plan_of(docs, terms.push(term), kind, cutoff);
    let lists = doc_terms(docs);
    let postings = postings_of(lists, term);
    assert(terms.push(term).drop_last() =~= terms);
    if exists|i: int|
        0 <= i < docs.len() && index_terms((#[trigger] docs[i]).text, docs[i].tags).contains(
            term,
        ) {
        let i = choose|i: int|
            0 <= i < docs.len() && index_terms((#[trigger] docs[i]).text, docs[i].tags).contains(
                term,
            );
        assert(lists[i] == index_terms(docs[i].text, docs[i].tags));
        lemma_count_of(lists[i], term);
        lemma_postings(lists, term, i as nat, count_of(lists[i], term));
        assert(postings.len() > 0);
        assert(after.drop_last() =~= before);
    } else if postings.len() > 0 {
        let (i, n) = postings[0];
        assert(postings.contains((i, n)));
        lemma_postings(lists, term, i, n);
        lemma_count_of(lists[i as int], term);
        assert(lists[i as int] == index_terms(docs[i as int].text, docs[i as int].tags));
    }
}

proof fn lemma_postings_ascend(lists: Seq<Seq<Seq<char>>>, term: Seq<char>)
    ensures
        forall|a: int, b: int|
            0 <= a < b < postings_of(lists, term).len() ==> (#[trigger] postings_of(
                lists,
                term,
            )[a]).0 < (#[trigger] postings_of(lists, term)[b]).0,
    decreases lists.len(),
{
    if lists.len() > 0 {
        let front = lists.drop_last();
        lemma_postings_ascend(front, term);
        lemma_postings_bound(front, term);
        let before = postings_of(front, term);
        let all = postings_of(lists, term);
        assert forall|a: int, b: int| 0 <= a < b < all.len() implies (#[trigger] all[a]).0 < (
        #[trigger] all[b]).0 by {
            assert(all[a] == before[a]);
            if b < before.len() {
                assert(all[b] == before[b]);
            }
        }
    }
}

#[verifier::spinoff_prover]
#[verifier::rlimit(40)]
proof fn lemma_hits_ascend(
    docs: Seq<DocView>,
    postings: Seq<(nat, nat)>,
    kind: Option<DocKind>,
    cutoff: Option<usize>,
)
    requires
        forall|a: int, b: int|
            0 <= a < b < postings.len() ==> (#[trigger] postings[a]).0 < (#[trigger] postings[b]).0,
    ensures
        forall|a: int, b: int|
            0 <= a < b < hits_of(docs, postings, kind, cutoff).len() ==> (#[trigger] hits_of(
                docs,
                postings,
                kind,
                cutoff,
            )[a]).0 < (#[trigger] hits_of(docs, postings, kind, cutoff)[b]).0,
        postings.len() > 0 ==> forall|a: int|
            0 <= a < hits_of(docs, postings, kind, cutoff).len() ==> (#[trigger] hits_of(
                docs,
                postings,
                kind,
                cutoff,
            )[a]).0 <= postings.last().0,
        postings.len() == 0 ==> hits_of(docs, postings, kind, cutoff).len() == 0,
    decreases postings.len(),
{
    if postings.len() > 0 {
        let front = postings.drop_last();
        assert forall|a: int, b: int| 0 <= a < b < front.len() implies (#[trigger] front[a]).0 < (
        #[trigger] front[b]).0 by {
            assert(postings[a].0 < postings[b].0);
        }
        lemma_hits_ascend(docs, front, kind, cutoff);
        let before = hits_of(docs, front, kind, cutoff);
        let all = hits_of(docs, postings, kind, cutoff);
        let last = postings[postings.len() - 1];
        if front.len() > 0 {
            assert(postings[front.len() - 1].0 < last.0);
        }
        assert forall|a: int| 0 <= a < before.len() implies (#[trigger] before[a]).0 < last.0 by {}
        assert forall|a: int, b: int| 0 <= a < b < all.len() implies (#[trigger] all[a]).0 < (
        #[trigger] all[b]).0 by {
            assert(all[a] == before[a]);
            if b < before.len() {
                assert(all[b] == before[b]);
            }
        }
        assert forall|a: int| 0 <= a < all.len() implies (#[trigger] all[a]).0
            <= postings.last().0 by {
            if a < before.len() {
                assert(all[a] == before[a]);
            }
        }
    }
}

/// Under each term the documents are named in order, and each of them once.
#[verifier::spinoff_prover]
#[verifier::rlimit(40)]
pub proof fn law_documents_are_named_once(
    docs: Seq<DocView>,
    terms: Seq<Seq<char>>,
    kind: Option<DocKind>,
    cutoff: Option<usize>,
    t: int,
)
    requires
        0 <= t < plan_of(docs, terms, kind, cutoff).len(),
    ensures
        forall|a: int, b: int|
            0 <= a < b < plan_of(docs, terms, kind, cutoff)[t].hits.len() ==> (#[trigger] plan_of(
                docs,
                terms,
                kind,
                cutoff,
            )[t].hits[a]).0 < (#[trigger] plan_of(docs, terms, kind, cutoff)[t].hits[b]).0,
{
    lemma_plan(docs, terms, kind, cutoff);
    let plan = plan_of(docs, terms, kind, cutoff);
    let lists = doc_terms(docs);
    let q = choose|q: int|
        0 <= q < terms.len() && plan[t].hits == hits_of(
            docs,
            postings_of(lists, #[trigger] terms[q]),
            kind,
            cutoff,
        ) && plan[t].df == postings_of(lists, terms[q]).len();
    lemma_postings_ascend(lists, terms[q]);
    lemma_hits_ascend(docs, postings_of(lists, terms[q]), kind, cutoff);
}

/// A search passes nothing over: a document that holds a term of the query is
/// named under it, if it has the kind that is asked for and is no message at or
/// after the cutoff.
#[verifier::spinoff_prover]
#[verifier::rlimit(40)]
pub proof fn law_search_passes_nothing_over(
    docs: Seq<DocView>,
    terms: Seq<Seq<char>>,
    kind: Option<DocKind>,
    cutoff: Option<usize>,
    i: int,
    q: int,
)
    requires
        0 <= i < docs.len(),
        0 <= q < terms.len(),
        index_terms(docs[i].text, docs[i].tags).contains(terms[q]),
        kind is None || kind == Some(docs[i].kind),
        cutoff is None || docs[i].kind == DocKind::Memory || docs[i].msg_index is None
            || docs[i].msg_index->0 < cutoff->0,
    ensures
        exists|t: int, h: int|
            0 <= t < plan_of(docs, terms, kind, cutoff).len() && 0 <= h < plan_of(
                docs,
                terms,
                kind,
                cutoff,
            )[t].hits.len() && (#[trigger] plan_of(docs, terms, kind, cutoff)[t].hits[h]).0 == i,
{
    lemma_plan(docs, terms, kind, cutoff);
    let plan = plan_of(docs, terms, kind, cutoff);
    let lists = doc_terms(docs);
    let holds = index_terms(docs[i].text, docs[i].tags);
    assert(lists[i] == holds);
    let postings = postings_of(lists, terms[q]);
    let n = count_of(holds, terms[q]);
    lemma_count_of(holds, terms[q]);
    lemma_postings(lists, terms[q], i as nat, n);
    let hit = (i as nat, n, doc_length(docs[i]));
    lemma_hits(docs, postings, kind, cutoff, hit);
    let hits = hits_of(docs, postings, kind, cutoff);
    let t = choose|t: int| 0 <= t < plan.len() && (#[trigger] plan[t]).hits == hits;
    let h = choose|h: int| 0 <= h < hits.len() && hits[h] == hit;
    assert(plan[t].hits[h].0 == i);
}

impl View for TermHits {
    type V = HitsView;

    open spec fn view(&self) -> HitsView {
        HitsView {
            df: self.df as nat,
            hits: Seq::new(
                self.hits@.len(),
                |i: int|
                    (
                        self.hits@[i].doc as nat,
                        self.hits@[i].tf as nat,
                        self.hits@[i].doc_len as nat,
                    ),
            ),
        }
    }
}

/// What the hits of some terms hold.
pub open spec fn plan_views(plan: Seq<TermHits>) -> Seq<HitsView> {
    Seq::new(plan.len(), |i: int| plan[i]@)
}

/// The document of a memory item.
pub open spec fn memory_doc(item: MemoryView) -> DocView {
    DocView {
        kind: DocKind::Memory,
        id: uuid_notation(item.id),
        created_at_ms: item.created_at_ms,
        role: None,
        msg_index: None,
        text: item.text,
        tags: item.tags,
    }
}

/// The document of a message.
pub open spec fn message_doc(msg_index: usize, msg: MessageView) -> DocView {
    DocView {
        kind: DocKind::Message,
        id: "msg:"@ + decimal(msg_index as nat),
        created_at_ms: 0,
        role: Some(msg.role),
        msg_index: Some(msg_index),
        text: msg.content,
        tags: Seq::empty(),
    }
}

/// What a document says of what it comes from: something remembered with its
/// identifier, its time, its text and its tags; a message with its position, its role
/// and its content.
pub proof fn law_documents_say_what_they_come_from(
    item: MemoryView,
    msg_index: usize,
    msg: MessageView,
)
    ensures
        memory_doc(item).kind == DocKind::Memory,
        memory_doc(item).id == uuid_notation(item.id),
        memory_doc(item).created_at_ms == item.created_at_ms,
        memory_doc(item).text == item.text,
        memory_doc(item).tags == item.tags,
        memory_doc(item).role is None,
        memory_doc(item).msg_index is None,
        message_doc(msg_index, msg).kind == DocKind::Message,
        message_doc(msg_index, msg).id == "msg:"@ + decimal(msg_index as nat),
        message_doc(msg_index, msg).text == msg.content,
        message_doc(msg_index, msg).role == Some(msg.role),
        message_doc(msg_index, msg).msg_index == Some(msg_index),
        message_doc(msg_index, msg).tags.len() == 0,
{
}

/// Whether an index and lengths are those of some documents.
spec fn stands(docs: Seq<Doc>, index: TermIndex, doc_len: Seq<usize>) -> bool {
    &&& index.holds(doc_terms(doc_views(docs)))
    &&& doc_len.len() == docs.len()
    &&& forall|i: int|
        0 <= i < docs.len() ==> #[trigger] doc_len[i] == doc_length(doc_views(docs)[i])
}

impl MemoryStore {
    /// The documents in the order in which they were added.
    pub closed spec fn docs(&self) -> Seq<DocView> {
        doc_views(self.docs@)
    }

    #[verifier::type_invariant]
    spec fn wf(self) -> bool {
        stands(self.docs@, self.index, self.doc_len@)
    }

    /// An empty store.
    pub fn new() -> (r: MemoryStore)
        ensures
            r.docs() == Seq::<DocView>::empty(),
    {
        let r = MemoryStore { docs: Vec::new(), index: TermIndex::new(), doc_len: Vec::new() };
        proof {
            assert(r.docs() =~= Seq::empty());
            assert(doc_terms(r.docs()) =~= Seq::empty());
        }
        r
    }

    fn add_doc(&mut self, doc: Doc)
        ensures
            final(self).docs() == old(self).docs().push(doc@),
    {
        proof {
            use_type_invariant(&*self);
        }
        let mut whole = MemoryStore::new();
        std::mem::swap(self, &mut whole);
        let MemoryStore { mut docs, mut index, mut doc_len } = whole;
        let ghost docs_before = doc_views(docs@);
        let ghost docs_old = docs@;
        let ghost lens_old = doc_len@;
        let ghost lists = doc_terms(docs_before);
        let idx: usize = docs.len();
        let terms = tokenize_for_index(doc.text.as_str(), &doc.tags);
        let ghost all = views(terms@);
        let count: usize = terms.len();
        let mut k: usize = 0;
        proof {
            assert forall|t: Seq<char>| #[trigger] index.entry(t) == postings_of(
                lists.push(all.take(0)),
                t,
            ) by {
                assert(lists.push(all.take(0)).drop_last() =~= lists);
            }
        }
        while k < count
            invariant
                k <= count,
                count == terms@.len(),
                all == views(terms@),
                lists.len() == idx,
                docs@ == docs_old,
                doc_len@ == lens_old,
                index.slots_fit(),
                forall|t: Seq<char>| #[trigger]
                    index.entry(t) == postings_of(lists.push(all.take(k as int)), t),
            decreases count - k,
        {
            let ghost before = index;
            let ghost word = all[k as int];
            let ghost now = lists.push(all.take(k as int));
            let ghost next = lists.push(all.take(k + 1));
            proof {
                assert(now.drop_last() =~= lists);
                assert(next.drop_last() =~= lists);
                lemma_postings_bound(lists, word);
                lemma_count_bound(all.take(k as int), word);
                assert(before.entry(word) == postings_of(now, word));
                let base = postings_of(lists, word);
                if base.len() > 0 {
                    assert(base[base.len() - 1].0 < lists.len());
                }
            }
            index.count(idx, terms[k].as_str());
            proof {
                assert(all.take(k + 1).drop_last() =~= all.take(k as int));
                assert(all.take(k + 1).last() == word);
                assert forall|t: Seq<char>| #[trigger] index.entry(t) == postings_of(
                    next,
                    t,
                ) by {
                    if t == word {
                        let base = postings_of(lists, word);
                        let c = count_of(all.take(k as int), word);
                        if c > 0 {
                            assert(base.push((idx as nat, c)).drop_last() =~= base);
                        } else {
                            if base.len() > 0 {
                                assert(base[base.len() - 1].0 < lists.len());
                            }
                        }
                    } else {
                        assert(before.entry(t) == postings_of(now, t));
                    }
                }
            }
            k += 1;
        }
        let length: usize = if count == 0 {
            1
        } else {
            count
        };
        doc_len.push(length);
        docs.push(doc);
        proof {
            assert(all.take(count as int) =~= all);
            assert(doc_views(docs@) =~= docs_before.push(doc@));
            assert(doc_terms(doc_views(docs@)) =~= lists.push(all));
            assert forall|i: int| 0 <= i < docs@.len() implies #[trigger] doc_len@[i]
                == doc_length(doc_views(docs@)[i]) by {
                if i < idx {
                    assert(lens_old[i] == doc_length(docs_before[i]));
                }
            }
        }
        *self = MemoryStore { docs, index, doc_len };
    }

    /// Adds a memory item.
    pub fn add_memory_item(&mut self, item: &MemoryItem)
        ensures
            final(self).docs() == old(self).docs().push(memory_doc(item@)),
    {
        let doc = Doc {
            kind: DocKind::Memory,
            id: item.id.text(),
            created_at_ms: item.created_at_ms,
            role: None,
            msg_index: None,
            text: item.text.clone(),
            tags: text::copy_texts(&item.tags),
        };
        self.add_doc(doc);
    }

    /// Adds the message at a position of the session.
    pub fn add_message(&mut self, msg_index: usize, msg: &ChatMessage)
        ensures
            final(self).docs() == old(self).docs().push(message_doc(msg_index, msg@)),
    {
        let mut id = String::from_str("msg:");
        id.append(text::decimal_text(msg_index as u64).as_str());
        let tags: Vec<String> = Vec::new();
        proof {
            assert(views(tags@) =~= Seq::empty());
        }
        let doc = Doc {
            kind: DocKind::Message,
            id,
            created_at_ms: 0,
            role: Some(msg.role.clone()),
            msg_index: Some(msg_index),
            text: msg.content.clone(),
            tags,
        };
        self.add_doc(doc);
    }
}

/// The documents of a session: its memory and, where they are indexed, its last
/// `max_messages` messages.
pub open spec fn session_docs(
    memory: Seq<MemoryView>,
    messages: Seq<MessageView>,
    index_messages: bool,
    max_messages: nat,
) -> Seq<DocView> {
    let start = if messages.len() > max_messages {
        messages.len() - max_messages
    } else {
        0
    };
    Seq::new(memory.len(), |i: int| memory_doc(memory[i])) + (if index_messages {
        Seq::new(
            (messages.len() - start) as nat,
            |j: int| message_doc((start + j) as usize, messages[start + j]),
        )
    } else {
        Seq::empty()
    })
}

impl MemoryStore {
    /// Rebuilds the index from a session.
    pub fn rebuild_from_session(
        &mut self,
        memory: &Vec<MemoryItem>,
        messages: &Vec<ChatMessage>,
        index_messages: bool,
        max_messages: usize,
    )
        ensures
            final(self).docs() == session_docs(
                memory_views(memory@),
                message_views(messages@),
                index_messages,
                max_messages as nat,
            ),
            final(self).docs().len() == memory@.len() + (if index_messages {
                vstd::math::min(messages@.len() as int, max_messages as int)
            } else {
                0
            }),
            forall|i: int|
                0 <= i < memory@.len() ==> {
                    let doc = #[trigger] final(self).docs()[i];
                    &&& doc.kind == DocKind::Memory
                    &&& doc.id == uuid_notation(memory@[i].id.bytes@)
                    &&& doc.created_at_ms == memory@[i].created_at_ms
                    &&& doc.text == memory@[i].text@
                    &&& doc.tags == views(memory@[i].tags@)
                    &&& doc.role is None && doc.msg_index is None
                },
            forall|i: int|
                memory@.len() <= i < final(self).docs().len() ==> {
                    let doc = #[trigger] final(self).docs()[i];
                    let at = messages@.len() - (final(self).docs().len() - i);
                    &&& 0 <= at < messages@.len()
                    &&& doc.kind == DocKind::Message
                    &&& doc.id == "msg:"@ + decimal(at as nat)
                    &&& doc.msg_index == Some(at as usize)
                    &&& doc.role == Some(messages@[at].role@)
                    &&& doc.text == messages@[at].content@
                    &&& doc.tags.len() == 0
                },
    {
        let mut store = MemoryStore::new();
        let ghost items = memory_views(memory@);
        let ghost head = Seq::new(items.len(), |i: int| memory_doc(items[i]));
        let mut i: usize = 0;
        proof {
            assert(store.docs() =~= head.take(0));
        }
        while i < memory.len()
            invariant
                i <= memory@.len(),
                items == memory_views(memory@),
                head == Seq::new(items.len(), |i: int| memory_doc(items[i])),
                store.docs() == head.take(i as int),
            decreases memory@.len() - i,
        {
            store.add_memory_item(&memory[i]);
            proof {
                assert(store.docs() =~= head.take(i + 1));
            }
            i += 1;
        }
        proof {
            assert(head.take(head.len() as int) =~= head);
        }
        if index_messages {
            let count: usize = messages.len();
            let start: usize = if count > max_messages {
                count - max_messages
            } else {
                0
            };
            let ghost msgs = message_views(messages@);
            let ghost tail = Seq::new(
                (msgs.len() - start) as nat,
                |j: int| message_doc((start + j) as usize, msgs[start + j]),
            );
            let mut j: usize = start;
            proof {
                assert(store.docs() =~= head + tail.take(0));
            }
            while j < count
                invariant
                    start <= j <= count,
                    count == messages@.len(),
                    msgs == message_views(messages@),
                    tail == Seq::new(
                        (msgs.len() - start) as nat,
                        |j: int| message_doc((start + j) as usize, msgs[start + j]),
                    ),
                    store.docs() == head + tail.take(j - start),
                decreases count - j,
            {
                store.add_message(j, &messages[j]);
                proof {
                    assert(tail[j - start] == message_doc(j, msgs[j as int]));
                    assert(store.docs() =~= head + tail.take(j + 1 - start));
                }
                j += 1;
            }
            proof {
                assert(tail.take(tail.len() as int) =~= tail);
            }
        } else {
            proof {
                assert(head + Seq::<DocView>::empty() =~= head);
            }
        }
        *self = store;
    }

    /// How many documents there are.
    pub fn doc_count(&self) -> (r: usize)
        ensures
            r == self.docs().len(),
    {
        self.docs.len()
    }

    /// The length of the document at a position.
    pub fn doc_length_at(&self, i: usize) -> (r: usize)
        requires
            i < self.docs().len(),
        ensures
            r == doc_length(self.docs()[i as int]),
    {
        proof {
            use_type_invariant(self);
        }
        self.doc_len[i]
    }

    fn term_hits(
        &self,
        postings: &Vec<(usize, usize)>,
        kind_filter: Option<DocKind>,
        exclude_messages_from_index: Option<usize>,
    ) -> (r: TermHits)
        requires
            forall|k: int| 0 <= k < postings@.len() ==> (#[trigger] postings@[k]).0 < self.docs().len(),
        ensures
            r@ == (HitsView {
                df: postings@.len(),
                hits: hits_of(
                    self.docs(),
                    posting_views(postings@),
                    kind_filter,
                    exclude_messages_from_index,
                ),
            }),
    {
        proof {
            use_type_invariant(self);
        }
        let ghost all = posting_views(postings@);
        let mut out = TermHits { df: postings.len(), hits: Vec::new() };
        let mut k: usize = 0;
        proof {
            assert(out@.hits =~= hits_of(
                self.docs(),
                all.take(0),
                kind_filter,
                exclude_messages_from_index,
            ));
        }
        while k < postings.len()
            invariant
                k <= postings@.len(),
                self.wf(),
                all == posting_views(postings@),
                forall|k: int|
                    0 <= k < postings@.len() ==> (#[trigger] postings@[k]).0 < self.docs().len(),
                out.df == postings@.len(),
                out@.hits == hits_of(
                    self.docs(),
                    all.take(k as int),
                    kind_filter,
                    exclude_messages_from_index,
                ),
            decreases postings@.len() - k,
        {
            let (i, tf) = postings[k];
            let ghost before = out@.hits;
            proof {
                assert(all.take(k + 1).drop_last() =~= all.take(k as int));
                assert(all.take(k + 1).last() == (i as nat, tf as nat));
                assert(self.docs()[i as int] == self.docs@[i as int]@);
            }
            let doc = &self.docs[i];
            let wanted: bool = match kind_filter {
                Some(kind) => doc.kind == kind,
                None => true,
            };
            let too_recent: bool = match exclude_messages_from_index {
                Some(cutoff) => doc.kind == DocKind::Message && match doc.msg_index {
                    Some(mi) => mi >= cutoff,
                    None => false,
                },
                None => false,
            };
            if wanted && !too_recent {
                out.hits.push(Hit { doc: i, tf, doc_len: self.doc_len[i] });
                proof {
                    assert(out@.hits =~= before.push(
                        (i as nat, tf as nat, doc_length(self.docs()[i as int])),
                    ));
                }
            }
            k += 1;
        }
        proof {
            assert(all.take(all.len() as int) =~= all);
        }
        out
    }

    /// What a query touches: for each of its terms that occurs at all, the
    /// documents that the search is after. Nothing is touched where `limit` is
    /// zero.
    pub fn search(
        &self,
        query: &str,
        limit: usize,
        kind_filter: Option<DocKind>,
        exclude_messages_from_index: Option<usize>,
    ) -> (r: Vec<TermHits>)
        ensures
            plan_views(r@) == if limit == 0 {
                Seq::empty()
            } else {
                plan_of(
                    self.docs(),
                    firsts(tokens(query@)),
                    kind_filter,
                    exclude_messages_from_index,
                )
            },
            forall|t: int, h: int|
                0 <= t < r@.len() && 0 <= h < r@[t].hits@.len() ==> {
                    let i = (#[trigger] r@[t].hits@[h]).doc as int;
                    &&& i < self.docs().len()
                    &&& kind_filter is Some ==> self.docs()[i].kind == kind_filter->0
                    &&& exclude_messages_from_index is Some && self.docs()[i].kind
                        == DocKind::Message && self.docs()[i].msg_index is Some
                        ==> self.docs()[i].msg_index->0 < exclude_messages_from_index->0
                },
    {
        proof {
            use_type_invariant(self);
        }
        let mut out: Vec<TermHits> = Vec::new();
        proof {
            assert(plan_views(out@) =~= Seq::empty());
        }
        if limit == 0 {
            return out;
        }
        let terms = tokenize_query(query);
        let ghost all = views(terms@);
        let mut i: usize = 0;
        proof {
            assert(plan_views(out@) =~= plan_of(
                self.docs(),
                all.take(0),
                kind_filter,
                exclude_messages_from_index,
            ));
        }
        while i < terms.len()
            invariant
                i <= terms@.len(),
                self.wf(),
                all == views(terms@),
                plan_views(out@) == plan_of(
                    self.docs(),
                    all.take(i as int),
                    kind_filter,
                    exclude_messages_from_index,
                ),
            decreases terms@.len() - i,
        {
            let ghost term = all[i as int];
            let ghost before = plan_views(out@);
            proof {
                assert(all.take(i + 1).drop_last() =~= all.take(i as int));
                assert(all.take(i + 1).last() == term);
                assert(self.index.entry(term) == postings_of(doc_terms(self.docs()), term));
                lemma_postings_bound(doc_terms(self.docs()), term);
            }
            if let Some(slot) = self.index.slots.get(terms[i].as_str()) {
                let postings = &self.index.postings[*slot];
                if postings.len() > 0 {
                    proof {
                        assert forall|k: int| 0 <= k < postings@.len() implies (
                        #[trigger] postings@[k]).0 < self.docs().len() by {
                            assert(postings_of(doc_terms(self.docs()), term)[k]
                                == posting_views(postings@)[k]);
                        }
                    }
                    let hits = self.term_hits(postings, kind_filter, exclude_messages_from_index);
                    out.push(hits);
                    proof {
                        assert(plan_views(out@) =~= before.push(hits@));
                    }
                }
            }
            i += 1;
        }
        proof {
            assert(all.take(all.len() as int) =~= all);
            assert forall|t: int, h: int|
                0 <= t < out@.len() && 0 <= h < out@[t].hits@.len() implies {
                let i = (#[trigger] out@[t].hits@[h]).doc as int;
                &&& i < self.docs().len()
                &&& kind_filter is Some ==> self.docs()[i].kind == kind_filter->0
                &&& exclude_messages_from_index is Some && self.docs()[i].kind == DocKind::Message
                    && self.docs()[i].msg_index is Some ==> self.docs()[i].msg_index->0
                    < exclude_messages_from_index->0
            } by {
                let plan = plan_views(out@);
                assert(plan[t].hits[h].0 == out@[t].hits@[h].doc);
                law_hits_are_what_is_asked_for(
                    self.docs(),
                    all,
                    kind_filter,
                    exclude_messages_from_index,
                    t,
                    h,
                );
            }
        }
        out
    }
}

impl Default for MemoryStore {
    fn default() -> (r: Self)
        ensures
            r.docs() == Seq::<DocView>::empty(),
    {
        MemoryStore::new()
    }
}

proof fn lemma_same_len(a: Seq<(usize, u32)>, b: Seq<(usize, u32)>)
    requires
        a.to_multiset() == b.to_multiset(),
    ensures
        a.len() == b.len(),
{
    broadcast use vstd::seq_lib::group_to_multiset_ensures;

    assert(a.to_multiset().len() == a.len());
    assert(b.to_multiset().len() == b.len());
}

/// How many leading entries have a score of at least `key`.
pub open spec fn ahead_count(scores: Seq<(usize, u32)>, key: u32) -> nat
    decreases scores.len(),
{
    if scores.len() > 0 && scores[0].1 >= key {
        1 + ahead_count(scores.skip(1), key)
    } else {
        0
    }
}

/// Scored documents with the best in front, and equal ones in the order in
/// which they were given.
pub open spec fn best_first(scores: Seq<(usize, u32)>) -> Seq<(usize, u32)>
    decreases scores.len(),
{
    if scores.len() == 0 {
        Seq::empty()
    } else {
        let before = best_first(scores.drop_last());
        before.insert(ahead_count(before, scores.last().1) as int, scores.last())
    }
}

/// The first `n` of a sequence, or all of it.
pub open spec fn at_most<T>(s: Seq<T>, n: nat) -> Seq<T> {
    if s.len() <= n {
        s
    } else {
        s.take(n as int)
    }
}

proof fn lemma_ahead_count(scores: Seq<(usize, u32)>, key: u32)
    ensures
        ahead_count(scores, key) <= scores.len(),
        forall|i: int| 0 <= i < ahead_count(scores, key) ==> (#[trigger] scores[i]).1 >= key,
        ahead_count(scores, key) < scores.len() ==> scores[ahead_count(scores, key) as int].1 < key,
    decreases scores.len(),
{
    if scores.len() > 0 && scores[0].1 >= key {
        let rest = scores.skip(1);
        lemma_ahead_count(rest, key);
        assert forall|i: int| 0 <= i < ahead_count(scores, key) implies (#[trigger] scores[i]).1
            >= key by {
            if i > 0 {
                assert(rest[i - 1] == scores[i]);
            }
        }
    }
}

/// Ranking puts no document before a better one and neither adds nor drops any.
pub proof fn law_ranking_sorts(scores: Seq<(usize, u32)>)
    ensures
        best_first(scores).to_multiset() == scores.to_multiset(),
        forall|i: int, j: int|
            0 <= i < j < best_first(scores).len() ==> (#[trigger] best_first(scores)[i]).1 >= (
            #[trigger] best_first(scores)[j]).1,
    decreases scores.len(),
{
    broadcast use vstd::seq_lib::group_to_multiset_ensures;

    if scores.len() > 0 {
        let front = scores.drop_last();
        let last = scores.last();
        law_ranking_sorts(front);
        let before = best_first(front);
        lemma_ahead_count(before, last.1);
        let p = ahead_count(before, last.1) as int;
        let after = best_first(scores);
        assert(after == before.insert(p, last));
        assert(scores =~= front.push(last));
        assert forall|i: int, j: int| 0 <= i < j < after.len() implies (#[trigger] after[i]).1 >= (
        #[trigger] after[j]).1 by {
            let a = if i < p { i } else { i - 1 };
            let b = if j < p { j } else { j - 1 };
            if i != p {
                assert(after[i] == before[a]);
            }
            if j != p {
                assert(after[j] == before[b]);
            }
            if i == p && p < before.len() {
                assert(before[p].1 < last.1);
                if b > p {
                    assert(before[p].1 >= before[b].1);
                }
            }
        }
    } else {
        assert(best_first(scores) =~= scores);
    }
}

/// Equally good documents keep the order in which they were given.
#[verifier::spinoff_prover]
#[verifier::rlimit(40)]
pub proof fn law_ranking_is_stable(scores: Seq<(usize, u32)>, key: u32)
    ensures
        best_first(scores).filter(|e: (usize, u32)| e.1 == key) == scores.filter(
            |e: (usize, u32)| e.1 == key,
        ),
    decreases scores.len(),
{
    reveal(Seq::filter);
    if scores.len() > 0 {
        let front = scores.drop_last();
        let last = scores.last();
        let same = |e: (usize, u32)| e.1 == key;
        law_ranking_is_stable(front, key);
        law_ranking_sorts(front);
        let before = best_first(front);
        lemma_ahead_count(before, last.1);
        let p = ahead_count(before, last.1) as int;
        let head = before.take(p);
        let tail = before.skip(p);
        assert(before =~= head + tail);
        assert(before.insert(p, last) =~= head.push(last) + tail);
        Seq::filter_distributes_over_add(head, tail, same);
        Seq::filter_distributes_over_add(head.push(last), tail, same);
        assert(head.push(last).drop_last() =~= head);
        if last.1 == key {
            assert forall|i: int| 0 <= i < tail.len() implies !same(#[trigger] tail[i]) by {
                assert(tail[i] == before[p + i]);
                if i > 0 {
                    assert(before[p].1 >= before[p + i].1);
                }
            }
            tail.lemma_all_neg_filter_empty(same);
            assert(tail.filter(same) =~= Seq::empty());
            assert(best_first(scores).filter(same) =~= before.filter(same).push(last));
        } else {
            assert(best_first(scores).filter(same) =~= before.filter(same));
        }
    } else {
        assert(best_first(scores) =~= scores);
    }
}

/// Orders scored documents, the best first, and keeps at most `limit` of them.
pub fn rank(scores: &Vec<(usize, u32)>, limit: usize) -> (r: Vec<(usize, u32)>)
    ensures
        r@ == at_most(best_first(scores@), limit as nat),
        r@.len() == vstd::math::min(scores@.len() as int, limit as int),
        r@ == best_first(scores@).take(r@.len() as int),
{
    proof {
        law_ranking_sorts(scores@);
        lemma_same_len(best_first(scores@), scores@);
    }
    let mut out: Vec<(usize, u32)> = Vec::new();
    let mut i: usize = 0;
    proof {
        assert(out@ =~= best_first(scores@.take(0)));
    }
    while i < scores.len()
        invariant
            i <= scores@.len(),
            out@ == best_first(scores@.take(i as int)),
        decreases scores@.len() - i,
    {
        let key: u32 = scores[i].1;
        let mut p: usize = 0;
        proof {
            assert(out@.skip(0) =~= out@);
        }
        while p < out.len() && out[p].1 >= key
            invariant
                p <= out@.len(),
                ahead_count(out@, key) == p + ahead_count(out@.skip(p as int), key),
            decreases out@.len() - p,
        {
            proof {
                assert(out@.skip(p as int)[0] == out@[p as int]);
                assert(out@.skip(p as int).skip(1) =~= out@.skip(p + 1));
            }
            p += 1;
        }
        proof {
            if p < out@.len() {
                assert(out@.skip(p as int)[0] == out@[p as int]);
            }
            assert(scores@.take(i + 1).drop_last() =~= scores@.take(i as int));
            assert(scores@.take(i + 1).last() == scores@[i as int]);
        }
        out.insert(p, scores[i]);
        i += 1;
    }
    proof {
        assert(scores@.take(scores@.len() as int) =~= scores@);
    }
    if out.len() > limit {
        out.truncate(limit);
    }
    out
}

/// The documents that a ranking names.
pub open spec fn ranked(docs: Seq<DocView>, ranking: Seq<(usize, u32)>) -> Seq<DocView> {
    Seq::new(ranking.len(), |i: int| docs[ranking[i].0 as int])
}

/// A retrieval bundle for building a prompt.
pub struct RetrievedContext {
    pub memories: Vec<Doc>,
    pub recall: Vec<ChatMessage>,
}

/// What a retrieval bundle holds.
pub struct ContextView {
    pub memories: Seq<DocView>,
    pub recall: Seq<MessageView>,
}

impl View for RetrievedContext {
    type V = ContextView;

    open spec fn view(&self) -> ContextView {
        ContextView { memories: doc_views(self.memories@), recall: message_views(self.recall@) }
    }
}

/// The first four hundred characters of a text, with an ellipsis where there is
/// more.
pub open spec fn snippet(text: Seq<char>) -> Seq<char> {
    if text.len() > 400 {
        first_chars(text, 400) + "…"@
    } else {
        text
    }
}

/// The message that recalls a document.
pub open spec fn recall_of(doc: DocView) -> MessageView {
    MessageView {
        role: match doc.role {
            Some(role) => role,
            None => "unknown"@,
        },
        content: snippet(doc.text),
        extra: Seq::empty(),
    }
}

/// The messages that recall some documents.
pub open spec fn recalls(docs: Seq<DocView>) -> Seq<MessageView> {
    Seq::new(docs.len(), |i: int| recall_of(docs[i]))
}

fn recall_message(doc: &Doc) -> (r: ChatMessage)
    ensures
        r@ == recall_of(doc@),
{
    let role = match &doc.role {
        Some(role) => role.clone(),
        None => String::from_str("unknown"),
    };
    let mut content = text::take_chars(doc.text.as_str(), 400);
    let count: usize = text::chars_of(doc.text.as_str()).len();
    if count > 400 {
        content.append("…");
    }
    types::plain_message(role.as_str(), content)
}

impl MemoryStore {
    /// The documents that a ranking names.
    pub fn ranked_docs(&self, ranking: &Vec<(usize, u32)>) -> (r: Vec<Doc>)
        requires
            forall|i: int| 0 <= i < ranking@.len() ==> (#[trigger] ranking@[i]).0 < self.docs().len(),
        ensures
            doc_views(r@) == ranked(self.docs(), ranking@),
    {
        let mut out: Vec<Doc> = Vec::new();
        let mut i: usize = 0;
        while i < ranking.len()
            invariant
                i <= ranking@.len(),
                forall|k: int|
                    0 <= k < ranking@.len() ==> (#[trigger] ranking@[k]).0 < self.docs().len(),
                out@.len() == i,
                forall|k: int|
                    0 <= k < i ==> (#[trigger] out@[k])@ == self.docs()[ranking@[k].0 as int],
            decreases ranking@.len() - i,
        {
            out.push(self.docs[ranking[i].0].clone());
            i += 1;
        }
        proof {
            assert(doc_views(out@) =~= ranked(self.docs(), ranking@));
        }
        out
    }
}

proof fn lemma_ranked_within(scores: Seq<(usize, u32)>, limit: nat, bound: nat)
    requires
        forall|i: int| 0 <= i < scores.len() ==> (#[trigger] scores[i]).0 < bound,
    ensures
        forall|i: int|
            0 <= i < at_most(best_first(scores), limit).len() ==> (#[trigger] at_most(
                best_first(scores),
                limit,
            )[i]).0 < bound,
{
    lemma_best_within(scores, bound);
    let all = best_first(scores);
    let some = at_most(all, limit);
    assert forall|i: int| 0 <= i < some.len() implies (#[trigger] some[i]).0 < bound by {
        assert(some[i] == all[i]);
    }
}

proof fn lemma_best_within(scores: Seq<(usize, u32)>, bound: nat)
    requires
        forall|i: int| 0 <= i < scores.len() ==> (#[trigger] scores[i]).0 < bound,
    ensures
        forall|i: int|
            0 <= i < best_first(scores).len() ==> (#[trigger] best_first(scores)[i]).0 < bound,
    decreases scores.len(),
{
    if scores.len() > 0 {
        let front = scores.drop_last();
        assert forall|i: int| 0 <= i < front.len() implies (#[trigger] front[i]).0 < bound by {
            assert(front[i] == scores[i]);
        }
        lemma_best_within(front, bound);
        let before = best_first(front);
        lemma_ahead_count(before, scores.last().1);
        let p = ahead_count(before, scores.last().1) as int;
        let after = best_first(scores);
        assert forall|i: int| 0 <= i < after.len() implies (#[trigger] after[i]).0 < bound by {
            if i < p {
                assert(after[i] == before[i]);
            } else if i > p {
                assert(after[i] == before[i - 1]);
            } else {
                assert(after[i] == scores[scores.len() - 1]);
            }
        }
    }
}

/// What a query for a prompt touches.
pub struct ContextPlan {
    /// Among the memory items.
    pub memory: Vec<TermHits>,
    /// Among the messages before the cutoff.
    pub messages: Vec<TermHits>,
}

impl MemoryStore {
    /// What a query for a prompt touches: all memory items, and the messages
    /// before a cutoff, so that what goes along verbatim is not recalled too.
    pub fn plan_context(
        &self,
        query: &str,
        max_memory_items: usize,
        max_recall_snippets: usize,
        exclude_recent_messages_cutoff: Option<usize>,
    ) -> (r: ContextPlan)
        ensures
            plan_views(r.memory@) == if max_memory_items == 0 {
                Seq::empty()
            } else {
                plan_of(self.docs(), firsts(tokens(query@)), Some(DocKind::Memory), None)
            },
            plan_views(r.messages@) == if max_recall_snippets == 0 {
                Seq::empty()
            } else {
                plan_of(
                    self.docs(),
                    firsts(tokens(query@)),
                    Some(DocKind::Message),
                    exclude_recent_messages_cutoff,
                )
            },
            forall|t: int, h: int|
                0 <= t < r.memory@.len() && 0 <= h < r.memory@[t].hits@.len() ==> {
                    let i = (#[trigger] r.memory@[t].hits@[h]).doc as int;
                    i < self.docs().len() && self.docs()[i].kind == DocKind::Memory
                },
            forall|t: int, h: int|
                0 <= t < r.messages@.len() && 0 <= h < r.messages@[t].hits@.len() ==> {
                    let i = (#[trigger] r.messages@[t].hits@[h]).doc as int;
                    &&& i < self.docs().len()
                    &&& self.docs()[i].kind == DocKind::Message
                    &&& exclude_recent_messages_cutoff is Some && self.docs()[i].msg_index is Some
                        ==> self.docs()[i].msg_index->0 < exclude_recent_messages_cutoff->0
                },
    {
        ContextPlan {
            memory: self.search(query, max_memory_items, Some(DocKind::Memory), None),
            messages: self.search(
                query,
                max_recall_snippets,
                Some(DocKind::Message),
                exclude_recent_messages_cutoff,
            ),
        }
    }

    /// Retrieves a bundle for a prompt: the best of the scored memory items and
    /// snippets of the best of the scored messages.
    pub fn retrieve_context(
        &self,
        memory_scores: &Vec<(usize, u32)>,
        max_memory_items: usize,
        message_scores: &Vec<(usize, u32)>,
        max_recall_snippets: usize,
    ) -> (r: RetrievedContext)
        requires
            forall|i: int|
                0 <= i < memory_scores@.len() ==> (#[trigger] memory_scores@[i]).0
                    < self.docs().len(),
            forall|i: int|
                0 <= i < message_scores@.len() ==> (#[trigger] message_scores@[i]).0
                    < self.docs().len(),
        ensures
            r@ == (ContextView {
                memories: ranked(
                    self.docs(),
                    at_most(best_first(memory_scores@), max_memory_items as nat),
                ),
                recall: recalls(
                    ranked(
                        self.docs(),
                        at_most(best_first(message_scores@), max_recall_snippets as nat),
                    ),
                ),
            }),
            r.memories@.len() == vstd::math::min(
                memory_scores@.len() as int,
                max_memory_items as int,
            ),
            forall|i: int|
                0 <= i < r.memories@.len() ==> (#[trigger] r.memories@[i])@ == self.docs()[
                best_first(memory_scores@)[i].0 as int],
            r.recall@.len() == vstd::math::min(
                message_scores@.len() as int,
                max_recall_snippets as int,
            ),
            forall|i: int|
                0 <= i < r.recall@.len() ==> {
                    let doc = self.docs()[best_first(message_scores@)[i].0 as int];
                    let m = #[trigger] r.recall@[i];
                    &&& doc.role is Some ==> m.role@ == doc.role->0
                    &&& doc.role is None ==> m.role@ == "unknown"@
                    &&& doc.text.len() <= 400 ==> m.content@ == doc.text
                    &&& doc.text.len() > 400 ==> m.content@ == doc.text.take(400) + "…"@
                    &&& m.extra@.len() == 0
                },
    {
        proof {
            lemma_ranked_within(memory_scores@, max_memory_items as nat, self.docs().len());
            lemma_ranked_within(message_scores@, max_recall_snippets as nat, self.docs().len());
        }
        let best_memories = rank(memory_scores, max_memory_items);
        let best_messages = rank(message_scores, max_recall_snippets);
        let memories = self.ranked_docs(&best_memories);
        let recalled = self.ranked_docs(&best_messages);
        proof {
            assert(doc_views(memories@).len() == best_memories@.len());
            assert(doc_views(recalled@).len() == best_messages@.len());
        }
        let mut recall: Vec<ChatMessage> = Vec::new();
        let mut i: usize = 0;
        while i < recalled.len()
            invariant
                i <= recalled@.len(),
                recall@.len() == i,
                forall|k: int| 0 <= k < i ==> (#[trigger] recall@[k])@ == recall_of(recalled@[k]@),
            decreases recalled@.len() - i,
        {
            recall.push(recall_message(&recalled[i]));
            i += 1;
        }
        proof {
            assert(message_views(recall@) =~= recalls(doc_views(recalled@)));
            assert forall|i: int| 0 <= i < memories@.len() implies (#[trigger] memories@[i])@
                == self.docs()[best_first(memory_scores@)[i].0 as int] by {
                assert(doc_views(memories@)[i] == memories@[i]@);
                assert(best_memories@[i] == best_first(memory_scores@)[i]);
            }
            assert forall|i: int| 0 <= i < recall@.len() implies recalled@[i]@
                == self.docs()[best_first(message_scores@)[i].0 as int] && (
            #[trigger] recall@[i])@ == recall_of(recalled@[i]@) && recall@[i].extra@.len()
                == 0 by {
                assert(doc_views(recalled@)[i] == recalled@[i]@);
                assert(best_messages@[i] == best_first(message_scores@)[i]);
                assert(recall@[i]@.extra.len() == 0);
            }
        }
        RetrievedContext { memories, recall }
    }
}

} // verus!
