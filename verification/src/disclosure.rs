//! What redaction promises of the text that leaves the client: no term that the
//! user wants redacted is left in it.

use vstd::prelude::*;

use crate::redaction;
use crate::redaction::{
    placeholder, redaction, rule_passes, term_passes, RedactMode, RedactorView,
};
use crate::rehydration::{is_mark, law_placeholder_is_mark, tag_is_clean};
use crate::text::{occurs, replaced, stands_at, trimmed};

verus! {

/// Whether a term can be told from placeholders: it is not blank, holds no angle
/// bracket, and is no part of the placeholder of any of the terms, its own
/// included.
pub open spec fn is_separable(term: Seq<char>, salt: Seq<u8>, terms: Seq<Seq<char>>) -> bool {
    &&& trimmed(term).len() > 0
    &&& tag_is_clean(term)
    &&& forall|i: int|
        0 <= i < terms.len() ==> !occurs(placeholder(salt, "CUSTOM"@, #[trigger] terms[i]), term)
}

proof fn lemma_prefix_is_kept(
    text: Seq<char>,
    pattern: Seq<char>,
    to: Seq<char>,
    word: Seq<char>,
)
    requires
        is_mark(to),
        tag_is_clean(word),
        stands_at(replaced(text, pattern, to), word, 0),
    ensures
        stands_at(text, word, 0),
    decreases text.len(),
{
    let out = replaced(text, pattern, to);
    assert(out.subrange(0, word.len() as int) == word);
    if word.len() == 0 {
        assert(text.subrange(0, 0) =~= word);
    } else if pattern.len() == 0 || text.len() < pattern.len() {
    } else if stands_at(text, pattern, 0) {
        assert(out[0] == to[0]);
        assert(word[0] == out.subrange(0, word.len() as int)[0]);
        assert(false);
    } else {
        let rest = text.drop_first();
        let tail = word.drop_first();
        let after = replaced(rest, pattern, to);
        assert(out =~= seq![text[0]] + after);
        assert forall|i: int| 0 <= i < tail.len() implies tail[i] == #[trigger] after[i] by {
            assert(word[i + 1] == out.subrange(0, word.len() as int)[i + 1]);
            assert(out[i + 1] == after[i]);
        }
        assert(after.subrange(0, tail.len() as int) =~= tail);
        assert(tag_is_clean(tail)) by {
            assert forall|i: int| 0 <= i < tail.len() implies (#[trigger] tail[i]) != '<' && tail[i]
                != '>' by {
                assert(tail[i] == word[i + 1]);
            }
        }
        lemma_prefix_is_kept(rest, pattern, to, tail);
        assert(word[0] == out.subrange(0, word.len() as int)[0]);
        assert forall|i: int| 0 <= i < word.len() implies word[i] == #[trigger] text[i] by {
            if i > 0 {
                assert(word[i] == tail[i - 1]);
                assert(tail[i - 1] == rest.subrange(0, tail.len() as int)[i - 1]);
                assert(rest[i - 1] == text[i]);
            }
        }
        assert(text.subrange(0, word.len() as int) =~= word);
    }
}

proof fn lemma_occurs_in_suffix(text: Seq<char>, n: int, word: Seq<char>)
    requires
        0 <= n <= text.len(),
        occurs(text.skip(n), word),
    ensures
        occurs(text, word),
{
    let i = choose|i: int| stands_at(text.skip(n), word, i);
    assert(text.subrange(n + i, n + i + word.len()) =~= text.skip(n).subrange(
        i,
        i + word.len(),
    ));
    assert(stands_at(text, word, n + i));
}

proof fn lemma_replacing_leaves_no_word(
    text: Seq<char>,
    pattern: Seq<char>,
    to: Seq<char>,
    word: Seq<char>,
)
    requires
        word.len() > 0,
        tag_is_clean(word),
        is_mark(to),
        !occurs(to, word),
        pattern == word || !occurs(text, word),
    ensures
        !occurs(replaced(text, pattern, to), word),
    decreases text.len(),
{
    let out = replaced(text, pattern, to);
    if occurs(out, word) {
        let i = choose|i: int| stands_at(out, word, i);
        let n = word.len() as int;
        if pattern.len() == 0 || text.len() < pattern.len() {
            assert(out == text);
            assert(stands_at(text, word, i));
            assert(occurs(text, word));
        } else if stands_at(text, pattern, 0) {
            let rest = text.skip(pattern.len() as int);
            let after = replaced(rest, pattern, to);
            assert(out =~= to + after);
            if !(pattern == word) && occurs(rest, word) {
                lemma_occurs_in_suffix(text, pattern.len() as int, word);
            }
            lemma_replacing_leaves_no_word(rest, pattern, to, word);
            if i >= to.len() {
                let j = i - to.len();
                assert(after.subrange(j, j + n) =~= out.subrange(i, i + n));
                assert(stands_at(after, word, j));
            } else if i + n <= to.len() {
                assert(to.subrange(i, i + n) =~= out.subrange(i, i + n));
                assert(stands_at(to, word, i));
            } else {
                let k = to.len() - 1 - i;
                assert(word[k] == out.subrange(i, i + n)[k]);
                assert(out[i + k] == to[to.len() - 1]);
            }
        } else {
            let rest = text.drop_first();
            let after = replaced(rest, pattern, to);
            assert(out =~= seq![text[0]] + after);
            if i == 0 {
                lemma_prefix_is_kept(text, pattern, to, word);
                assert(occurs(text, word));
            } else {
                assert(rest =~= text.skip(1));
                if !(pattern == word) && occurs(rest, word) {
                    lemma_occurs_in_suffix(text, 1, word);
                }
                lemma_replacing_leaves_no_word(rest, pattern, to, word);
                assert(after.subrange(i - 1, i - 1 + n) =~= out.subrange(i, i + n));
                assert(stands_at(after, word, i - 1));
            }
        }
    }
}

proof fn lemma_terms_keep_salt(red: RedactorView, text: Seq<char>, terms: Seq<Seq<char>>)
    ensures
        term_passes(red, text, terms).0.salt == red.salt,
    decreases terms.len(),
{
    if terms.len() > 0 {
        lemma_terms_keep_salt(red, text, terms.drop_last());
    }
}

proof fn lemma_not_blank(term: Seq<char>)
    requires
        trimmed(term).len() > 0,
    ensures
        term.len() > 0,
{
    if term.len() == 0 {
        assert(term =~= Seq::empty());
    }
}

proof fn lemma_term_is_gone(
    red: RedactorView,
    text: Seq<char>,
    terms: Seq<Seq<char>>,
    j: int,
)
    requires
        0 <= j < terms.len(),
        is_separable(terms[j], red.salt, terms),
    ensures
        !occurs(term_passes(red, text, terms).1, terms[j]),
    decreases terms.len(),
{
    let word = terms[j];
    let front = terms.drop_last();
    let before = term_passes(red, text, front);
    let last = terms.last();
    let ph = placeholder(red.salt, "CUSTOM"@, last);
    lemma_terms_keep_salt(red, text, front);
    lemma_not_blank(word);
    assert(terms[terms.len() - 1] == last);
    if j < front.len() {
        assert(front[j] == word);
        assert(is_separable(word, red.salt, front)) by {
            assert forall|i: int| 0 <= i < front.len() implies !occurs(
                placeholder(red.salt, "CUSTOM"@, #[trigger] front[i]),
                word,
            ) by {
                assert(front[i] == terms[i]);
            }
        }
        lemma_term_is_gone(red, text, front, j);
    }
    if trimmed(last).len() > 0 && occurs(before.1, last) {
        reveal_strlit("CUSTOM");
        assert(tag_is_clean("CUSTOM"@));
        law_placeholder_is_mark(red.salt, "CUSTOM"@, last);
        lemma_not_blank(last);
        lemma_replacing_leaves_no_word(before.1, last, ph, word);
    }
}

/// No term that the user wants redacted is left in a redacted text, as long as
/// the term can be told from placeholders.
pub proof fn law_terms_do_not_leave(
    red: RedactorView,
    text: Seq<char>,
    mode: RedactMode,
    extra_terms: Seq<Seq<char>>,
    term: Seq<char>,
)
    requires
        mode != RedactMode::Off,
        (red.state.custom_terms + extra_terms).contains(term),
        is_separable(term, red.salt, red.state.custom_terms + extra_terms),
    ensures
        !occurs(redaction(red, text, mode, extra_terms).1, term),
{
    let terms = red.state.custom_terms + extra_terms;
    let j = choose|j: int| 0 <= j < terms.len() && terms[j] == term;
    let rules = redaction::mode_rules(mode);
    redaction::law_rules_keep_salt_and_terms(red, text, rules);
    let ruled = rule_passes(red, text, rules);
    lemma_term_is_gone(ruled.0, ruled.1, terms, j);
}

} // verus!
