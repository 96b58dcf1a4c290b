//! What rehydration promises: a text in which placeholders stand for originals
//! comes back as the text in which the originals stand, also where placeholders
//! stand in what others stand for.

use vstd::prelude::*;

use crate::crypto::sha256_digest;
use crate::redaction::{
    depth, longer_count, longest_first, mapped, mapping_of, masked, mode_rules, placeholder,
    red_after, redaction, regex_matches, rehydrated, restored, restored_in_rounds, rule_passes,
    rules_fit, spans_end, spans_fit, term_passes, upserted, with_mapping, RedactMode,
    RedactionKind, RedactorView, RuleView,
};
use crate::text;
use crate::text::{byte_len, hex, occurs, replaced, stands_at, substituted};

verus! {

/// Whether a text has the shape of a placeholder: angle brackets at its ends
/// and nowhere else.
pub open spec fn is_mark(ph: Seq<char>) -> bool {
    &&& ph.len() >= 2
    &&& ph[0] == '<'
    &&& ph.last() == '>'
    &&& forall|i: int| 0 < i < ph.len() - 1 ==> (#[trigger] ph[i]) != '<' && ph[i] != '>'
}

/// Whether every placeholder has the shape of one and stands for one thing.
pub open spec fn sound(keys: Seq<(Seq<char>, Seq<char>)>) -> bool {
    &&& forall|k: int| 0 <= k < keys.len() ==> is_mark((#[trigger] keys[k]).0)
    &&& forall|j: int, k: int|
        0 <= j < keys.len() && 0 <= k < keys.len() && (#[trigger] keys[j]).0 == (
        #[trigger] keys[k]).0 ==> keys[j].1 == keys[k].1
}

/// Whether none of some placeholders stands in a text.
pub open spec fn holds_none(text: Seq<char>, keys: Seq<(Seq<char>, Seq<char>)>) -> bool {
    forall|k: int| 0 <= k < keys.len() ==> !occurs(text, (#[trigger] keys[k]).0)
}

/// Whether a placeholder stands at the beginning of a text.
pub open spec fn leads(keys: Seq<(Seq<char>, Seq<char>)>, k: int, text: Seq<char>) -> bool {
    0 <= k < keys.len() && keys[k].0.len() > 0 && stands_at(text, keys[k].0, 0)
}

/// Whether one text comes of another by putting originals in the place of some of
/// the placeholders that stand in it.
pub open spec fn opens(
    keys: Seq<(Seq<char>, Seq<char>)>,
    before: Seq<char>,
    after: Seq<char>,
) -> bool
    decreases before.len(),
{
    if before.len() == 0 {
        after.len() == 0
    } else {
        ||| exists|k: int|
            #[trigger] leads(keys, k, before) && stands_at(after, keys[k].1, 0) && opens(
                keys,
                before.skip(keys[k].0.len() as int),
                after.skip(keys[k].1.len() as int),
            )
        ||| after.len() > 0 && after[0] == before[0] && opens(
            keys,
            before.drop_first(),
            after.drop_first(),
        )
    }
}

/// A text with originals in the place of all placeholders that stand in it.
pub open spec fn opened(keys: Seq<(Seq<char>, Seq<char>)>, text: Seq<char>) -> Seq<char>
    decreases text.len(),
{
    if text.len() == 0 {
        text
    } else if exists|k: int| #[trigger] leads(keys, k, text) {
        let k = choose|k: int| #[trigger] leads(keys, k, text);
        keys[k].1 + opened(keys, text.skip(keys[k].0.len() as int))
    } else {
        seq![text[0]] + opened(keys, text.drop_first())
    }
}

/// Whether a text comes to another by opening placeholders `n` times, each time
/// some of those that stand in it.
pub open spec fn comes_to(
    keys: Seq<(Seq<char>, Seq<char>)>,
    text: Seq<char>,
    goal: Seq<char>,
    n: nat,
) -> bool
    decreases n,
{
    if n == 0 {
        text == goal
    } else {
        exists|next: Seq<char>|
            #[trigger] opens(keys, text, next) && comes_to(keys, next, goal, (n - 1) as nat)
    }
}

/// What stands at the beginning of a text stands there still when more
/// follows.
proof fn lemma_stands_shift(head: Seq<char>, tail: Seq<char>, pattern: Seq<char>, i: int)
    requires
        stands_at(tail, pattern, i),
        0 <= i,
    ensures
        stands_at(head + tail, pattern, head.len() + i),
{
    let t = head + tail;
    let k = head.len() + i;
    assert(t.subrange(k, k + pattern.len()) =~= tail.subrange(i, i + pattern.len()));
}

/// Characters at which a pattern does not stand are left alone.
proof fn lemma_replaced_skip(t: Seq<char>, pattern: Seq<char>, to: Seq<char>, n: int)
    requires
        0 <= n <= t.len(),
        pattern.len() > 0,
        forall|k: int| 0 <= k < n ==> !#[trigger] stands_at(t, pattern, k),
    ensures
        replaced(t, pattern, to) == t.take(n) + replaced(t.skip(n), pattern, to),
    decreases n,
{
    if n == 0 {
        assert(t.skip(0) =~= t);
        assert(t.take(0) + replaced(t, pattern, to) =~= replaced(t, pattern, to));
    } else if t.len() < pattern.len() {
        assert(t.take(n) + t.skip(n) =~= t);
    } else {
        assert(!stands_at(t, pattern, 0));
        let rest = t.drop_first();
        assert forall|k: int| 0 <= k < n - 1 implies !#[trigger] stands_at(rest, pattern, k) by {
            if stands_at(rest, pattern, k) {
                assert(t =~= seq![t[0]] + rest);
                lemma_stands_shift(seq![t[0]], rest, pattern, k);
                assert(stands_at(t, pattern, k + 1));
            }
        }
        lemma_replaced_skip(rest, pattern, to, n - 1);
        assert(rest.skip(n - 1) =~= t.skip(n));
        assert(seq![t[0]] + rest.take(n - 1) =~= t.take(n));
        assert(replaced(t, pattern, to) =~= t.take(n) + replaced(t.skip(n), pattern, to));
    }
}

/// Two placeholders do not overlap.
proof fn lemma_marks_apart(p: Seq<char>, tail: Seq<char>, ph: Seq<char>, k: int)
    requires
        is_mark(p),
        is_mark(ph),
        p != ph,
        0 <= k < p.len(),
    ensures
        !stands_at(p + tail, ph, k),
{
    let all = p + tail;
    if stands_at(all, ph, k) {
        let there = all.subrange(k, k + ph.len());
        assert(there[0] == all[k]);
        if k == 0 {
            if ph.len() <= p.len() {
                assert(there[ph.len() - 1] == p[ph.len() - 1]);
                if ph.len() == p.len() {
                    assert(p =~= ph) by {
                        assert forall|i: int| 0 <= i < p.len() implies p[i] == ph[i] by {
                            assert(there[i] == all[i]);
                        }
                    }
                }
            } else {
                assert(there[p.len() - 1] == p[p.len() - 1]);
            }
        } else {
            assert(p[k] == '<');
        }
    }
}

/// A placeholder that leads keeps every other from leading.
proof fn lemma_one_leads(keys: Seq<(Seq<char>, Seq<char>)>, j: int, k: int, text: Seq<char>)
    requires
        sound(keys),
        leads(keys, j, text),
        leads(keys, k, text),
    ensures
        keys[j] == keys[k],
{
    let p = keys[j].0;
    let tail = text.skip(p.len() as int);
    assert(text.subrange(0, p.len() as int) == p);
    assert(p + tail =~= text);
    if keys[k].0 != p {
        lemma_marks_apart(p, tail, keys[k].0, 0);
    }
    assert(keys[j].1 == keys[k].1);
}

proof fn lemma_opens_behind(
    keys: Seq<(Seq<char>, Seq<char>)>,
    head: Seq<char>,
    a: Seq<char>,
    b: Seq<char>,
)
    requires
        opens(keys, a, b),
    ensures
        opens(keys, head + a, head + b),
    decreases head.len(),
{
    if head.len() == 0 {
        assert(head + a =~= a);
        assert(head + b =~= b);
    } else {
        lemma_opens_behind(keys, head.drop_first(), a, b);
        assert((head + a).drop_first() =~= head.drop_first() + a);
        assert((head + b).drop_first() =~= head.drop_first() + b);
    }
}

proof fn lemma_opens_nothing(keys: Seq<(Seq<char>, Seq<char>)>, text: Seq<char>)
    ensures
        opens(keys, text, text),
{
    assert(opens(keys, Seq::empty(), Seq::empty()));
    lemma_opens_behind(keys, text, Seq::empty(), Seq::empty());
    assert(text + Seq::empty() =~= text);
}

proof fn lemma_opens_one(
    keys: Seq<(Seq<char>, Seq<char>)>,
    k: int,
    a: Seq<char>,
    b: Seq<char>,
)
    requires
        0 <= k < keys.len(),
        keys[k].0.len() > 0,
        opens(keys, a, b),
    ensures
        opens(keys, keys[k].0 + a, keys[k].1 + b),
{
    let before = keys[k].0 + a;
    let after = keys[k].1 + b;
    assert(before.subrange(0, keys[k].0.len() as int) =~= keys[k].0);
    assert(after.subrange(0, keys[k].1.len() as int) =~= keys[k].1);
    assert(before.skip(keys[k].0.len() as int) =~= a);
    assert(after.skip(keys[k].1.len() as int) =~= b);
    assert(leads(keys, k, before));
}

/// Whoever knows more opens as much.
proof fn lemma_opens_with_more(
    few: Seq<(Seq<char>, Seq<char>)>,
    more: Seq<(Seq<char>, Seq<char>)>,
    a: Seq<char>,
    b: Seq<char>,
)
    requires
        forall|k: int| 0 <= k < few.len() ==> more.contains(#[trigger] few[k]),
        opens(few, a, b),
    ensures
        opens(more, a, b),
    decreases a.len(),
{
    if a.len() > 0 {
        if exists|k: int|
            #[trigger] leads(few, k, a) && stands_at(b, few[k].1, 0) && opens(
                few,
                a.skip(few[k].0.len() as int),
                b.skip(few[k].1.len() as int),
            ) {
            let k = choose|k: int|
                #[trigger] leads(few, k, a) && stands_at(b, few[k].1, 0) && opens(
                    few,
                    a.skip(few[k].0.len() as int),
                    b.skip(few[k].1.len() as int),
                );
            let rest = a.skip(few[k].0.len() as int);
            let next = b.skip(few[k].1.len() as int);
            lemma_opens_with_more(few, more, rest, next);
            assert(more.contains(few[k]));
            let m = choose|m: int| 0 <= m < more.len() && more[m] == few[k];
            lemma_opens_one(more, m, rest, next);
            assert(a.subrange(0, few[k].0.len() as int) == few[k].0);
            assert(b.subrange(0, few[k].1.len() as int) == few[k].1);
            assert(few[k].0 + rest =~= a);
            assert(few[k].1 + next =~= b);
        } else {
            lemma_opens_with_more(few, more, a.drop_first(), b.drop_first());
        }
    }
}

/// Where no placeholder begins, nothing is opened.
proof fn lemma_opens_after_plain(
    keys: Seq<(Seq<char>, Seq<char>)>,
    plain: Seq<char>,
    rest: Seq<char>,
    after: Seq<char>,
)
    requires
        sound(keys),
        forall|i: int| 0 <= i < plain.len() ==> #[trigger] plain[i] != '<',
        opens(keys, plain + rest, after),
    ensures
        after.len() >= plain.len(),
        after.take(plain.len() as int) == plain,
        opens(keys, rest, after.skip(plain.len() as int)),
    decreases plain.len(),
{
    let before = plain + rest;
    if plain.len() == 0 {
        assert(before =~= rest);
        assert(after.skip(0) =~= after);
        assert(after.take(0) =~= plain);
    } else {
        assert forall|k: int| !#[trigger] leads(keys, k, before) by {
            if leads(keys, k, before) {
                assert(before.subrange(0, keys[k].0.len() as int)[0] == plain[0]);
                assert(is_mark(keys[k].0));
            }
        }
        let fewer = plain.drop_first();
        assert(before.drop_first() =~= fewer + rest);
        assert forall|i: int| 0 <= i < fewer.len() implies #[trigger] fewer[i] != '<' by {
            assert(fewer[i] == plain[i + 1]);
        }
        lemma_opens_after_plain(keys, fewer, rest, after.drop_first());
        assert(after.drop_first().skip(fewer.len() as int) =~= after.skip(plain.len() as int));
        assert forall|i: int| 0 <= i < plain.len() implies #[trigger] after[i] == plain[i] by {
            if i > 0 {
                assert(after.drop_first().take(fewer.len() as int)[i - 1] == fewer[i - 1]);
            }
        }
        assert(after.take(plain.len() as int) =~= plain);
    }
}

/// Whatever was opened, opening the rest gives the text with everything opened.
#[verifier::rlimit(30)]
proof fn lemma_rest_can_be_opened(
    keys: Seq<(Seq<char>, Seq<char>)>,
    text: Seq<char>,
    part: Seq<char>,
)
    requires
        sound(keys),
        opens(keys, text, part),
    ensures
        opens(keys, part, opened(keys, text)),
    decreases text.len(),
{
    if text.len() > 0 {
        if exists|k: int| #[trigger] leads(keys, k, text) {
            let k = choose|k: int| #[trigger] leads(keys, k, text);
            let ph = keys[k].0;
            let original = keys[k].1;
            let rest = text.skip(ph.len() as int);
            assert(is_mark(ph));
            assert(text.subrange(0, ph.len() as int) == ph);
            assert(ph + rest =~= text);
            if exists|j: int|
                #[trigger] leads(keys, j, text) && stands_at(part, keys[j].1, 0) && opens(
                    keys,
                    text.skip(keys[j].0.len() as int),
                    part.skip(keys[j].1.len() as int),
                ) {
                let j = choose|j: int|
                    #[trigger] leads(keys, j, text) && stands_at(part, keys[j].1, 0) && opens(
                        keys,
                        text.skip(keys[j].0.len() as int),
                        part.skip(keys[j].1.len() as int),
                    );
                lemma_one_leads(keys, j, k, text);
                let next = part.skip(original.len() as int);
                lemma_rest_can_be_opened(keys, rest, next);
                lemma_opens_behind(keys, original, next, opened(keys, rest));
                assert(part.subrange(0, original.len() as int) == original);
                assert(original + next =~= part);
            } else {
                let inner = ph.drop_first();
                assert(text.drop_first() =~= inner + rest);
                assert forall|i: int| 0 <= i < inner.len() implies #[trigger] inner[i] != '<' by {
                    assert(inner[i] == ph[i + 1]);
                }
                lemma_opens_after_plain(keys, inner, rest, part.drop_first());
                let next = part.drop_first().skip(inner.len() as int);
                lemma_rest_can_be_opened(keys, rest, next);
                lemma_opens_one(keys, k, next, opened(keys, rest));
                assert(ph + next =~= part) by {
                    assert forall|i: int| 0 < i < ph.len() implies #[trigger] part[i] == ph[i] by {
                        assert(part.drop_first().take(inner.len() as int)[i - 1] == inner[i - 1]);
                    }
                }
            }
        } else {
            lemma_rest_can_be_opened(keys, text.drop_first(), part.drop_first());
            let more = opened(keys, text.drop_first());
            lemma_opens_behind(keys, seq![text[0]], part.drop_first(), more);
            assert(seq![text[0]] + part.drop_first() =~= part);
        }
    }
}

proof fn lemma_nothing_to_open(
    keys: Seq<(Seq<char>, Seq<char>)>,
    text: Seq<char>,
    after: Seq<char>,
)
    requires
        holds_none(text, keys),
        opens(keys, text, after),
    ensures
        after == text,
    decreases text.len(),
{
    if text.len() > 0 {
        assert forall|k: int| !#[trigger] leads(keys, k, text) by {
            if leads(keys, k, text) {
                assert(occurs(text, keys[k].0));
            }
        }
        let rest = text.drop_first();
        assert(seq![text[0]] + rest =~= text);
        assert forall|k: int| 0 <= k < keys.len() implies !occurs(
            rest,
            (#[trigger] keys[k]).0,
        ) by {
            if occurs(rest, keys[k].0) {
                let i = choose|i: int| stands_at(rest, keys[k].0, i);
                lemma_stands_shift(seq![text[0]], rest, keys[k].0, i);
            }
        }
        lemma_nothing_to_open(keys, rest, after.drop_first());
        assert(seq![after[0]] + after.drop_first() =~= after);
    } else {
        assert(after =~= text);
    }
}

/// Opening placeholders leads no further from the goal.
proof fn lemma_stays_on_the_way(
    keys: Seq<(Seq<char>, Seq<char>)>,
    text: Seq<char>,
    goal: Seq<char>,
    n: nat,
    part: Seq<char>,
)
    requires
        sound(keys),
        holds_none(goal, keys),
        comes_to(keys, text, goal, n),
        opens(keys, text, part),
    ensures
        comes_to(keys, part, goal, n),
        n > 0 ==> comes_to(keys, opened(keys, text), goal, (n - 1) as nat),
    decreases n,
{
    if n == 0 {
        lemma_nothing_to_open(keys, text, part);
    } else {
        let next = choose|next: Seq<char>|
            #[trigger] opens(keys, text, next) && comes_to(keys, next, goal, (n - 1) as nat);
        let all = opened(keys, text);
        lemma_rest_can_be_opened(keys, text, next);
        lemma_rest_can_be_opened(keys, text, part);
        lemma_stays_on_the_way(keys, next, goal, (n - 1) as nat, all);
        assert(opens(keys, part, all));
    }
}

proof fn lemma_replaced_first(text: Seq<char>, pattern: Seq<char>, to: Seq<char>)
    requires
        text.len() > 0,
        pattern.len() > 0,
        !stands_at(text, pattern, 0),
    ensures
        replaced(text, pattern, to) == seq![text[0]] + replaced(text.drop_first(), pattern, to),
{
    if text.len() < pattern.len() {
        assert(seq![text[0]] + text.drop_first() =~= text);
    }
}

/// After the first placeholder was replaced everywhere, opening the others that
/// stood there gives the text with everything opened.
#[verifier::rlimit(30)]
proof fn lemma_one_replaced(keys: Seq<(Seq<char>, Seq<char>)>, text: Seq<char>)
    requires
        sound(keys),
        keys.len() > 0,
    ensures
        opens(
            keys.skip(1),
            replaced(text, keys[0].0, keys[0].1),
            opened(keys, text),
        ),
    decreases text.len(),
{
    let others = keys.skip(1);
    let ph = keys[0].0;
    let original = keys[0].1;
    assert(is_mark(ph));
    if text.len() > 0 {
        if exists|k: int| #[trigger] leads(keys, k, text) {
            let k = choose|k: int| #[trigger] leads(keys, k, text);
            let p = keys[k].0;
            assert(is_mark(p));
            let rest = text.skip(p.len() as int);
            assert(text.subrange(0, p.len() as int) == p);
            assert(p + rest =~= text);
            lemma_one_replaced(keys, rest);
            if stands_at(text, ph, 0) {
                assert(leads(keys, 0, text));
                lemma_one_leads(keys, 0, k, text);
                lemma_opens_behind(
                    others,
                    original,
                    replaced(rest, ph, original),
                    opened(keys, rest),
                );
            } else {
                assert(p != ph);
                assert forall|i: int| 0 <= i < p.len() implies !#[trigger] stands_at(
                    text,
                    ph,
                    i,
                ) by {
                    lemma_marks_apart(p, rest, ph, i);
                }
                lemma_replaced_skip(text, ph, original, p.len() as int);
                assert(text.take(p.len() as int) =~= p);
                assert(k > 0);
                assert(others[k - 1] == keys[k]);
                lemma_opens_one(
                    others,
                    k - 1,
                    replaced(rest, ph, original),
                    opened(keys, rest),
                );
            }
        } else {
            assert(!leads(keys, 0, text));
            lemma_replaced_first(text, ph, original);
            lemma_one_replaced(keys, text.drop_first());
            lemma_opens_behind(
                others,
                seq![text[0]],
                replaced(text.drop_first(), ph, original),
                opened(keys, text.drop_first()),
            );
        }
    }
}

proof fn lemma_opened_without_keys(keys: Seq<(Seq<char>, Seq<char>)>, text: Seq<char>)
    requires
        keys.len() == 0,
    ensures
        opened(keys, text) == text,
    decreases text.len(),
{
    if text.len() > 0 {
        assert(forall|k: int| !#[trigger] leads(keys, k, text));
        lemma_opened_without_keys(keys, text.drop_first());
        assert(seq![text[0]] + text.drop_first() =~= text);
    }
}

proof fn lemma_sound_part(keys: Seq<(Seq<char>, Seq<char>)>, j: int)
    requires
        sound(keys),
        0 <= j <= keys.len(),
    ensures
        sound(keys.skip(j)),
{
    let part = keys.skip(j);
    assert forall|k: int| 0 <= k < part.len() implies #[trigger] part[k] == keys[k + j] by {}
}

/// With the first `j` placeholders replaced, opening the others comes as near to
/// the goal as opening all at once.
proof fn lemma_round_so_far(
    keys: Seq<(Seq<char>, Seq<char>)>,
    text: Seq<char>,
    goal: Seq<char>,
    n: nat,
    j: int,
)
    requires
        sound(keys),
        holds_none(goal, keys),
        n > 0,
        comes_to(keys, text, goal, n),
        0 <= j <= keys.len(),
    ensures
        comes_to(
            keys,
            opened(keys.skip(j), restored(text, keys.take(j))),
            goal,
            (n - 1) as nat,
        ),
    decreases j,
{
    if j == 0 {
        assert(keys.skip(0) =~= keys);
        assert(keys.take(0) =~= Seq::empty());
        lemma_opens_nothing(keys, text);
        lemma_stays_on_the_way(keys, text, goal, n, text);
    } else {
        lemma_round_so_far(keys, text, goal, n, j - 1);
        let x = restored(text, keys.take(j - 1));
        let part = keys.skip(j - 1);
        let rest = keys.skip(j);
        lemma_sound_part(keys, j - 1);
        lemma_sound_part(keys, j);
        assert(part.skip(1) =~= rest);
        assert(part[0] == keys[j - 1]);
        assert(is_mark(keys[j - 1].0));
        assert(keys.take(j).drop_last() =~= keys.take(j - 1));
        assert(keys.take(j).last() == keys[j - 1]);
        let y = replaced(x, keys[j - 1].0, keys[j - 1].1);
        assert(restored(text, keys.take(j)) == y);
        lemma_one_replaced(part, x);
        lemma_rest_can_be_opened(rest, y, opened(part, x));
        assert forall|k: int| 0 <= k < rest.len() implies keys.contains(#[trigger] rest[k]) by {
            assert(keys[k + j] == rest[k]);
        }
        lemma_opens_with_more(rest, keys, opened(part, x), opened(rest, y));
        lemma_stays_on_the_way(
            keys,
            opened(part, x),
            goal,
            (n - 1) as nat,
            opened(rest, y),
        );
    }
}

/// A round comes nearer to the goal.
proof fn lemma_round(
    keys: Seq<(Seq<char>, Seq<char>)>,
    text: Seq<char>,
    goal: Seq<char>,
    n: nat,
)
    requires
        sound(keys),
        holds_none(goal, keys),
        n > 0,
        comes_to(keys, text, goal, n),
    ensures
        comes_to(keys, restored(text, keys), goal, (n - 1) as nat),
{
    let all = keys.len() as int;
    lemma_round_so_far(keys, text, goal, n, all);
    assert(keys.take(all) =~= keys);
    lemma_opened_without_keys(keys.skip(all), restored(text, keys));
}

proof fn lemma_nothing_to_restore(text: Seq<char>, keys: Seq<(Seq<char>, Seq<char>)>)
    requires
        sound(keys),
        holds_none(text, keys),
    ensures
        restored(text, keys) == text,
    decreases keys.len(),
{
    if keys.len() > 0 {
        let fore = keys.drop_last();
        assert forall|k: int| 0 <= k < fore.len() implies #[trigger] fore[k] == keys[k] by {}
        lemma_nothing_to_restore(text, fore);
        let last = keys[keys.len() - 1];
        assert(is_mark(last.0));
        assert(!occurs(text, last.0));
        lemma_replaced_skip(text, last.0, last.1, text.len() as int);
        let end = text.skip(text.len() as int);
        assert(replaced(end, last.0, last.1) =~= Seq::empty());
        assert(text.take(text.len() as int) + Seq::empty() =~= text);
    }
}

proof fn lemma_rounds(
    keys: Seq<(Seq<char>, Seq<char>)>,
    text: Seq<char>,
    goal: Seq<char>,
    n: nat,
    rounds: nat,
)
    requires
        sound(keys),
        holds_none(goal, keys),
        comes_to(keys, text, goal, n),
        n <= rounds,
    ensures
        restored_in_rounds(text, keys, rounds) == goal,
    decreases n,
{
    if n == 0 {
        lemma_nothing_to_restore(goal, keys);
    } else {
        lemma_round(keys, text, goal, n);
        let next = restored(text, keys);
        if next == text {
            lemma_rounds(keys, text, goal, (n - 1) as nat, rounds);
        } else {
            lemma_rounds(keys, next, goal, (n - 1) as nat, (rounds - 1) as nat);
        }
    }
}

proof fn lemma_longest_first(rev: Seq<(Seq<char>, Seq<char>)>)
    ensures
        longest_first(rev).len() == rev.len(),
        forall|k: int| 0 <= k < rev.len() ==> rev.contains(#[trigger] longest_first(rev)[k]),
        forall|k: int| 0 <= k < rev.len() ==> longest_first(rev).contains(#[trigger] rev[k]),
    decreases rev.len(),
{
    if rev.len() > 0 {
        let front = rev.drop_last();
        lemma_longest_first(front);
        let before = longest_first(front);
        let p = longer_count(before, byte_len(rev.last().0)) as int;
        lemma_longer_count(before, byte_len(rev.last().0));
        let after = longest_first(rev);
        assert(after == before.insert(p, rev.last()));
        assert forall|k: int| 0 <= k < rev.len() implies rev.contains(#[trigger] after[k]) by {
            if k == p {
                assert(rev[rev.len() - 1] == after[k]);
            } else {
                let j = if k < p { k } else { k - 1 };
                assert(after[k] == before[j]);
                assert(front.contains(before[j]));
                let m = choose|m: int| 0 <= m < front.len() && front[m] == before[j];
                assert(rev[m] == after[k]);
            }
        }
        assert forall|k: int| 0 <= k < rev.len() implies after.contains(#[trigger] rev[k]) by {
            if k == rev.len() - 1 {
                assert(after[p] == rev[k]);
            } else {
                assert(front[k] == rev[k]);
                assert(before.contains(front[k]));
                let m = choose|m: int| 0 <= m < before.len() && before[m] == front[k];
                let j = if m < p { m } else { m + 1 };
                assert(after[j] == rev[k]);
            }
        }
    }
}

proof fn lemma_longer_count(rev: Seq<(Seq<char>, Seq<char>)>, len: nat)
    ensures
        longer_count(rev, len) <= rev.len(),
    decreases rev.len(),
{
    if rev.len() > 0 && byte_len(rev[0].0) >= len {
        lemma_longer_count(rev.skip(1), len);
    }
}

proof fn lemma_comes_with_more(
    few: Seq<(Seq<char>, Seq<char>)>,
    more: Seq<(Seq<char>, Seq<char>)>,
    text: Seq<char>,
    goal: Seq<char>,
    n: nat,
)
    requires
        forall|k: int| 0 <= k < few.len() ==> more.contains(#[trigger] few[k]),
        comes_to(few, text, goal, n),
    ensures
        comes_to(more, text, goal, n),
    decreases n,
{
    if n > 0 {
        let next = choose|next: Seq<char>|
            #[trigger] opens(few, text, next) && comes_to(few, next, goal, (n - 1) as nat);
        lemma_opens_with_more(few, more, text, next);
        lemma_comes_with_more(few, more, next, goal, (n - 1) as nat);
    }
}

/// Rehydration finds every text that opening placeholders comes to: whatever
/// order they are opened in, and also where some stand in what others stand for,
/// it gives the text in which none is left.
pub proof fn law_rehydration_reaches_the_end(
    red: RedactorView,
    text: Seq<char>,
    goal: Seq<char>,
    n: nat,
)
    requires
        sound(red.rev),
        holds_none(goal, red.rev),
        comes_to(red.rev, text, goal, n),
        n <= depth(red),
    ensures
        rehydrated(red, text) == goal,
{
    let keys = longest_first(red.rev);
    lemma_longest_first(red.rev);
    assert forall|k: int| 0 <= k < keys.len() implies {
        &&& is_mark((#[trigger] keys[k]).0)
        &&& !occurs(goal, keys[k].0)
    } by {
        assert(red.rev.contains(keys[k]));
        let m = choose|m: int| 0 <= m < red.rev.len() && red.rev[m] == keys[k];
        assert(is_mark(red.rev[m].0));
    }
    assert forall|j: int, k: int|
        0 <= j < keys.len() && 0 <= k < keys.len() && (#[trigger] keys[j]).0 == (
        #[trigger] keys[k]).0 implies keys[j].1 == keys[k].1 by {
        assert(red.rev.contains(keys[j]) && red.rev.contains(keys[k]));
        let a = choose|m: int| 0 <= m < red.rev.len() && red.rev[m] == keys[j];
        let b = choose|m: int| 0 <= m < red.rev.len() && red.rev[m] == keys[k];
        assert(red.rev[a].1 == red.rev[b].1);
    }
    lemma_comes_with_more(red.rev, keys, text, goal, n);
    lemma_rounds(keys, text, goal, n, depth(red));
}

/// A piece of a text: plain text, or an original behind its placeholder.
pub enum Unit {
    Plain(Seq<char>),
    Hidden { placeholder: Seq<char>, original: Seq<char> },
}

/// What a unit shows.
pub open spec fn unit_shown(unit: Unit) -> Seq<char> {
    match unit {
        Unit::Plain(s) => s,
        Unit::Hidden { placeholder, .. } => placeholder,
    }
}

/// What a unit means.
pub open spec fn unit_meant(unit: Unit) -> Seq<char> {
    match unit {
        Unit::Plain(s) => s,
        Unit::Hidden { original, .. } => original,
    }
}

/// The text with placeholders.
pub open spec fn shown(units: Seq<Unit>) -> Seq<char>
    decreases units.len(),
{
    if units.len() == 0 {
        Seq::empty()
    } else {
        unit_shown(units[0]) + shown(units.skip(1))
    }
}

/// The text with originals.
pub open spec fn meant(units: Seq<Unit>) -> Seq<char>
    decreases units.len(),
{
    if units.len() == 0 {
        Seq::empty()
    } else {
        unit_meant(units[0]) + meant(units.skip(1))
    }
}

/// Whether every original in some units stands behind the placeholder that is
/// known to stand for it.
pub open spec fn all_known(units: Seq<Unit>, rev: Seq<(Seq<char>, Seq<char>)>) -> bool {
    forall|i: int|
        0 <= i < units.len() ==> ((#[trigger] units[i]) matches Unit::Hidden {
            placeholder,
            original,
        } ==> rev.contains((placeholder, original)))
}

proof fn lemma_units_open(units: Seq<Unit>, rev: Seq<(Seq<char>, Seq<char>)>)
    requires
        sound(rev),
        all_known(units, rev),
    ensures
        opens(rev, shown(units), meant(units)),
    decreases units.len(),
{
    if units.len() > 0 {
        let rest = units.skip(1);
        assert forall|i: int| 0 <= i < rest.len() implies #[trigger] rest[i] == units[i + 1] by {}
        lemma_units_open(rest, rev);
        match units[0] {
            Unit::Plain(s) => {
                lemma_opens_behind(rev, s, shown(rest), meant(rest));
            },
            Unit::Hidden { placeholder, original } => {
                assert(rev.contains((placeholder, original)));
                let k = choose|k: int| 0 <= k < rev.len() && rev[k] == (placeholder, original);
                assert(is_mark(rev[k].0));
                lemma_opens_one(rev, k, shown(rest), meant(rest));
            },
        }
    }
}

/// Rehydration gives back the text in which the originals stand, for every text
/// in which known placeholders stand for them: that which was redacted, and just
/// as well what a model made of it. The text in which the originals stand must
/// not itself hold a placeholder.
pub proof fn law_rehydration_restores_originals(red: RedactorView, units: Seq<Unit>)
    requires
        sound(red.rev),
        all_known(units, red.rev),
        holds_none(meant(units), red.rev),
    ensures
        rehydrated(red, shown(units)) == meant(units),
{
    lemma_units_open(units, red.rev);
    assert(comes_to(red.rev, meant(units), meant(units), 0));
    assert(comes_to(red.rev, shown(units), meant(units), 1));
    law_rehydration_reaches_the_end(red, shown(units), meant(units), 1);
}

/// Whether a tag holds no angle brackets.
pub open spec fn tag_is_clean(tag: Seq<char>) -> bool {
    forall|i: int| 0 <= i < tag.len() ==> (#[trigger] tag[i]) != '<' && tag[i] != '>'
}

proof fn lemma_hex_clean(bytes: Seq<u8>)
    ensures
        tag_is_clean(hex(bytes)),
    decreases bytes.len(),
{
    if bytes.len() > 0 {
        lemma_hex_clean(bytes.drop_last());
        lemma_hex_clean(bytes.skip(1));
    }
}

/// Placeholders have the shape of one.
pub proof fn law_placeholder_is_mark(salt: Seq<u8>, tag: Seq<char>, original: Seq<char>)
    requires
        tag_is_clean(tag),
    ensures
        is_mark(placeholder(salt, tag, original)),
{
    reveal_strlit("<");
    reveal_strlit("_");
    reveal_strlit(">");
    let h = hex(
        sha256_digest(
            salt + vstd::utf8::encode_utf8(tag) + vstd::utf8::encode_utf8(original),
        ).take(8),
    );
    lemma_hex_clean(
        sha256_digest(
            salt + vstd::utf8::encode_utf8(tag) + vstd::utf8::encode_utf8(original),
        ).take(8),
    );
    let ph = placeholder(salt, tag, original);
    assert(ph =~= seq!['<'] + tag + seq!['_'] + h + seq!['>']);
    assert forall|i: int| 0 < i < ph.len() - 1 implies (#[trigger] ph[i]) != '<' && ph[i]
        != '>' by {
        if i <= tag.len() {
            assert(ph[i] == tag[i - 1]);
        } else if i == tag.len() + 1 {
            assert(ph[i] == '_');
        } else {
            assert(ph[i] == h[i - tag.len() - 2]);
        }
    }
}

/// A text without an opening angle bracket holds no placeholder.
pub proof fn law_plain_text_holds_none(text: Seq<char>, keys: Seq<(Seq<char>, Seq<char>)>)
    requires
        sound(keys),
        forall|i: int| 0 <= i < text.len() ==> #[trigger] text[i] != '<',
    ensures
        holds_none(text, keys),
{
    assert forall|k: int| 0 <= k < keys.len() implies !occurs(text, (#[trigger] keys[k]).0) by {
        if occurs(text, keys[k].0) {
            let i = choose|i: int| stands_at(text, keys[k].0, i);
            assert(is_mark(keys[k].0));
            assert(text.subrange(i, i + keys[k].0.len())[0] == text[i]);
        }
    }
}

/// The text from the first `k` matches of a rule on opens to what stood there.
proof fn lemma_masked_opens(
    keys: Seq<(Seq<char>, Seq<char>)>,
    salt: Seq<u8>,
    text: Seq<char>,
    rule: RuleView,
    spans: Seq<(int, int)>,
    k: int,
    a: Seq<char>,
    b: Seq<char>,
)
    requires
        sound(keys),
        spans_fit(spans, text.len()),
        0 <= k <= spans.len(),
        forall|m: int|
            0 <= m < spans.len() ==> keys.contains(
                (
                    placeholder(salt, rule.tag, text.subrange((#[trigger] spans[m]).0, spans[m].1)),
                    text.subrange(spans[m].0, spans[m].1),
                ),
            ),
        opens(keys, a, b),
    ensures
        opens(keys, masked(salt, text, rule, spans, k) + a, text.take(spans_end(spans, k)) + b),
    decreases k,
{
    if k == 0 {
        assert(masked(salt, text, rule, spans, 0) + a =~= a);
        assert(text.take(0) + b =~= b);
    } else {
        let (from, to) = spans[k - 1];
        let end = spans_end(spans, k - 1);
        if k > 1 {
            assert(spans[k - 2].1 <= spans[k - 1].0);
        }
        let gap = text.subrange(end, from);
        let original = text.subrange(from, to);
        let ph = placeholder(salt, rule.tag, original);
        assert(keys.contains((ph, original)));
        let m = choose|m: int| 0 <= m < keys.len() && keys[m] == (ph, original);
        assert(is_mark(keys[m].0));
        lemma_opens_one(keys, m, a, b);
        lemma_opens_behind(keys, gap, ph + a, original + b);
        lemma_masked_opens(
            keys,
            salt,
            text,
            rule,
            spans,
            k - 1,
            gap + (ph + a),
            gap + (original + b),
        );
        assert(masked(salt, text, rule, spans, k) + a =~= masked(salt, text, rule, spans, k - 1) + (
        gap + (ph + a)));
        assert(text.take(to) + b =~= text.take(end) + (gap + (original + b)));
    }
}

/// Where a term is found in a text, from position `i` on.
pub open spec fn term_spans(text: Seq<char>, term: Seq<char>, i: int) -> Seq<(int, int)>
    decreases text.len() - i,
{
    if i < 0 || term.len() == 0 || i + term.len() > text.len() {
        Seq::empty()
    } else if stands_at(text, term, i) {
        seq![(i, i + term.len())] + term_spans(text, term, i + term.len())
    } else {
        term_spans(text, term, i + 1)
    }
}

proof fn lemma_term_spans(text: Seq<char>, term: Seq<char>, i: int)
    requires
        0 <= i <= text.len(),
        term.len() > 0,
    ensures
        spans_fit(term_spans(text, term, i), text.len()),
        forall|k: int|
            0 <= k < term_spans(text, term, i).len() ==> {
                &&& i <= (#[trigger] term_spans(text, term, i)[k]).0
                &&& text.subrange(
                    term_spans(text, term, i)[k].0,
                    term_spans(text, term, i)[k].1,
                ) == term
            },
    decreases text.len() - i,
{
    let spans = term_spans(text, term, i);
    if i + term.len() <= text.len() {
        if stands_at(text, term, i) {
            let j = i + term.len();
            lemma_term_spans(text, term, j);
            let more = term_spans(text, term, j);
            assert(spans =~= seq![(i, j)] + more);
            assert forall|k: int| 0 < k < spans.len() implies #[trigger] spans[k]
                == more[k - 1] by {}
        } else {
            lemma_term_spans(text, term, i + 1);
        }
    }
}

/// A text from `base` on, with `ph` in the place of some spans.
spec fn masked_from(
    text: Seq<char>,
    spans: Seq<(int, int)>,
    base: int,
    ph: Seq<char>,
) -> Seq<char>
    decreases spans.len(),
{
    if spans.len() == 0 {
        text.skip(base)
    } else {
        text.subrange(base, spans[0].0) + ph + masked_from(text, spans.skip(1), spans[0].1, ph)
    }
}

proof fn lemma_replaced_is_masked(
    text: Seq<char>,
    term: Seq<char>,
    ph: Seq<char>,
    base: int,
    i: int,
)
    requires
        0 <= base <= i <= text.len(),
        term.len() > 0,
    ensures
        masked_from(text, term_spans(text, term, i), base, ph) == text.subrange(base, i) + replaced(
            text.skip(i),
            term,
            ph,
        ),
    decreases text.len() - i,
{
    let rest = text.skip(i);
    let spans = term_spans(text, term, i);
    if i + term.len() > text.len() {
        assert(text.subrange(base, i) + rest =~= text.skip(base));
    } else if stands_at(text, term, i) {
        let j = i + term.len();
        lemma_replaced_is_masked(text, term, ph, j, j);
        assert(spans.skip(1) =~= term_spans(text, term, j));
        assert(rest.subrange(0, term.len() as int) =~= text.subrange(i, j));
        assert(stands_at(rest, term, 0));
        assert(rest.skip(term.len() as int) =~= text.skip(j));
        assert(text.subrange(j, j) =~= Seq::empty());
        assert(masked_from(text, spans, base, ph) =~= text.subrange(base, i) + replaced(
            rest,
            term,
            ph,
        ));
    } else {
        lemma_replaced_is_masked(text, term, ph, base, i + 1);
        assert(rest.drop_first() =~= text.skip(i + 1));
        if stands_at(rest, term, 0) {
            assert(rest.subrange(0, term.len() as int) =~= text.subrange(i, i + term.len()));
        }
        assert(text.subrange(base, i + 1) =~= text.subrange(base, i) + seq![text[i]]);
        assert(masked_from(text, spans, base, ph) =~= text.subrange(base, i) + replaced(
            rest,
            term,
            ph,
        ));
    }
}

proof fn lemma_masked_is_masked_from(
    salt: Seq<u8>,
    text: Seq<char>,
    rule: RuleView,
    spans: Seq<(int, int)>,
    term: Seq<char>,
    k: int,
)
    requires
        spans_fit(spans, text.len()),
        forall|m: int|
            0 <= m < spans.len() ==> text.subrange((#[trigger] spans[m]).0, spans[m].1) == term,
        0 <= k <= spans.len(),
    ensures
        ({
            let ph = placeholder(salt, rule.tag, term);
            masked(salt, text, rule, spans, k) + masked_from(
                text,
                spans.skip(k),
                spans_end(spans, k),
                ph,
            ) == masked_from(text, spans, 0, ph)
        }),
    decreases k,
{
    let ph = placeholder(salt, rule.tag, term);
    if k == 0 {
        assert(spans.skip(0) =~= spans);
        assert(masked(salt, text, rule, spans, 0) =~= Seq::empty());
        assert(masked(salt, text, rule, spans, 0) + masked_from(text, spans, 0, ph)
            =~= masked_from(text, spans, 0, ph));
    } else {
        lemma_masked_is_masked_from(salt, text, rule, spans, term, k - 1);
        let rest = spans.skip(k - 1);
        assert(rest[0] == spans[k - 1]);
        assert(rest.skip(1) =~= spans.skip(k));
        assert(text.subrange(spans[k - 1].0, spans[k - 1].1) == term);
        let end = spans_end(spans, k - 1);
        let more = masked_from(text, spans.skip(k), spans_end(spans, k), ph);
        let before = masked(salt, text, rule, spans, k - 1);
        let gap = text.subrange(end, spans[k - 1].0);
        assert(before + (gap + ph + more) =~= (before + gap + ph) + more);
    }
}

/// The rule that a term amounts to.
pub open spec fn custom_rule() -> RuleView {
    RuleView { pattern: Seq::empty(), kind: RedactionKind::Custom, tag: "CUSTOM"@ }
}

proof fn lemma_trimmed_nonempty(term: Seq<char>)
    requires
        text::trimmed(term).len() > 0,
    ensures
        term.len() > 0,
{
    if term.len() == 0 {
        assert(term =~= Seq::empty());
    }
}

/// Whether the placeholder of an original, where it is known, stands for it and
/// for nothing else.
pub open spec fn agrees(
    rev: Seq<(Seq<char>, Seq<char>)>,
    salt: Seq<u8>,
    tag: Seq<char>,
    original: Seq<char>,
) -> bool {
    mapped(rev, placeholder(salt, tag, original)) matches Some(known) ==> known == original
}

/// Whether no match of some rules shares its placeholder with another text.
pub open spec fn rules_agree(
    red: RedactorView,
    text: Seq<char>,
    rules: Seq<RuleView>,
    rev: Seq<(Seq<char>, Seq<char>)>,
) -> bool
    decreases rules.len(),
{
    rules.len() > 0 ==> {
        let before = rule_passes(red, text, rules.drop_last()).1;
        let spans = regex_matches(rules.last().pattern, before);
        &&& rules_agree(red, text, rules.drop_last(), rev)
        &&& forall|k: int|
            0 <= k < spans.len() ==> agrees(
                rev,
                red.salt,
                rules.last().tag,
                before.subrange((#[trigger] spans[k]).0, spans[k].1),
            )
    }
}

/// Whether no two originals of a redaction share a placeholder, and none shares
/// it with one that was known before.
pub open spec fn no_clash(
    red: RedactorView,
    text: Seq<char>,
    mode: RedactMode,
    extra_terms: Seq<Seq<char>>,
) -> bool {
    let rev = redaction(red, text, mode, extra_terms).0.rev;
    let terms = red.state.custom_terms + extra_terms;
    &&& rules_agree(red, text, mode_rules(mode), rev)
    &&& forall|i: int|
        0 <= i < terms.len() ==> agrees(rev, red.salt, "CUSTOM"@, #[trigger] terms[i])
}

proof fn lemma_with_new_mapping(
    rev: Seq<(Seq<char>, Seq<char>)>,
    ph: Seq<char>,
    original: Seq<char>,
)
    requires
        forall|k: int| 0 <= k < rev.len() ==> (#[trigger] rev[k]).0 != ph,
    ensures
        with_mapping(rev, ph, original) == rev.push((ph, original)),
    decreases rev.len(),
{
    if rev.len() == 0 {
        assert(with_mapping(rev, ph, original) =~= rev.push((ph, original)));
    } else {
        let rest = rev.skip(1);
        assert forall|k: int| 0 <= k < rest.len() implies (#[trigger] rest[k]).0 != ph by {
            assert(rest[k] == rev[k + 1]);
        }
        lemma_with_new_mapping(rest, ph, original);
        assert(rev[0].0 != ph);
        assert(with_mapping(rev, ph, original) =~= rev.push((ph, original)));
    }
}

proof fn lemma_unmapped(rev: Seq<(Seq<char>, Seq<char>)>, ph: Seq<char>)
    requires
        mapped(rev, ph) is None,
    ensures
        forall|k: int| 0 <= k < rev.len() ==> (#[trigger] rev[k]).0 != ph,
    decreases rev.len(),
{
    if rev.len() > 0 {
        let fore = rev.drop_last();
        lemma_unmapped(fore, ph);
        assert forall|k: int| 0 <= k < rev.len() implies (#[trigger] rev[k]).0 != ph by {
            if k < fore.len() {
                assert(fore[k] == rev[k]);
            }
        }
    }
}

proof fn lemma_mapped_stands(rev: Seq<(Seq<char>, Seq<char>)>, ph: Seq<char>)
    requires
        mapped(rev, ph) is Some,
    ensures
        rev.contains((ph, mapped(rev, ph)->0)),
    decreases rev.len(),
{
    if rev.last().0 == ph {
        assert(rev[rev.len() - 1] == (ph, mapped(rev, ph)->0));
    } else {
        let fore = rev.drop_last();
        lemma_mapped_stands(fore, ph);
        let k = choose|k: int| 0 <= k < fore.len() && fore[k] == (ph, mapped(rev, ph)->0);
        assert(rev[k] == fore[k]);
    }
}

/// What is known stays known.
proof fn lemma_stays_mapped(
    earlier: Seq<(Seq<char>, Seq<char>)>,
    later: Seq<(Seq<char>, Seq<char>)>,
    ph: Seq<char>,
)
    requires
        earlier.is_prefix_of(later),
        mapped(earlier, ph) is Some,
    ensures
        mapped(later, ph) is Some,
{
    lemma_mapped_stands(earlier, ph);
    let k = choose|k: int| 0 <= k < earlier.len() && earlier[k] == (ph, mapped(earlier, ph)->0);
    assert(later[k] == earlier[k]);
    if mapped(later, ph) is None {
        lemma_unmapped(later, ph);
    }
}

/// Whether a redactor goes by its entries alone.
pub open spec fn in_step(red: RedactorView) -> bool {
    red.rev == mapping_of(red.state.entries)
}

/// Whether a redactor knows all that another knows, and in the same way.
pub open spec fn extends(later: RedactorView, earlier: RedactorView) -> bool {
    &&& later.salt == earlier.salt
    &&& earlier.rev.is_prefix_of(later.rev)
    &&& earlier.state.entries.is_prefix_of(later.state.entries)
}

proof fn lemma_upserted_in_step(
    red: RedactorView,
    ph: Seq<char>,
    original: Seq<char>,
    kind: RedactionKind,
)
    ensures
        in_step(red) ==> in_step(upserted(red, ph, original, kind)),
        extends(upserted(red, ph, original, kind), red),
        sound(red.rev) && is_mark(ph) ==> sound(upserted(red, ph, original, kind).rev),
        mapped(upserted(red, ph, original, kind).rev, ph) is Some,
{
    let after = upserted(red, ph, original, kind);
    if mapped(red.rev, ph) is None {
        lemma_unmapped(red.rev, ph);
        lemma_with_new_mapping(red.rev, ph, original);
        assert(after.state.entries.drop_last() =~= red.state.entries);
    }
}

proof fn lemma_extends(a: RedactorView, b: RedactorView, c: RedactorView)
    requires
        extends(b, a),
        extends(c, b),
    ensures
        extends(c, a),
{
    assert forall|i: int| 0 <= i < a.rev.len() implies #[trigger] a.rev[i] == c.rev[i] by {
        assert(a.rev[i] == b.rev[i]);
    }
    assert(a.rev =~= c.rev.subrange(0, a.rev.len() as int));
    assert forall|i: int| 0 <= i < a.state.entries.len() implies #[trigger] a.state.entries[i]
        == c.state.entries[i] by {
        assert(a.state.entries[i] == b.state.entries[i]);
    }
    assert(a.state.entries =~= c.state.entries.subrange(0, a.state.entries.len() as int));
}

proof fn lemma_rule_in_step(
    red: RedactorView,
    text: Seq<char>,
    rule: RuleView,
    spans: Seq<(int, int)>,
    k: int,
)
    ensures
        in_step(red) ==> in_step(red_after(red, text, rule, spans, k)),
        extends(red_after(red, text, rule, spans, k), red),
        sound(red.rev) && tag_is_clean(rule.tag) ==> sound(
            red_after(red, text, rule, spans, k).rev,
        ),
        forall|m: int|
            0 <= m < k ==> mapped(
                red_after(red, text, rule, spans, k).rev,
                placeholder(red.salt, rule.tag, text.subrange((#[trigger] spans[m]).0, spans[m].1)),
            ) is Some,
    decreases k,
{
    if k > 0 {
        lemma_rule_in_step(red, text, rule, spans, k - 1);
        let original = text.subrange(spans[k - 1].0, spans[k - 1].1);
        let ph = placeholder(red.salt, rule.tag, original);
        let before = red_after(red, text, rule, spans, k - 1);
        let after = red_after(red, text, rule, spans, k);
        if tag_is_clean(rule.tag) {
            law_placeholder_is_mark(red.salt, rule.tag, original);
        }
        lemma_upserted_in_step(before, ph, original, rule.kind);
        lemma_extends(red, before, after);
        assert forall|m: int| 0 <= m < k implies mapped(
            after.rev,
            placeholder(red.salt, rule.tag, text.subrange((#[trigger] spans[m]).0, spans[m].1)),
        ) is Some by {
            if m < k - 1 {
                lemma_stays_mapped(
                    before.rev,
                    after.rev,
                    placeholder(red.salt, rule.tag, text.subrange(spans[m].0, spans[m].1)),
                );
            }
        }
    }
}

/// Whether the tags of some rules hold no angle brackets.
spec fn tags_are_clean(rules: Seq<RuleView>) -> bool {
    forall|i: int| 0 <= i < rules.len() ==> tag_is_clean((#[trigger] rules[i]).tag)
}

proof fn lemma_tags_are_clean(mode: RedactMode)
    ensures
        tags_are_clean(mode_rules(mode)),
        mode_rules(mode).len() <= mode_rules(RedactMode::Strict).len(),
{
    reveal_strlit("PRIVATE_KEY");
    reveal_strlit("API_KEY");
    reveal_strlit("EMAIL");
    reveal_strlit("PHONE");
    reveal_strlit("ETH_ADDR");
    reveal_strlit("URL");
    let rules = mode_rules(mode);
    assert forall|i: int| 0 <= i < rules.len() implies tag_is_clean((#[trigger] rules[i]).tag) by {
        let tag = rules[i].tag;
        assert(tag == "PRIVATE_KEY"@ || tag == "API_KEY"@ || tag == "EMAIL"@ || tag == "PHONE"@
            || tag == "ETH_ADDR"@ || tag == "URL"@);
    }
}

proof fn lemma_rules_in_step(red: RedactorView, text: Seq<char>, rules: Seq<RuleView>)
    ensures
        in_step(red) ==> in_step(rule_passes(red, text, rules).0),
        extends(rule_passes(red, text, rules).0, red),
        sound(red.rev) && tags_are_clean(rules) ==> sound(rule_passes(red, text, rules).0.rev),
    decreases rules.len(),
{
    if rules.len() > 0 {
        let fore = rules.drop_last();
        lemma_rules_in_step(red, text, fore);
        let before = rule_passes(red, text, fore);
        let spans = regex_matches(rules.last().pattern, before.1);
        if tags_are_clean(rules) {
            assert(tag_is_clean(rules[rules.len() - 1].tag));
            assert forall|i: int| 0 <= i < fore.len() implies tag_is_clean(
                (#[trigger] fore[i]).tag,
            ) by {
                assert(fore[i] == rules[i]);
            }
        }
        lemma_rule_in_step(before.0, before.1, rules.last(), spans, spans.len() as int);
        lemma_extends(red, before.0, rule_passes(red, text, rules).0);
    } else {
        assert(red.rev =~= red.rev.subrange(0, red.rev.len() as int));
        assert(red.state.entries =~= red.state.entries.subrange(
            0,
            red.state.entries.len() as int,
        ));
    }
}

proof fn lemma_terms_in_step(red: RedactorView, text: Seq<char>, terms: Seq<Seq<char>>)
    ensures
        in_step(red) ==> in_step(term_passes(red, text, terms).0),
        extends(term_passes(red, text, terms).0, red),
        sound(red.rev) ==> sound(term_passes(red, text, terms).0.rev),
    decreases terms.len(),
{
    if terms.len() > 0 {
        lemma_terms_in_step(red, text, terms.drop_last());
        let before = term_passes(red, text, terms.drop_last());
        reveal_strlit("CUSTOM");
        assert(tag_is_clean("CUSTOM"@));
        law_placeholder_is_mark(before.0.salt, "CUSTOM"@, terms.last());
        lemma_upserted_in_step(
            before.0,
            placeholder(before.0.salt, "CUSTOM"@, terms.last()),
            terms.last(),
            RedactionKind::Custom,
        );
        lemma_extends(red, before.0, term_passes(red, text, terms).0);
    } else {
        assert(red.rev =~= red.rev.subrange(0, red.rev.len() as int));
        assert(red.state.entries =~= red.state.entries.subrange(
            0,
            red.state.entries.len() as int,
        ));
    }
}

/// Redaction only adds to what a redactor knows, every new placeholder has the
/// shape of one and stands for one thing, and a redactor that is made again from
/// the entries it leaves behind knows the same.
pub proof fn law_redaction_keeps_what_is_known(
    red: RedactorView,
    text: Seq<char>,
    mode: RedactMode,
    extra_terms: Seq<Seq<char>>,
)
    ensures
        extends(redaction(red, text, mode, extra_terms).0, red),
        in_step(red) ==> in_step(redaction(red, text, mode, extra_terms).0),
        sound(red.rev) ==> sound(redaction(red, text, mode, extra_terms).0.rev),
{
    if mode != RedactMode::Off {
        lemma_tags_are_clean(mode);
        lemma_rules_in_step(red, text, mode_rules(mode));
        let ruled = rule_passes(red, text, mode_rules(mode));
        lemma_terms_in_step(ruled.0, ruled.1, red.state.custom_terms + extra_terms);
        lemma_extends(red, ruled.0, redaction(red, text, mode, extra_terms).0);
    } else {
        assert(red.rev =~= red.rev.subrange(0, red.rev.len() as int));
        assert(red.state.entries =~= red.state.entries.subrange(
            0,
            red.state.entries.len() as int,
        ));
    }
}

/// What a rule hid, whoever knows what the redactor knew then opens again.
proof fn lemma_rules_are_undone(
    red: RedactorView,
    text: Seq<char>,
    rules: Seq<RuleView>,
    rev: Seq<(Seq<char>, Seq<char>)>,
)
    requires
        sound(rev),
        rules_fit(red, text, rules),
        rules_agree(red, text, rules, rev),
        rule_passes(red, text, rules).0.rev.is_prefix_of(rev),
    ensures
        comes_to(rev, rule_passes(red, text, rules).1, text, rules.len()),
    decreases rules.len(),
{
    if rules.len() > 0 {
        let fore = rules.drop_last();
        let rule = rules.last();
        let before = rule_passes(red, text, fore);
        let after = rule_passes(red, text, rules);
        let spans = regex_matches(rule.pattern, before.1);
        let n = spans.len() as int;
        lemma_rule_in_step(before.0, before.1, rule, spans, n);
        crate::redaction::law_rules_keep_salt_and_terms(red, text, fore);
        assert(before.0.rev.is_prefix_of(rev)) by {
            assert forall|i: int| 0 <= i < before.0.rev.len() implies #[trigger] before.0.rev[i]
                == rev[i] by {
                assert(before.0.rev[i] == after.0.rev[i]);
            }
            assert(before.0.rev =~= rev.subrange(0, before.0.rev.len() as int));
        }
        lemma_rules_are_undone(red, text, fore, rev);
        assert forall|m: int| 0 <= m < spans.len() implies rev.contains(
            (
                placeholder(
                    red.salt,
                    rule.tag,
                    before.1.subrange((#[trigger] spans[m]).0, spans[m].1),
                ),
                before.1.subrange(spans[m].0, spans[m].1),
            ),
        ) by {
            let original = before.1.subrange(spans[m].0, spans[m].1);
            let ph = placeholder(red.salt, rule.tag, original);
            assert(mapped(after.0.rev, ph) is Some);
            lemma_stays_mapped(after.0.rev, rev, ph);
            assert(agrees(rev, red.salt, rule.tag, original));
            lemma_mapped_stands(rev, ph);
        }
        let end = spans_end(spans, n);
        let tail = before.1.skip(end);
        lemma_opens_nothing(rev, tail);
        lemma_masked_opens(rev, red.salt, before.1, rule, spans, n, tail, tail);
        if n > 0 {
            assert(spans[n - 1].1 <= before.1.len());
        }
        assert(before.1.take(end) + tail =~= before.1);
        assert(opens(rev, after.1, before.1));
    }
}

/// A pass of a term is undone by opening its placeholder.
proof fn lemma_term_is_undone(
    salt: Seq<u8>,
    text: Seq<char>,
    term: Seq<char>,
    rev: Seq<(Seq<char>, Seq<char>)>,
)
    requires
        sound(rev),
        term.len() > 0,
        rev.contains((placeholder(salt, "CUSTOM"@, term), term)),
    ensures
        opens(rev, substituted(text, term, placeholder(salt, "CUSTOM"@, term)), text),
{
    let rule = custom_rule();
    let spans = term_spans(text, term, 0);
    let n = spans.len() as int;
    let ph = placeholder(salt, "CUSTOM"@, term);
    lemma_term_spans(text, term, 0);
    lemma_replaced_is_masked(text, term, ph, 0, 0);
    assert(text.skip(0) =~= text);
    assert(text.subrange(0, 0) + replaced(text, term, ph) =~= replaced(text, term, ph));
    lemma_masked_is_masked_from(salt, text, rule, spans, term, n);
    assert(spans.skip(n) =~= Seq::empty());
    let end = spans_end(spans, n);
    let tail = text.skip(end);
    lemma_opens_nothing(rev, tail);
    lemma_masked_opens(rev, salt, text, rule, spans, n, tail, tail);
    if n > 0 {
        assert(spans[n - 1].1 <= text.len());
    }
    assert(text.take(end) + tail =~= text);
}

proof fn lemma_terms_are_undone(
    red: RedactorView,
    text: Seq<char>,
    terms: Seq<Seq<char>>,
    rev: Seq<(Seq<char>, Seq<char>)>,
    goal: Seq<char>,
    n: nat,
)
    requires
        sound(rev),
        forall|i: int|
            0 <= i < terms.len() ==> agrees(rev, red.salt, "CUSTOM"@, #[trigger] terms[i]),
        term_passes(red, text, terms).0.rev.is_prefix_of(rev),
        comes_to(rev, text, goal, n),
    ensures
        comes_to(rev, term_passes(red, text, terms).1, goal, n + terms.len()),
        term_passes(red, text, terms).0.salt == red.salt,
    decreases terms.len(),
{
    if terms.len() > 0 {
        let fore = terms.drop_last();
        let term = terms.last();
        let before = term_passes(red, text, fore);
        let after = term_passes(red, text, terms);
        lemma_terms_in_step(red, text, fore);
        let ph = placeholder(before.0.salt, "CUSTOM"@, term);
        lemma_upserted_in_step(before.0, ph, term, RedactionKind::Custom);
        assert(before.0.rev.is_prefix_of(rev)) by {
            assert forall|i: int| 0 <= i < before.0.rev.len() implies #[trigger] before.0.rev[i]
                == rev[i] by {
                assert(before.0.rev[i] == after.0.rev[i]);
            }
            assert(before.0.rev =~= rev.subrange(0, before.0.rev.len() as int));
        }
        assert forall|i: int| 0 <= i < fore.len() implies agrees(
            rev,
            red.salt,
            "CUSTOM"@,
            #[trigger] fore[i],
        ) by {
            assert(fore[i] == terms[i]);
        }
        lemma_terms_are_undone(red, text, fore, rev, goal, n);
        if text::trimmed(term).len() > 0 && occurs(before.1, term) {
            lemma_trimmed_nonempty(term);
            assert(terms[terms.len() - 1] == term);
            assert(agrees(rev, red.salt, "CUSTOM"@, term));
            lemma_stays_mapped(after.0.rev, rev, ph);
            lemma_mapped_stands(rev, ph);
            lemma_term_is_undone(red.salt, before.1, term, rev);
        } else {
            lemma_opens_nothing(rev, before.1);
        }
        assert(opens(rev, after.1, before.1));
    }
}

/// What is redacted comes back: rehydrating a redacted text gives the text, also
/// where a pass hides or cuts through the placeholder of an earlier one. No two
/// originals may share a placeholder, and the text may hold none of its own; a
/// text without an opening angle bracket holds none.
pub proof fn law_redacted_text_comes_back(
    red: RedactorView,
    text: Seq<char>,
    mode: RedactMode,
    extra_terms: Seq<Seq<char>>,
)
    requires
        sound(red.rev),
        rules_fit(red, text, mode_rules(mode)),
        no_clash(red, text, mode, extra_terms),
        holds_none(text, redaction(red, text, mode, extra_terms).0.rev),
    ensures
        rehydrated(
            redaction(red, text, mode, extra_terms).0,
            redaction(red, text, mode, extra_terms).1,
        ) == text,
{
    let after = redaction(red, text, mode, extra_terms);
    let rev = after.0.rev;
    law_redaction_keeps_what_is_known(red, text, mode, extra_terms);
    if mode == RedactMode::Off {
        assert(comes_to(rev, text, text, 0));
        law_rehydration_reaches_the_end(after.0, text, text, 0);
    } else {
        let rules = mode_rules(mode);
        let custom = red.state.custom_terms;
        let terms = custom + extra_terms;
        let ruled = rule_passes(red, text, rules);
        lemma_tags_are_clean(mode);
        lemma_terms_in_step(ruled.0, ruled.1, terms);
        crate::redaction::law_rules_keep_salt_and_terms(red, text, rules);
        lemma_rules_are_undone(red, text, rules, rev);
        lemma_terms_keep_terms(ruled.0, ruled.1, terms);
        assert(rev.is_prefix_of(rev)) by {
            assert(rev =~= rev.subrange(0, rev.len() as int));
        }
        lemma_terms_are_undone(ruled.0, ruled.1, terms, rev, text, rules.len());
        law_rehydration_reaches_the_end(after.0, after.1, text, rules.len() + terms.len());
    }
}

proof fn lemma_terms_keep_terms(red: RedactorView, text: Seq<char>, terms: Seq<Seq<char>>)
    ensures
        term_passes(red, text, terms).0.state.custom_terms == red.state.custom_terms,
    decreases terms.len(),
{
    if terms.len() > 0 {
        lemma_terms_keep_terms(red, text, terms.drop_last());
    }
}

proof fn lemma_rule_again(
    red: RedactorView,
    later: RedactorView,
    text: Seq<char>,
    rule: RuleView,
    spans: Seq<(int, int)>,
    k: int,
)
    requires
        later.salt == red.salt,
        red_after(red, text, rule, spans, k).rev.is_prefix_of(later.rev),
    ensures
        red_after(later, text, rule, spans, k) == later,
    decreases k,
{
    if k > 0 {
        let before = red_after(red, text, rule, spans, k - 1);
        let after = red_after(red, text, rule, spans, k);
        let original = text.subrange(spans[k - 1].0, spans[k - 1].1);
        let ph = placeholder(red.salt, rule.tag, original);
        lemma_upserted_in_step(before, ph, original, rule.kind);
        assert(before.rev.is_prefix_of(later.rev)) by {
            assert forall|i: int| 0 <= i < before.rev.len() implies #[trigger] before.rev[i]
                == later.rev[i] by {
                assert(before.rev[i] == after.rev[i]);
            }
            assert(before.rev =~= later.rev.subrange(0, before.rev.len() as int));
        }
        lemma_rule_again(red, later, text, rule, spans, k - 1);
        lemma_stays_mapped(after.rev, later.rev, ph);
    }
}

proof fn lemma_rules_again(
    red: RedactorView,
    later: RedactorView,
    text: Seq<char>,
    rules: Seq<RuleView>,
)
    requires
        later.salt == red.salt,
        rule_passes(red, text, rules).0.rev.is_prefix_of(later.rev),
    ensures
        rule_passes(later, text, rules) == (later, rule_passes(red, text, rules).1),
    decreases rules.len(),
{
    if rules.len() > 0 {
        let fore = rules.drop_last();
        let before = rule_passes(red, text, fore);
        let after = rule_passes(red, text, rules);
        let spans = regex_matches(rules.last().pattern, before.1);
        let n = spans.len() as int;
        lemma_rule_in_step(before.0, before.1, rules.last(), spans, n);
        crate::redaction::law_rules_keep_salt_and_terms(red, text, fore);
        assert(before.0.rev.is_prefix_of(later.rev)) by {
            assert forall|i: int| 0 <= i < before.0.rev.len() implies #[trigger] before.0.rev[i]
                == later.rev[i] by {
                assert(before.0.rev[i] == after.0.rev[i]);
            }
            assert(before.0.rev =~= later.rev.subrange(0, before.0.rev.len() as int));
        }
        lemma_rules_again(red, later, text, fore);
        lemma_rule_again(before.0, later, before.1, rules.last(), spans, n);
    }
}

proof fn lemma_terms_again(
    red: RedactorView,
    later: RedactorView,
    text: Seq<char>,
    terms: Seq<Seq<char>>,
)
    requires
        later.salt == red.salt,
        term_passes(red, text, terms).0.rev.is_prefix_of(later.rev),
    ensures
        term_passes(later, text, terms) == (later, term_passes(red, text, terms).1),
        term_passes(red, text, terms).0.salt == red.salt,
    decreases terms.len(),
{
    if terms.len() > 0 {
        let fore = terms.drop_last();
        let term = terms.last();
        let before = term_passes(red, text, fore);
        let after = term_passes(red, text, terms);
        let ph = placeholder(before.0.salt, "CUSTOM"@, term);
        lemma_upserted_in_step(before.0, ph, term, RedactionKind::Custom);
        assert(before.0.rev.is_prefix_of(later.rev)) by {
            assert forall|i: int| 0 <= i < before.0.rev.len() implies #[trigger] before.0.rev[i]
                == later.rev[i] by {
                assert(before.0.rev[i] == after.0.rev[i]);
            }
            assert(before.0.rev =~= later.rev.subrange(0, before.0.rev.len() as int));
        }
        lemma_terms_again(red, later, text, fore);
        if text::trimmed(term).len() > 0 && occurs(before.1, term) {
            lemma_stays_mapped(after.0.rev, later.rev, ph);
        }
    }
}

/// Redaction is deterministic: redacting a text again gives the same text, and a
/// redactor learns nothing from it.
pub proof fn law_redaction_is_deterministic(
    red: RedactorView,
    text: Seq<char>,
    mode: RedactMode,
    extra_terms: Seq<Seq<char>>,
)
    ensures
        redaction(redaction(red, text, mode, extra_terms).0, text, mode, extra_terms) == redaction(
            red,
            text,
            mode,
            extra_terms,
        ),
{
    if mode != RedactMode::Off {
        let rules = mode_rules(mode);
        let terms = red.state.custom_terms + extra_terms;
        let ruled = rule_passes(red, text, rules);
        let out = term_passes(ruled.0, ruled.1, terms);
        let after = redaction(red, text, mode, extra_terms).0;
        crate::redaction::law_rules_keep_salt_and_terms(red, text, rules);
        lemma_terms_keep_terms(ruled.0, ruled.1, terms);
        lemma_terms_in_step(ruled.0, ruled.1, terms);
        assert(out.0.rev.is_prefix_of(after.rev)) by {
            assert(out.0.rev =~= after.rev.subrange(0, out.0.rev.len() as int));
        }
        lemma_terms_again(ruled.0, after, ruled.1, terms);
        lemma_rules_again(red, after, text, rules);
    }
}

} // verus!
