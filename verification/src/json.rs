//! JSON values, their canonical form and their text.

use vstd::prelude::*;
use vstd::string::*;

use crate::text;
use crate::text::text_order;

verus! {

/// A JSON number as `serde_json` holds it.
#[verifier::external_type_specification]
#[verifier::external_body]
pub struct ExNumber(serde_json::Number);

/// A JSON value as `serde_json` holds it.
#[verifier::external_type_specification]
#[verifier::external_body]
pub struct ExValue(serde_json::Value);

/// The error of the JSON reader and writer.
#[verifier::external_type_specification]
#[verifier::external_body]
pub struct ExJsonError(serde_json::Error);

/// A JSON value.
///
/// The members of an object stand in the order in which they were given. Where
/// a key is given more than once, the last one counts.
pub enum Json {
    Null,
    Bool(bool),
    Number(serde_json::Number),
    Text(String),
    List(Vec<Json>),
    Fields(Vec<(String, Json)>),
}

/// What a JSON value holds.
pub enum JsonTree {
    Null,
    Bool(bool),
    Number(serde_json::Number),
    Text(Seq<char>),
    List(Seq<JsonTree>),
    Fields(Seq<(Seq<char>, JsonTree)>),
}

impl Json {
    /// What the value holds.
    pub open spec fn tree(&self) -> JsonTree
        decreases self,
    {
        match self {
            Json::Null => JsonTree::Null,
            Json::Bool(b) => JsonTree::Bool(*b),
            Json::Number(n) => JsonTree::Number(*n),
            Json::Text(s) => JsonTree::Text(s@),
            Json::List(v) => JsonTree::List(
                Seq::new(
                    v@.len(),
                    |i: int|
                        if 0 <= i < v@.len() {
                            v@[i].tree()
                        } else {
                            JsonTree::Null
                        },
                ),
            ),
            Json::Fields(v) => JsonTree::Fields(
                Seq::new(
                    v@.len(),
                    |i: int|
                        if 0 <= i < v@.len() {
                            (v@[i].0@, v@[i].1.tree())
                        } else {
                            (Seq::empty(), JsonTree::Null)
                        },
                ),
            ),
        }
    }
}

/// The trees of a list of values.
pub open spec fn trees(values: Seq<Json>) -> Seq<JsonTree> {
    Seq::new(values.len(), |i: int| values[i].tree())
}

/// The members of an object by what they hold.
pub open spec fn members(fields: Seq<(String, Json)>) -> Seq<(Seq<char>, JsonTree)> {
    Seq::new(fields.len(), |i: int| (fields[i].0@, fields[i].1.tree()))
}

/// A list holds the trees of its values.
pub proof fn law_list_tree(list: Vec<Json>)
    ensures
        Json::List(list).tree() == JsonTree::List(trees(list@)),
{
    assert(Json::List(list).tree()->List_0 =~= trees(list@));
}

/// An object holds its members.
pub proof fn law_fields_tree(fields: Vec<(String, Json)>)
    ensures
        Json::Fields(fields).tree() == JsonTree::Fields(members(fields@)),
{
    assert(Json::Fields(fields).tree()->Fields_0 =~= members(fields@));
}

/// How many leading members of `fields` come before `key`.
pub open spec fn place(fields: Seq<(Seq<char>, JsonTree)>, key: Seq<char>) -> nat
    decreases fields.len(),
{
    if fields.len() > 0 && text_order(fields[0].0, key) {
        1 + place(fields.skip(1), key)
    } else {
        0
    }
}

/// Ordered members after `key` has been set to `value`.
pub open spec fn put(
    fields: Seq<(Seq<char>, JsonTree)>,
    key: Seq<char>,
    value: JsonTree,
) -> Seq<(Seq<char>, JsonTree)> {
    let i = place(fields, key) as int;
    if i < fields.len() && fields[i].0 == key {
        fields.update(i, (key, value))
    } else {
        fields.insert(i, (key, value))
    }
}

/// The members in the order of their keys, each key once, with its last value.
pub open spec fn arranged(fields: Seq<(Seq<char>, JsonTree)>) -> Seq<(Seq<char>, JsonTree)>
    decreases fields.len(),
{
    if fields.len() == 0 {
        Seq::empty()
    } else {
        put(arranged(fields.drop_last()), fields.last().0, fields.last().1)
    }
}

/// The value with the members of every object arranged.
pub open spec fn canonical(tree: JsonTree) -> JsonTree
    decreases tree,
{
    match tree {
        JsonTree::List(v) => JsonTree::List(canonical_list(v)),
        JsonTree::Fields(f) => JsonTree::Fields(arranged(canonical_members(f))),
        _ => tree,
    }
}

/// The canonical forms of some values.
pub open spec fn canonical_list(v: Seq<JsonTree>) -> Seq<JsonTree>
    decreases v,
{
    if v.len() == 0 {
        Seq::empty()
    } else {
        canonical_list(v.drop_last()).push(canonical(v.last()))
    }
}

/// The members with their values in canonical form.
pub open spec fn canonical_members(f: Seq<(Seq<char>, JsonTree)>) -> Seq<(Seq<char>, JsonTree)>
    decreases f,
{
    if f.len() == 0 {
        Seq::empty()
    } else {
        canonical_members(f.drop_last()).push((f.last().0, canonical(f.last().1)))
    }
}

proof fn lemma_canonical_list(v: Seq<JsonTree>)
    ensures
        canonical_list(v).len() == v.len(),
        forall|i: int| 0 <= i < v.len() ==> canonical_list(v)[i] == canonical(#[trigger] v[i]),
    decreases v.len(),
{
    if v.len() > 0 {
        lemma_canonical_list(v.drop_last());
        assert forall|i: int| 0 <= i < v.len() implies canonical_list(v)[i] == canonical(
            #[trigger] v[i],
        ) by {
            if i < v.len() - 1 {
                assert(v.drop_last()[i] == v[i]);
            }
        }
    }
}

proof fn lemma_canonical_members(f: Seq<(Seq<char>, JsonTree)>)
    ensures
        canonical_members(f).len() == f.len(),
        forall|i: int|
            0 <= i < f.len() ==> canonical_members(f)[i] == ((#[trigger] f[i]).0, canonical(f[i].1)),
    decreases f.len(),
{
    if f.len() > 0 {
        lemma_canonical_members(f.drop_last());
        assert forall|i: int| 0 <= i < f.len() implies canonical_members(f)[i] == (
            (#[trigger] f[i]).0,
            canonical(f[i].1),
        ) by {
            if i < f.len() - 1 {
                assert(f.drop_last()[i] == f[i]);
            }
        }
    }
}

/// Sets `key` to `value` among ordered members.
pub fn put_field(fields: &mut Vec<(String, Json)>, key: String, value: Json)
    ensures
        members(final(fields)@) == put(members(old(fields)@), key@, value.tree()),
{
    let mut i: usize = 0;
    let ghost all = members(fields@);
    proof {
        assert(all.skip(0) =~= all);
    }
    while i < fields.len() && text::text_before(fields[i].0.as_str(), key.as_str())
        invariant
            i <= fields@.len(),
            all == members(fields@),
            place(all, key@) == i + place(all.skip(i as int), key@),
        decreases fields@.len() - i,
    {
        proof {
            assert(all.skip(i as int)[0] == all[i as int]);
            assert(all.skip(i as int).skip(1) =~= all.skip(i + 1));
        }
        i += 1;
    }
    proof {
        if i < all.len() {
            assert(all.skip(i as int)[0] == all[i as int]);
        }
    }
    if i < fields.len() && text::text_eq(fields[i].0.as_str(), key.as_str()) {
        proof {
            assert(members(fields@.update(i as int, (key, value))) =~= all.update(
                i as int,
                (key@, value.tree()),
            ));
        }
        fields.set(i, (key, value));
    } else {
        proof {
            assert(members(fields@.insert(i as int, (key, value))) =~= all.insert(
                i as int,
                (key@, value.tree()),
            ));
        }
        fields.insert(i, (key, value));
    }
}

/// Whether the keys stand in strictly increasing order.
pub open spec fn sorted(fields: Seq<(Seq<char>, JsonTree)>) -> bool {
    forall|i: int, j: int|
        0 <= i < j < fields.len() ==> text_order((#[trigger] fields[i]).0, (#[trigger] fields[j]).0)
}

/// The last value that is given for a key.
pub open spec fn member(fields: Seq<(Seq<char>, JsonTree)>, key: Seq<char>) -> Option<JsonTree>
    decreases fields.len(),
{
    if fields.len() == 0 {
        None
    } else if fields.last().0 == key {
        Some(fields.last().1)
    } else {
        member(fields.drop_last(), key)
    }
}

/// Whether every object in the value has its keys in strictly increasing order.
pub open spec fn ordered(tree: JsonTree) -> bool
    decreases tree,
{
    match tree {
        JsonTree::List(v) => forall|i: int| 0 <= i < v.len() ==> ordered(#[trigger] v[i]),
        JsonTree::Fields(f) => {
            &&& sorted(f)
            &&& forall|i: int| 0 <= i < f.len() ==> ordered((#[trigger] f[i]).1)
        },
        _ => true,
    }
}

proof fn lemma_place(fields: Seq<(Seq<char>, JsonTree)>, key: Seq<char>)
    ensures
        place(fields, key) <= fields.len(),
        forall|i: int| 0 <= i < place(fields, key) ==> text_order((#[trigger] fields[i]).0, key),
        place(fields, key) < fields.len() ==> !text_order(
            fields[place(fields, key) as int].0,
            key,
        ),
    decreases fields.len(),
{
    if fields.len() > 0 && text_order(fields[0].0, key) {
        let rest = fields.skip(1);
        lemma_place(rest, key);
        assert forall|i: int| 0 <= i < place(fields, key) implies text_order(
            (#[trigger] fields[i]).0,
            key,
        ) by {
            if i > 0 {
                assert(rest[i - 1] == fields[i]);
            }
        }
    }
}

proof fn lemma_put_sorted(fields: Seq<(Seq<char>, JsonTree)>, key: Seq<char>, value: JsonTree)
    requires
        sorted(fields),
    ensures
        sorted(put(fields, key, value)),
{
    lemma_place(fields, key);
    let p = place(fields, key) as int;
    let out = put(fields, key, value);
    assert forall|i: int, j: int| 0 <= i < j < out.len() implies text_order(
        (#[trigger] out[i]).0,
        (#[trigger] out[j]).0,
    ) by {
        if p < fields.len() {
            text::law_text_order(fields[p].0, key, key);
        }
        if p < fields.len() && fields[p].0 == key {
            assert(out[i].0 == fields[i].0);
            assert(out[j].0 == fields[j].0);
        } else {
            let a = if i < p { i } else { i - 1 };
            let b = if j < p { j } else { j - 1 };
            if i != p && j != p {
                assert(out[i] == fields[a] && out[j] == fields[b]);
            } else if i == p {
                assert(out[j] == fields[b]);
                if b > p {
                    text::law_text_order(key, fields[p].0, fields[b].0);
                }
            } else {
                assert(out[i] == fields[i]);
            }
        }
    }
}

/// Arranged members are sorted.
pub proof fn law_arranged_is_sorted(fields: Seq<(Seq<char>, JsonTree)>)
    ensures
        sorted(arranged(fields)),
    decreases fields.len(),
{
    if fields.len() > 0 {
        law_arranged_is_sorted(fields.drop_last());
        lemma_put_sorted(arranged(fields.drop_last()), fields.last().0, fields.last().1);
    }
}

proof fn lemma_member_at(fields: Seq<(Seq<char>, JsonTree)>, i: int)
    requires
        sorted(fields),
        0 <= i < fields.len(),
    ensures
        member(fields, fields[i].0) == Some(fields[i].1),
    decreases fields.len(),
{
    if i < fields.len() - 1 {
        let front = fields.drop_last();
        assert(front[i] == fields[i]);
        text::law_text_order(fields[i].0, fields.last().0, fields[i].0);
        assert forall|a: int, b: int| 0 <= a < b < front.len() implies text_order(
            (#[trigger] front[a]).0,
            (#[trigger] front[b]).0,
        ) by {
            assert(front[a] == fields[a] && front[b] == fields[b]);
        }
        lemma_member_at(front, i);
    }
}

proof fn lemma_member_absent(fields: Seq<(Seq<char>, JsonTree)>, key: Seq<char>)
    ensures
        member(fields, key) is None <==> forall|i: int|
            0 <= i < fields.len() ==> (#[trigger] fields[i]).0 != key,
    decreases fields.len(),
{
    if fields.len() > 0 && fields.last().0 != key {
        let front = fields.drop_last();
        lemma_member_absent(front, key);
        if forall|i: int| 0 <= i < front.len() ==> (#[trigger] front[i]).0 != key {
            assert forall|i: int| 0 <= i < fields.len() implies (#[trigger] fields[i]).0 != key by {
                if i < front.len() {
                    assert(front[i] == fields[i]);
                }
            }
        } else {
            let i = choose|i: int| 0 <= i < front.len() && (#[trigger] front[i]).0 == key;
            assert(fields[i] == front[i]);
        }
    } else if fields.len() > 0 {
        assert(fields[fields.len() - 1].0 == key);
    }
}

proof fn lemma_put_member(
    fields: Seq<(Seq<char>, JsonTree)>,
    key: Seq<char>,
    value: JsonTree,
    other: Seq<char>,
)
    requires
        sorted(fields),
    ensures
        member(put(fields, key, value), other) == if other == key {
            Some(value)
        } else {
            member(fields, other)
        },
{
    lemma_place(fields, key);
    lemma_put_sorted(fields, key, value);
    let p = place(fields, key) as int;
    let out = put(fields, key, value);
    assert(out[p] == (key, value));
    if other == key {
        lemma_member_at(out, p);
    } else {
        lemma_member_absent(fields, other);
        lemma_member_absent(out, other);
        let replaces = p < fields.len() && fields[p].0 == key;
        if member(fields, other) is Some {
            let i = choose|i: int| 0 <= i < fields.len() && (#[trigger] fields[i]).0 == other;
            lemma_member_at(fields, i);
            let j = if replaces || i < p { i } else { i + 1 };
            assert(out[j] == fields[i]);
            lemma_member_at(out, j);
        } else {
            assert forall|j: int| 0 <= j < out.len() implies (#[trigger] out[j]).0 != other by {
                if j != p {
                    let i = if replaces || j < p { j } else { j - 1 };
                    assert(out[j] == fields[i]);
                }
            }
        }
    }
}

/// Arranging keeps the value of every key.
pub proof fn law_arranged_keeps_members(fields: Seq<(Seq<char>, JsonTree)>, key: Seq<char>)
    ensures
        member(arranged(fields), key) == member(fields, key),
    decreases fields.len(),
{
    if fields.len() > 0 {
        let front = fields.drop_last();
        law_arranged_keeps_members(front, key);
        law_arranged_is_sorted(front);
        lemma_put_member(arranged(front), fields.last().0, fields.last().1, key);
    }
}

/// Sorted members are determined by the values of their keys.
pub proof fn law_sorted_members_are_unique(
    f: Seq<(Seq<char>, JsonTree)>,
    g: Seq<(Seq<char>, JsonTree)>,
)
    requires
        sorted(f),
        sorted(g),
        forall|k: Seq<char>| #[trigger] member(f, k) == member(g, k),
    ensures
        f == g,
    decreases f.len(),
{
    if f.len() == 0 {
        if g.len() > 0 {
            lemma_member_at(g, 0);
            assert(member(f, g[0].0) == member(g, g[0].0));
        }
        assert(f =~= g);
    } else {
        let k = f.last().0;
        lemma_member_at(f, f.len() - 1);
        assert(member(g, k) == Some(f.last().1));
        lemma_member_absent(g, k);
        let j = choose|j: int| 0 <= j < g.len() && (#[trigger] g[j]).0 == k;
        lemma_member_at(g, j);
        if j < g.len() - 1 {
            let k2 = g.last().0;
            lemma_member_at(g, g.len() - 1);
            assert(member(f, k2) == member(g, k2));
            lemma_member_absent(f, k2);
            let i = choose|i: int| 0 <= i < f.len() && (#[trigger] f[i]).0 == k2;
            assert(text_order(g[j].0, g[g.len() - 1].0));
            text::law_text_order(k, k2, k);
            if i < f.len() - 1 {
                assert(text_order(f[i].0, f[f.len() - 1].0));
            }
        }
        let ff = f.drop_last();
        let gg = g.drop_last();
        lemma_front_sorted(f);
        lemma_front_sorted(g);
        assert forall|q: Seq<char>| #[trigger] member(ff, q) == member(gg, q) by {
            assert(member(f, q) == member(g, q));
            if q == k {
                lemma_member_absent(ff, k);
                lemma_member_absent(gg, k);
            }
        }
        law_sorted_members_are_unique(ff, gg);
        assert(f =~= ff.push(f.last()));
        assert(g =~= gg.push(g.last()));
    }
}

proof fn lemma_front_sorted(f: Seq<(Seq<char>, JsonTree)>)
    requires
        sorted(f),
        f.len() > 0,
    ensures
        sorted(f.drop_last()),
        forall|i: int| 0 <= i < f.len() - 1 ==> (#[trigger] f.drop_last()[i]).0 != f.last().0,
{
    let front = f.drop_last();
    assert forall|a: int, b: int| 0 <= a < b < front.len() implies text_order(
        (#[trigger] front[a]).0,
        (#[trigger] front[b]).0,
    ) by {
        assert(front[a] == f[a] && front[b] == f[b]);
    }
    assert forall|i: int| 0 <= i < f.len() - 1 implies (#[trigger] front[i]).0 != f.last().0 by {
        assert(text_order(f[i].0, f[f.len() - 1].0));
        text::law_text_order(f[i].0, f.last().0, f[i].0);
    }
}

/// Whether two values hold the same members, in any order, at every depth.
pub open spec fn same_json(a: JsonTree, b: JsonTree) -> bool
    decreases a,
{
    match (a, b) {
        (JsonTree::List(v), JsonTree::List(w)) => {
            &&& v.len() == w.len()
            &&& forall|i: int| 0 <= i < v.len() ==> same_json(#[trigger] v[i], w[i])
        },
        (JsonTree::Fields(f), JsonTree::Fields(g)) => {
            &&& forall|k: Seq<char>| #[trigger] member(f, k) is Some <==> member(g, k) is Some
            &&& forall|i: int, j: int|
                0 <= i < f.len() && 0 <= j < g.len() && (#[trigger] f[i]).0 == (#[trigger] g[j]).0
                    ==> same_json(f[i].1, g[j].1)
        },
        _ => a == b,
    }
}

proof fn lemma_member_stands(fields: Seq<(Seq<char>, JsonTree)>, key: Seq<char>) -> (i: int)
    requires
        member(fields, key) is Some,
    ensures
        0 <= i < fields.len(),
        fields[i].0 == key,
        member(fields, key) == Some(fields[i].1),
    decreases fields.len(),
{
    if fields.last().0 == key {
        fields.len() - 1
    } else {
        let i = lemma_member_stands(fields.drop_last(), key);
        assert(fields.drop_last()[i] == fields[i]);
        i
    }
}

proof fn lemma_canonical_member(f: Seq<(Seq<char>, JsonTree)>, key: Seq<char>)
    ensures
        member(canonical_members(f), key) == match member(f, key) {
            Some(t) => Some(canonical(t)),
            None => None,
        },
    decreases f.len(),
{
    lemma_canonical_members(f);
    if f.len() > 0 {
        let c = canonical_members(f);
        assert(c.drop_last() =~= canonical_members(f.drop_last()));
        lemma_canonical_member(f.drop_last(), key);
    }
}

/// The members of a value are those of an object; nothing else has any.
pub proof fn law_objects_have_members(tree: JsonTree, key: Seq<char>)
    ensures
        tree matches JsonTree::Fields(f) ==> get_member(tree, key) == member(f, key),
        !(tree is Fields) ==> get_member(tree, key) is None,
{
}

/// The value of a key is the last that is given for it, and a key that is not given
/// has none.
pub proof fn law_last_member_counts(f: Seq<(Seq<char>, JsonTree)>, i: int, key: Seq<char>)
    ensures
        0 <= i < f.len() && f[i].0 == key && (forall|j: int|
            i < j < f.len() ==> (#[trigger] f[j]).0 != key) ==> member(f, key) == Some(f[i].1),
        (forall|j: int| 0 <= j < f.len() ==> (#[trigger] f[j]).0 != key) ==> member(f, key) is None,
    decreases f.len(),
{
    if f.len() > 0 {
        let front = f.drop_last();
        law_last_member_counts(front, i, key);
        assert(f[f.len() - 1] == f.last());
        if 0 <= i < front.len() && forall|j: int|
            i < j < f.len() ==> (#[trigger] f[j]).0 != key {
            assert(f[f.len() - 1].0 != key);
            assert forall|j: int| i < j < front.len() implies (#[trigger] front[j]).0 != key by {
                assert(f[j].0 != key);
            }
        }
        if forall|j: int| 0 <= j < f.len() ==> (#[trigger] f[j]).0 != key {
            assert(f[f.len() - 1].0 != key);
            assert forall|j: int| 0 <= j < front.len() implies (#[trigger] front[j]).0 != key by {
                assert(f[j].0 != key);
            }
        }
    }
}

/// Canonical form keeps what a value says: simple values as they are, every element
/// of a list in its place, and of an object every key with its value, and no others.
pub proof fn law_canonical_keeps_what_is_said(tree: JsonTree, key: Seq<char>)
    ensures
        match tree {
            JsonTree::List(v) => canonical(tree) is List && canonical(tree)->List_0.len() == v.len()
                && forall|i: int|
                0 <= i < v.len() ==> #[trigger] canonical(tree)->List_0[i] == canonical(v[i]),
            JsonTree::Fields(f) => canonical(tree) is Fields && member(
                canonical(tree)->Fields_0,
                key,
            ) == match member(f, key) {
                Some(value) => Some(canonical(value)),
                None => None,
            },
            _ => canonical(tree) == tree,
        },
{
    match tree {
        JsonTree::List(v) => {
            lemma_canonical_list(v);
            assert forall|i: int| 0 <= i < v.len() implies #[trigger] canonical(tree)->List_0[i]
                == canonical(v[i]) by {
                assert(canonical_list(v)[i] == canonical(v[i]));
            }
        },
        JsonTree::Fields(f) => {
            lemma_canonical_member(f, key);
            law_arranged_keeps_members(canonical_members(f), key);
        },
        _ => {},
    }
}

/// Canonical form does not depend on the order in which members are given.
pub proof fn law_canonical_ignores_member_order(a: JsonTree, b: JsonTree)
    requires
        same_json(a, b),
    ensures
        canonical(a) == canonical(b),
    decreases a,
{
    match (a, b) {
        (JsonTree::List(v), JsonTree::List(w)) => {
            lemma_canonical_list(v);
            lemma_canonical_list(w);
            assert forall|i: int| 0 <= i < v.len() implies canonical_list(v)[i] == canonical_list(
                w,
            )[i] by {
                assert(same_json(v[i], w[i]));
                law_canonical_ignores_member_order(v[i], w[i]);
            }
            assert(canonical_list(v) =~= canonical_list(w));
        },
        (JsonTree::Fields(f), JsonTree::Fields(g)) => {
            let cf = canonical_members(f);
            let cg = canonical_members(g);
            law_arranged_is_sorted(cf);
            law_arranged_is_sorted(cg);
            assert forall|k: Seq<char>| #[trigger] member(arranged(cf), k) == member(
                arranged(cg),
                k,
            ) by {
                law_arranged_keeps_members(cf, k);
                law_arranged_keeps_members(cg, k);
                lemma_canonical_member(f, k);
                lemma_canonical_member(g, k);
                assert(member(f, k) is Some <==> member(g, k) is Some);
                if member(f, k) is Some {
                    let i = lemma_member_stands(f, k);
                    let j = lemma_member_stands(g, k);
                    assert(same_json(f[i].1, g[j].1));
                    law_canonical_ignores_member_order(f[i].1, g[j].1);
                }
            }
            law_sorted_members_are_unique(arranged(cf), arranged(cg));
        },
        _ => {},
    }
}

/// Canonical form of an object depends on the last value of each key alone.
pub proof fn law_canonical_depends_on_members(
    f: Seq<(Seq<char>, JsonTree)>,
    g: Seq<(Seq<char>, JsonTree)>,
)
    requires
        forall|k: Seq<char>| #[trigger] member(f, k) == member(g, k),
    ensures
        canonical(JsonTree::Fields(f)) == canonical(JsonTree::Fields(g)),
{
    let cf = canonical_members(f);
    let cg = canonical_members(g);
    law_arranged_is_sorted(cf);
    law_arranged_is_sorted(cg);
    assert forall|k: Seq<char>| #[trigger] member(arranged(cf), k) == member(arranged(cg), k) by {
        law_arranged_keeps_members(cf, k);
        law_arranged_keeps_members(cg, k);
        lemma_canonical_member(f, k);
        lemma_canonical_member(g, k);
        assert(member(f, k) == member(g, k));
    }
    law_sorted_members_are_unique(arranged(cf), arranged(cg));
}

/// Where members are given in two parts, the second part prevails.
pub proof fn law_later_members_prevail(
    f: Seq<(Seq<char>, JsonTree)>,
    g: Seq<(Seq<char>, JsonTree)>,
    key: Seq<char>,
)
    ensures
        member(f + g, key) == if member(g, key) is Some {
            member(g, key)
        } else {
            member(f, key)
        },
    decreases g.len(),
{
    if g.len() == 0 {
        assert(f + g =~= f);
    } else {
        assert((f + g).drop_last() =~= f + g.drop_last());
        law_later_members_prevail(f, g.drop_last(), key);
    }
}

/// Values whose canonical forms agree one by one have the same canonical list.
pub proof fn law_canonical_list_pointwise(v: Seq<JsonTree>, w: Seq<JsonTree>)
    requires
        v.len() == w.len(),
        forall|i: int| 0 <= i < v.len() ==> canonical(#[trigger] v[i]) == canonical(w[i]),
    ensures
        canonical(JsonTree::List(v)) == canonical(JsonTree::List(w)),
{
    lemma_canonical_list(v);
    lemma_canonical_list(w);
    assert forall|i: int| 0 <= i < v.len() implies canonical_list(v)[i] == canonical_list(w)[i] by {
        assert(canonical(v[i]) == canonical(w[i]));
    }
    assert(canonical_list(v) =~= canonical_list(w));
}

/// Members whose values have the same canonical forms, key by key, make objects
/// with the same canonical form.
pub proof fn law_canonical_fields_pointwise(
    f: Seq<(Seq<char>, JsonTree)>,
    g: Seq<(Seq<char>, JsonTree)>,
)
    requires
        f.len() == g.len(),
        forall|i: int|
            0 <= i < f.len() ==> (#[trigger] f[i]).0 == g[i].0 && canonical(f[i].1) == canonical(
                g[i].1,
            ),
    ensures
        canonical(JsonTree::Fields(f)) == canonical(JsonTree::Fields(g)),
{
    lemma_canonical_members(f);
    lemma_canonical_members(g);
    assert forall|i: int| 0 <= i < f.len() implies canonical_members(f)[i] == canonical_members(
        g,
    )[i] by {
        assert(f[i].0 == g[i].0 && canonical(f[i].1) == canonical(g[i].1));
    }
    assert(canonical_members(f) =~= canonical_members(g));
}

/// Canonical form has every object's keys in order.
pub proof fn law_canonical_is_ordered(tree: JsonTree)
    ensures
        ordered(canonical(tree)),
    decreases tree,
{
    match tree {
        JsonTree::List(v) => {
            lemma_canonical_list(v);
            assert forall|i: int| 0 <= i < v.len() implies ordered(
                #[trigger] canonical_list(v)[i],
            ) by {
                law_canonical_is_ordered(v[i]);
            }
        },
        JsonTree::Fields(f) => {
            let c = canonical_members(f);
            let out = arranged(c);
            law_arranged_is_sorted(c);
            assert forall|i: int| 0 <= i < out.len() implies ordered((#[trigger] out[i]).1) by {
                let k = out[i].0;
                lemma_member_at(out, i);
                law_arranged_keeps_members(c, k);
                lemma_canonical_member(f, k);
                let j = lemma_member_stands(f, k);
                law_canonical_is_ordered(f[j].1);
            }
        },
        _ => {},
    }
}

/// What is in order already is its own canonical form.
pub proof fn law_canonical_keeps_ordered(tree: JsonTree)
    requires
        ordered(tree),
    ensures
        canonical(tree) == tree,
    decreases tree,
{
    match tree {
        JsonTree::List(v) => {
            lemma_canonical_list(v);
            assert forall|i: int| 0 <= i < v.len() implies #[trigger] canonical_list(v)[i]
                == v[i] by {
                law_canonical_keeps_ordered(v[i]);
            }
            assert(canonical_list(v) =~= v);
        },
        JsonTree::Fields(f) => {
            lemma_canonical_members(f);
            let c = canonical_members(f);
            assert forall|i: int| 0 <= i < f.len() implies #[trigger] c[i] == f[i] by {
                law_canonical_keeps_ordered(f[i].1);
            }
            assert(c =~= f);
            law_arranged_is_sorted(f);
            assert forall|k: Seq<char>| #[trigger] member(arranged(f), k) == member(f, k) by {
                law_arranged_keeps_members(f, k);
            }
            law_sorted_members_are_unique(arranged(f), f);
        },
        _ => {},
    }
}

/// Calls `clone` on a `serde_json::Number`, which gives the same number.
#[verifier::external_body]
pub(crate) fn copy_number(n: &serde_json::Number) -> (r: serde_json::Number)
    ensures
        r == *n,
{
    n.clone()
}

impl Clone for Json {
    fn clone(&self) -> (r: Self)
        ensures
            r.tree() == self.tree(),
        decreases self,
    {
        match self {
            Json::Null => Json::Null,
            Json::Bool(b) => Json::Bool(*b),
            Json::Number(n) => Json::Number(copy_number(n)),
            Json::Text(s) => Json::Text(s.clone()),
            Json::List(v) => {
                let out = copy_list(v);
                proof {
                    law_list_tree(out);
                    law_list_tree(*v);
                }
                Json::List(out)
            },
            Json::Fields(v) => {
                let out = copy_fields(v);
                proof {
                    law_fields_tree(out);
                    law_fields_tree(*v);
                }
                Json::Fields(out)
            },
        }
    }
}

/// A copy of a list of values.
pub fn copy_list(v: &Vec<Json>) -> (r: Vec<Json>)
    ensures
        trees(r@) == trees(v@),
    decreases v,
{
    let mut out: Vec<Json> = Vec::new();
    let mut i: usize = 0;
    while i < v.len()
        invariant
            i <= v@.len(),
            out@.len() == i,
            forall|k: int| 0 <= k < i ==> (#[trigger] out@[k]).tree() == v@[k].tree(),
        decreases v@.len() - i,
    {
        out.push(v[i].clone());
        i += 1;
    }
    proof {
        assert(trees(out@) =~= trees(v@));
    }
    out
}

/// A copy of the members of an object.
pub fn copy_fields(v: &Vec<(String, Json)>) -> (r: Vec<(String, Json)>)
    ensures
        members(r@) == members(v@),
    decreases v,
{
    let mut out: Vec<(String, Json)> = Vec::new();
    let mut i: usize = 0;
    while i < v.len()
        invariant
            i <= v@.len(),
            out@.len() == i,
            forall|k: int|
                0 <= k < i ==> (#[trigger] out@[k]).0@ == v@[k].0@ && out@[k].1.tree()
                    == v@[k].1.tree(),
        decreases v@.len() - i,
    {
        out.push((v[i].0.clone(), v[i].1.clone()));
        i += 1;
    }
    proof {
        assert(members(out@) =~= members(v@));
    }
    out
}

/// Arranges the members of every object in the value.
pub fn canonicalize_json(value: &Json) -> (r: Json)
    ensures
        r.tree() == canonical(value.tree()),
    decreases value,
{
    match value {
        Json::List(v) => {
            let out = canonicalize_list(v);
            proof {
                law_list_tree(out);
                law_list_tree(*v);
            }
            Json::List(out)
        },
        Json::Fields(v) => {
            let out = canonicalize_fields(v);
            proof {
                law_fields_tree(out);
                law_fields_tree(*v);
            }
            Json::Fields(out)
        },
        _ => value.clone(),
    }
}

fn canonicalize_list(v: &Vec<Json>) -> (r: Vec<Json>)
    ensures
        trees(r@) == canonical_list(trees(v@)),
    decreases v,
{
    let mut out: Vec<Json> = Vec::new();
    let mut i: usize = 0;
    while i < v.len()
        invariant
            i <= v@.len(),
            out@.len() == i,
            forall|k: int| 0 <= k < i ==> (#[trigger] out@[k]).tree() == canonical(v@[k].tree()),
        decreases v@.len() - i,
    {
        out.push(canonicalize_json(&v[i]));
        i += 1;
    }
    proof {
        lemma_canonical_list(trees(v@));
        assert forall|k: int| 0 <= k < v@.len() implies trees(out@)[k] == canonical_list(
            trees(v@),
        )[k] by {
            assert(trees(v@)[k] == v@[k].tree());
        }
        assert(trees(out@) =~= canonical_list(trees(v@)));
    }
    out
}

fn canonicalize_fields(v: &Vec<(String, Json)>) -> (r: Vec<(String, Json)>)
    ensures
        members(r@) == arranged(canonical_members(members(v@))),
    decreases v,
{
    let mut out: Vec<(String, Json)> = Vec::new();
    let mut i: usize = 0;
    let ghost all = canonical_members(members(v@));
    proof {
        lemma_canonical_members(members(v@));
        assert(members(out@) =~= arranged(all.take(0)));
    }
    while i < v.len()
        invariant
            i <= v@.len(),
            all == canonical_members(members(v@)),
            all.len() == v@.len(),
            members(out@) == arranged(all.take(i as int)),
        decreases v@.len() - i,
    {
        let child = canonicalize_json(&v[i].1);
        proof {
            lemma_canonical_members(members(v@));
            assert(members(v@)[i as int] == (v@[i as int].0@, v@[i as int].1.tree()));
            assert(all.take(i + 1).drop_last() =~= all.take(i as int));
        }
        put_field(&mut out, v[i].0.clone(), child);
        i += 1;
    }
    proof {
        assert(all.take(v@.len() as int) =~= all);
    }
    out
}

/// What a `serde_json` value holds.
pub uninterp spec fn value_tree(value: serde_json::Value) -> JsonTree;

/// The text that `serde_json` writes for a value.
pub uninterp spec fn json_text(tree: JsonTree) -> Seq<char>;

/// The value that `serde_json` reads from some bytes, if they are JSON.
pub uninterp spec fn parsed_json(bytes: Seq<u8>) -> Option<JsonTree>;

/// The number that `serde_json` makes of an unsigned integer.
pub uninterp spec fn unsigned_number(n: u64) -> serde_json::Number;

/// The unsigned integer that a `serde_json` number is, if it is one.
pub uninterp spec fn number_value(number: serde_json::Number) -> Option<u64>;

/// A `serde_json` value taken apart at its root.
pub enum ValueParts {
    Null,
    Bool(bool),
    Number(serde_json::Number),
    Text(String),
    List(Vec<serde_json::Value>),
    Fields(Vec<(String, serde_json::Value)>),
}

/// The members of an object of `serde_json` values.
pub open spec fn value_members(fields: Seq<(String, serde_json::Value)>) -> Seq<
    (Seq<char>, JsonTree),
> {
    Seq::new(fields.len(), |i: int| (fields[i].0@, value_tree(fields[i].1)))
}

/// What a value taken apart holds.
pub open spec fn parts_tree(parts: ValueParts) -> JsonTree {
    match parts {
        ValueParts::Null => JsonTree::Null,
        ValueParts::Bool(b) => JsonTree::Bool(b),
        ValueParts::Number(n) => JsonTree::Number(n),
        ValueParts::Text(s) => JsonTree::Text(s@),
        ValueParts::List(v) => JsonTree::List(Seq::new(v@.len(), |i: int| value_tree(v@[i]))),
        ValueParts::Fields(f) => JsonTree::Fields(value_members(f@)),
    }
}

/// Takes a `serde_json::Value` apart, one arm for each of its variants. The
/// parts are those that the value was made of; an object hands its members out
/// in the order of their keys.
#[verifier::external_body]
fn value_parts(value: serde_json::Value) -> (r: ValueParts)
    ensures
        parts_tree(r) == value_tree(value),
        r matches ValueParts::Fields(f) ==> sorted(value_members(f@)),
{
    match value {
        serde_json::Value::Null => ValueParts::Null,
        serde_json::Value::Bool(b) => ValueParts::Bool(b),
        serde_json::Value::Number(n) => ValueParts::Number(n),
        serde_json::Value::String(s) => ValueParts::Text(s),
        serde_json::Value::Array(v) => ValueParts::List(v),
        serde_json::Value::Object(m) => ValueParts::Fields(Vec::from_iter(m)),
    }
}

/// Makes a `serde_json::Value` of its parts, one arm for each variant. An
/// object is made of members whose keys stand in strictly increasing order, so
/// that none replaces another.
#[verifier::external_body]
fn value_of_parts(parts: ValueParts) -> (r: serde_json::Value)
    requires
        parts matches ValueParts::Fields(f) ==> sorted(value_members(f@)),
    ensures
        value_tree(r) == parts_tree(parts),
{
    match parts {
        ValueParts::Null => serde_json::Value::Null,
        ValueParts::Bool(b) => serde_json::Value::Bool(b),
        ValueParts::Number(n) => serde_json::Value::Number(n),
        ValueParts::Text(s) => serde_json::Value::String(s),
        ValueParts::List(v) => serde_json::Value::Array(v),
        ValueParts::Fields(f) => serde_json::Value::Object(serde_json::Map::from_iter(f)),
    }
}

/// Calls `serde_json::to_string` on a value. Values have string keys only, so
/// writing one never fails; the text depends on what the value holds alone.
#[verifier::external_body]
fn write_value(value: &serde_json::Value) -> (r: Result<String, serde_json::Error>)
    ensures
        r is Ok,
        r->Ok_0@ == json_text(value_tree(*value)),
{
    serde_json::to_string(value)
}

/// Calls `serde_json::from_slice` for a value. The outcome depends on the bytes
/// alone.
#[verifier::external_body]
fn read_value(bytes: &[u8]) -> (r: Result<serde_json::Value, serde_json::Error>)
    ensures
        r matches Ok(v) ==> parsed_json(bytes@) == Some(value_tree(v)),
        r is Err ==> parsed_json(bytes@) is None,
{
    serde_json::from_slice(bytes)
}

/// Calls `serde_json::Number::from` on an unsigned integer. The number depends
/// on the integer alone and reads back as the integer.
#[verifier::external_body]
fn make_number(n: u64) -> (r: serde_json::Number)
    ensures
        r == unsigned_number(n),
        number_value(r) == Some(n),
{
    serde_json::Number::from(n)
}

/// Calls `serde_json::Number::as_u64`. The outcome depends on the number alone.
#[verifier::external_body]
fn read_number(n: &serde_json::Number) -> (r: Option<u64>)
    ensures
        r == number_value(*n),
{
    n.as_u64()
}

proof fn lemma_ordered_list(v: Seq<JsonTree>)
    requires
        ordered(JsonTree::List(v)),
    ensures
        forall|i: int| 0 <= i < v.len() ==> ordered(#[trigger] v[i]),
{
    assert(JsonTree::List(v)->List_0 == v);
}

fn to_value(json: &Json) -> (r: serde_json::Value)
    requires
        ordered(json.tree()),
    ensures
        value_tree(r) == json.tree(),
    decreases json,
{
    match json {
        Json::Null => value_of_parts(ValueParts::Null),
        Json::Bool(b) => value_of_parts(ValueParts::Bool(*b)),
        Json::Number(n) => value_of_parts(ValueParts::Number(copy_number(n))),
        Json::Text(s) => value_of_parts(ValueParts::Text(s.clone())),
        Json::List(v) => {
            proof {
                law_list_tree(*v);
                lemma_ordered_list(trees(v@));
            }
            let parts = ValueParts::List(to_values(v));
            proof {
                assert(parts_tree(parts)->List_0 =~= trees(v@));
            }
            value_of_parts(parts)
        },
        Json::Fields(v) => {
            proof {
                law_fields_tree(*v);
            }
            let parts = ValueParts::Fields(to_value_fields(v));
            value_of_parts(parts)
        },
    }
}

fn to_values(v: &Vec<Json>) -> (r: Vec<serde_json::Value>)
    requires
        forall|i: int| 0 <= i < v@.len() ==> ordered(#[trigger] trees(v@)[i]),
    ensures
        r@.len() == v@.len(),
        forall|i: int| 0 <= i < v@.len() ==> value_tree(#[trigger] r@[i]) == v@[i].tree(),
    decreases v,
{
    let mut out: Vec<serde_json::Value> = Vec::new();
    let mut i: usize = 0;
    while i < v.len()
        invariant
            i <= v@.len(),
            forall|k: int| 0 <= k < v@.len() ==> ordered(#[trigger] trees(v@)[k]),
            out@.len() == i,
            forall|k: int| 0 <= k < i ==> value_tree(#[trigger] out@[k]) == v@[k].tree(),
        decreases v@.len() - i,
    {
        proof {
            assert(ordered(trees(v@)[i as int]));
        }
        out.push(to_value(&v[i]));
        i += 1;
    }
    out
}

fn to_value_fields(v: &Vec<(String, Json)>) -> (r: Vec<(String, serde_json::Value)>)
    requires
        forall|i: int| 0 <= i < v@.len() ==> ordered((#[trigger] members(v@)[i]).1),
    ensures
        value_members(r@) == members(v@),
    decreases v,
{
    let mut out: Vec<(String, serde_json::Value)> = Vec::new();
    let mut i: usize = 0;
    while i < v.len()
        invariant
            i <= v@.len(),
            forall|k: int| 0 <= k < v@.len() ==> ordered((#[trigger] members(v@)[k]).1),
            out@.len() == i,
            forall|k: int|
                0 <= k < i ==> (#[trigger] out@[k]).0@ == v@[k].0@ && value_tree(out@[k].1)
                    == v@[k].1.tree(),
        decreases v@.len() - i,
    {
        proof {
            assert(ordered(members(v@)[i as int].1));
        }
        out.push((v[i].0.clone(), to_value(&v[i].1)));
        i += 1;
    }
    proof {
        assert(value_members(out@) =~= members(v@));
    }
    out
}

fn from_value(value: serde_json::Value) -> (r: Json)
    ensures
        r.tree() == value_tree(value),
        ordered(r.tree()),
    decreases value_tree(value),
{
    match value_parts(value) {
        ValueParts::Null => Json::Null,
        ValueParts::Bool(b) => Json::Bool(b),
        ValueParts::Number(n) => Json::Number(n),
        ValueParts::Text(s) => Json::Text(s),
        ValueParts::List(v) => {
            let ghost whole = v@;
            let ghost tree = value_tree(value);
            let mut out: Vec<Json> = Vec::new();
            for x in it: v
                invariant
                    it.seq() == whole,
                    tree == value_tree(value),
                    tree is List,
                    tree->List_0.len() == whole.len(),
                    forall|k: int|
                        0 <= k < whole.len() ==> tree->List_0[k] == value_tree(#[trigger] whole[k]),
                    out@.len() == it.index(),
                    forall|k: int|
                        0 <= k < it.index() ==> (#[trigger] out@[k]).tree() == value_tree(whole[k])
                            && ordered(out@[k].tree()),
            {
                proof {
                    assert(x == whole[it.index() as int]);
                    assert(decreases_to!(tree => tree->List_0[it.index() as int]));
                }
                out.push(from_value(x));
            }
            proof {
                law_list_tree(out);
                assert(trees(out@) =~= tree->List_0);
            }
            Json::List(out)
        },
        ValueParts::Fields(f) => {
            let ghost whole = f@;
            let ghost tree = value_tree(value);
            let mut out: Vec<(String, Json)> = Vec::new();
            for x in it: f
                invariant
                    it.seq() == whole,
                    tree == value_tree(value),
                    tree is Fields,
                    tree->Fields_0 == value_members(whole),
                    out@.len() == it.index(),
                    forall|k: int|
                        0 <= k < it.index() ==> (#[trigger] out@[k]).0@ == whole[k].0@
                            && out@[k].1.tree() == value_tree(whole[k].1) && ordered(
                            out@[k].1.tree(),
                        ),
            {
                proof {
                    assert(x == whole[it.index() as int]);
                    assert(tree->Fields_0[it.index() as int].1 == value_tree(x.1));
                    assert(decreases_to!(tree => tree->Fields_0[it.index() as int].1));
                }
                out.push((x.0, from_value(x.1)));
            }
            proof {
                law_fields_tree(out);
                assert(members(out@) =~= tree->Fields_0);
            }
            Json::Fields(out)
        },
    }
}

/// A JSON number for an unsigned integer.
pub fn unsigned(n: u64) -> (r: Json)
    ensures
        r.tree() == JsonTree::Number(unsigned_number(n)),
        number_value(r.tree()->Number_0) == Some(n),
{
    Json::Number(make_number(n))
}

impl Json {
    /// The unsigned integer that the value is, if it is one.
    pub fn as_u64(&self) -> (r: Option<u64>)
        ensures
            r == match self.tree() {
                JsonTree::Number(n) => number_value(n),
                _ => None,
            },
    {
        match self {
            Json::Number(n) => read_number(n),
            _ => None,
        }
    }

    /// The boolean that the value is, if it is one.
    pub fn as_bool(&self) -> (r: Option<bool>)
        ensures
            r == match self.tree() {
                JsonTree::Bool(b) => Some(b),
                _ => None,
            },
    {
        match self {
            Json::Bool(b) => Some(*b),
            _ => None,
        }
    }

    /// The compact text of the value, with every object's keys in order.
    pub fn text(&self) -> (r: String)
        ensures
            r@ == json_text(canonical(self.tree())),
    {
        let arranged_value = canonicalize_json(self);
        proof {
            law_canonical_is_ordered(self.tree());
        }
        write_value(&to_value(&arranged_value)).unwrap()
    }

    /// The value that some bytes stand for.
    pub fn parse(bytes: &[u8]) -> (r: Result<Json, serde_json::Error>)
        ensures
            r matches Ok(json) ==> parsed_json(bytes@) == Some(json.tree()) && ordered(json.tree()),
            r is Err ==> parsed_json(bytes@) is None,
    {
        match read_value(bytes) {
            Ok(value) => Ok(from_value(value)),
            Err(e) => Err(e),
        }
    }
}

/// The value of the member `key` of an object.
pub open spec fn get_member(tree: JsonTree, key: Seq<char>) -> Option<JsonTree> {
    match tree {
        JsonTree::Fields(f) => member(f, key),
        _ => None,
    }
}

/// The last value that is given for a key.
pub fn find_field<'a>(fields: &'a Vec<(String, Json)>, key: &str) -> (r: Option<&'a Json>)
    ensures
        match r {
            Some(json) => member(members(fields@), key@) == Some(json.tree()),
            None => member(members(fields@), key@) is None,
        },
{
    let mut i: usize = fields.len();
    let ghost all = members(fields@);
    proof {
        assert(all.take(i as int) =~= all);
    }
    while i > 0
        invariant
            i <= fields@.len(),
            all == members(fields@),
            member(all, key@) == member(all.take(i as int), key@),
        decreases i,
    {
        proof {
            assert(all.take(i as int).last() == all[i - 1]);
            assert(all.take(i as int).drop_last() =~= all.take(i - 1));
        }
        if text::text_eq(fields[i - 1].0.as_str(), key) {
            return Some(&fields[i - 1].1);
        }
        i -= 1;
    }
    None
}

impl Json {
    /// The value of the member `key`, if this is an object that has it.
    pub fn get(&self, key: &str) -> (r: Option<&Json>)
        ensures
            match r {
                Some(json) => get_member(self.tree(), key@) == Some(json.tree()),
                None => get_member(self.tree(), key@) is None,
            },
    {
        match self {
            Json::Fields(fields) => {
                proof {
                    law_fields_tree(*fields);
                }
                find_field(fields, key)
            },
            _ => None,
        }
    }
}

/// An object under construction with one more member.
pub fn with(fields: Vec<(String, Json)>, key: &str, value: Json) -> (r: Vec<(String, Json)>)
    ensures
        members(r@) == members(fields@).push((key@, value.tree())),
{
    let ghost before = fields@;
    let mut out = fields;
    out.push((String::from_str(key), value));
    assert(members(out@) =~= members(before).push((key@, value.tree())));
    out
}

/// An object under construction, with its first member.
pub fn first(key: &str, value: Json) -> (r: Vec<(String, Json)>)
    ensures
        members(r@) == seq![(key@, value.tree())],
{
    let fields: Vec<(String, Json)> = Vec::new();
    assert(members(fields@) =~= Seq::empty());
    with(fields, key, value)
}

/// An object of the members that were put together.
pub fn object(fields: Vec<(String, Json)>) -> (r: Json)
    ensures
        r.tree() == JsonTree::Fields(members(fields@)),
{
    proof {
        law_fields_tree(fields);
    }
    Json::Fields(fields)
}

/// An object of one member.
pub fn single(key: &str, value: Json) -> (r: Json)
    ensures
        r.tree() == JsonTree::Fields(seq![(key@, value.tree())]),
{
    object(first(key, value))
}

/// A list of strings.
pub fn words(list: &[&str]) -> (r: Json)
    ensures
        r.tree() == JsonTree::List(Seq::new(list@.len(), |i: int| JsonTree::Text(list@[i]@))),
{
    let mut out: Vec<Json> = Vec::new();
    let mut i: usize = 0;
    while i < list.len()
        invariant
            i <= list@.len(),
            out@.len() == i,
            forall|j: int| 0 <= j < i ==> (#[trigger] out@[j]).tree() == JsonTree::Text(list@[j]@),
        decreases list@.len() - i,
    {
        out.push(word(list[i]));
        i += 1;
    }
    proof {
        law_list_tree(out);
        assert(trees(out@) =~= Seq::new(list@.len(), |j: int| JsonTree::Text(list@[j]@)));
    }
    Json::List(out)
}

/// A string.
pub fn word(text: &str) -> (r: Json)
    ensures
        r.tree() == JsonTree::Text(text@),
{
    Json::Text(String::from_str(text))
}

} // verus!
