//! Text helpers with contracts over the characters of a string.
//!
//! A string is modelled by its sequence of characters, and its length in
//! memory by the UTF-8 encoding of that sequence.

use vstd::prelude::*;
use vstd::utf8::encode_utf8;

verus! {

/// Whether a character has the Unicode property `White_Space`.
pub uninterp spec fn char_is_whitespace(c: char) -> bool;

/// Whether a character is alphabetic or numeric in the Unicode sense.
pub uninterp spec fn char_is_alphanumeric(c: char) -> bool;

/// The Unicode lower-case form of a text.
pub uninterp spec fn lowercase_text(text: Seq<char>) -> Seq<char>;

/// Calls `char::is_whitespace`. Its answer depends on the character alone and
/// is given the name `char_is_whitespace`.
#[verifier::external_body]
pub(crate) fn is_whitespace(c: char) -> (r: bool)
    ensures
        r == char_is_whitespace(c),
{
    c.is_whitespace()
}

/// Calls `char::is_alphanumeric`. Its answer depends on the character alone
/// and is given the name `char_is_alphanumeric`.
#[verifier::external_body]
pub(crate) fn is_alphanumeric(c: char) -> (r: bool)
    ensures
        r == char_is_alphanumeric(c),
{
    c.is_alphanumeric()
}

/// Calls `str::to_lowercase`, which is locale independent. Its result depends
/// on the text alone and is given the name `lowercase_text`.
#[verifier::external_body]
pub(crate) fn to_lowercase(text: &str) -> (r: String)
    ensures
        r@ == lowercase_text(text@),
{
    text.to_lowercase()
}

/// Calls `String::push`: the character is appended at the end.
#[verifier::external_body]
pub(crate) fn push_char(text: &mut String, c: char)
    ensures
        final(text)@ == old(text)@.push(c),
{
    text.push(c)
}

/// The number of bytes that a text takes in UTF-8.
pub open spec fn byte_len(text: Seq<char>) -> nat {
    encode_utf8(text).len()
}

/// The length of a text in bytes.
pub fn text_bytes(text: &str) -> (r: usize)
    ensures
        r == byte_len(text@),
{
    text.as_bytes().len()
}

/// The characters of a text.
pub fn chars_of(text: &str) -> (r: Vec<char>)
    ensures
        r@ == text@,
{
    let mut out: Vec<char> = Vec::new();
    for c in it: text.chars()
        invariant
            out@ == text@.take(it.index() as int),
            it.seq() == text@,
    {
        proof {
            assert(text@.take(it.index() as int).push(text@[it.index() as int]) =~= text@.take(
                it.index() + 1,
            ));
        }
        out.push(c);
    }
    proof {
        assert(text@.take(text@.len() as int) =~= text@);
    }
    out
}

/// The text made of the characters `chars[from..to]`.
pub fn text_between(chars: &Vec<char>, from: usize, to: usize) -> (r: String)
    requires
        from <= to <= chars@.len(),
    ensures
        r@ == chars@.subrange(from as int, to as int),
{
    let mut out = String::new();
    let mut i: usize = from;
    while i < to
        invariant
            from <= i <= to <= chars@.len(),
            out@ == chars@.subrange(from as int, i as int),
        decreases to - i,
    {
        push_char(&mut out, chars[i]);
        proof {
            assert(chars@.subrange(from as int, i as int).push(chars@[i as int])
                =~= chars@.subrange(from as int, i + 1));
        }
        i += 1;
    }
    out
}

/// Two texts have the same characters exactly when they have the same bytes.
proof fn lemma_bytes_determine_text(a: Seq<char>, b: Seq<char>)
    ensures
        encode_utf8(a) == encode_utf8(b) <==> a == b,
{
    vstd::utf8::encode_utf8_decode_utf8(a);
    vstd::utf8::encode_utf8_decode_utf8(b);
}

/// Whether two byte strings are equal.
pub fn bytes_eq(a: &[u8], b: &[u8]) -> (r: bool)
    ensures
        r == (a@ == b@),
{
    if a.len() != b.len() {
        return false;
    }
    let mut i: usize = 0;
    while i < a.len()
        invariant
            i <= a@.len(),
            a@.len() == b@.len(),
            forall|k: int| 0 <= k < i ==> a@[k] == b@[k],
        decreases a@.len() - i,
    {
        if a[i] != b[i] {
            return false;
        }
        i += 1;
    }
    proof {
        assert(a@ =~= b@);
    }
    true
}

/// Whether two texts are equal.
pub fn text_eq(a: &str, b: &str) -> (r: bool)
    ensures
        r == (a@ == b@),
{
    proof {
        lemma_bytes_determine_text(a@, b@);
    }
    bytes_eq(a.as_bytes(), b.as_bytes())
}

/// A copy of a byte string.
pub fn copy_bytes(a: &[u8]) -> (r: Vec<u8>)
    ensures
        r@ == a@,
{
    let mut out: Vec<u8> = Vec::new();
    let mut i: usize = 0;
    while i < a.len()
        invariant
            i <= a@.len(),
            out@ == a@.take(i as int),
        decreases a@.len() - i,
    {
        proof {
            assert(a@.take(i as int).push(a@[i as int]) =~= a@.take(i + 1));
        }
        out.push(a[i]);
        i += 1;
    }
    proof {
        assert(a@.take(a@.len() as int) =~= a@);
    }
    out
}

/// Appends a byte string to another.
pub fn append_bytes(out: &mut Vec<u8>, a: &[u8])
    ensures
        final(out)@ == old(out)@ + a@,
{
    let ghost start = out@;
    let mut i: usize = 0;
    while i < a.len()
        invariant
            i <= a@.len(),
            out@ == start + a@.take(i as int),
        decreases a@.len() - i,
    {
        proof {
            assert((start + a@.take(i as int)).push(a@[i as int]) =~= start + a@.take(i + 1));
        }
        out.push(a[i]);
        i += 1;
    }
    proof {
        assert(a@.take(a@.len() as int) =~= a@);
    }
}


/// `text` without its longest prefix of characters that satisfy `drop`.
pub open spec fn trim_start_by(text: Seq<char>, drop: spec_fn(char) -> bool) -> Seq<char>
    decreases text.len(),
{
    if text.len() > 0 && drop(text[0]) {
        trim_start_by(text.drop_first(), drop)
    } else {
        text
    }
}

/// `text` without its longest suffix of characters that satisfy `drop`.
pub open spec fn trim_end_by(text: Seq<char>, drop: spec_fn(char) -> bool) -> Seq<char>
    decreases text.len(),
{
    if text.len() > 0 && drop(text.last()) {
        trim_end_by(text.drop_last(), drop)
    } else {
        text
    }
}

/// The predicate that picks white space.
pub open spec fn whitespace() -> spec_fn(char) -> bool {
    |c: char| char_is_whitespace(c)
}

/// The predicate that picks one character.
pub open spec fn only(c: char) -> spec_fn(char) -> bool {
    |d: char| d == c
}

/// `text` without white space at either end.
pub open spec fn trimmed(text: Seq<char>) -> Seq<char> {
    trim_end_by(trim_start_by(text, whitespace()), whitespace())
}

/// Removes white space at both ends.
pub fn trim(text: &str) -> (r: String)
    ensures
        r@ == trimmed(text@),
{
    let chars = chars_of(text);
    let mut from: usize = 0;
    proof {
        assert(text@.skip(0) =~= text@);
    }
    while from < chars.len() && is_whitespace(chars[from])
        invariant
            from <= chars@.len(),
            chars@ == text@,
            trim_start_by(text@, whitespace()) == trim_start_by(text@.skip(from as int), whitespace()),
        decreases chars@.len() - from,
    {
        proof {
            assert(text@.skip(from as int).drop_first() =~= text@.skip(from + 1));
        }
        from += 1;
    }
    let mut to: usize = chars.len();
    let ghost middle = trim_start_by(text@, whitespace());
    proof {
        assert(middle == text@.skip(from as int));
        assert(text@.skip(from as int) =~= chars@.subrange(from as int, to as int));
    }
    while to > from && is_whitespace(chars[to - 1])
        invariant
            from <= to <= chars@.len(),
            trim_end_by(middle, whitespace()) == trim_end_by(
                chars@.subrange(from as int, to as int),
                whitespace(),
            ),
        decreases to,
    {
        proof {
            assert(chars@.subrange(from as int, to as int).drop_last() =~= chars@.subrange(
                from as int,
                to - 1,
            ));
        }
        to -= 1;
    }
    text_between(&chars, from, to)
}

/// Whether a text is empty or all white space.
pub fn is_blank(text: &str) -> (r: bool)
    ensures
        r == (trimmed(text@).len() == 0),
{
    trim(text).as_str().is_empty()
}

/// Removes every leading occurrence of one character.
pub fn trim_start_char(text: &str, c: char) -> (r: String)
    ensures
        r@ == trim_start_by(text@, only(c)),
{
    let chars = chars_of(text);
    let mut from: usize = 0;
    proof {
        assert(text@.skip(0) =~= text@);
    }
    while from < chars.len() && chars[from] == c
        invariant
            from <= chars@.len(),
            chars@ == text@,
            trim_start_by(text@, only(c)) == trim_start_by(text@.skip(from as int), only(c)),
        decreases chars@.len() - from,
    {
        proof {
            assert(text@.skip(from as int).drop_first() =~= text@.skip(from + 1));
        }
        from += 1;
    }
    proof {
        assert(text@.skip(from as int) =~= chars@.subrange(from as int, chars@.len() as int));
    }
    text_between(&chars, from, chars.len())
}

/// Removes every trailing occurrence of one character.
pub fn trim_end_char(text: &str, c: char) -> (r: String)
    ensures
        r@ == trim_end_by(text@, only(c)),
{
    let chars = chars_of(text);
    let mut to: usize = chars.len();
    proof {
        assert(text@.take(to as int) =~= text@);
    }
    while to > 0 && chars[to - 1] == c
        invariant
            to <= chars@.len(),
            chars@ == text@,
            trim_end_by(text@, only(c)) == trim_end_by(text@.take(to as int), only(c)),
        decreases to,
    {
        proof {
            assert(text@.take(to as int).drop_last() =~= text@.take(to - 1));
        }
        to -= 1;
    }
    proof {
        assert(text@.take(to as int) =~= chars@.subrange(0, to as int));
    }
    text_between(&chars, 0, to)
}

/// The first `n` characters of a text, or all of them where there are fewer.
pub open spec fn first_chars(text: Seq<char>, n: nat) -> Seq<char> {
    if text.len() <= n {
        text
    } else {
        text.take(n as int)
    }
}

/// Keeps at most the first `n` characters.
pub fn take_chars(text: &str, n: usize) -> (r: String)
    ensures
        r@ == first_chars(text@, n as nat),
{
    let chars = chars_of(text);
    let end: usize = if chars.len() <= n {
        chars.len()
    } else {
        n
    };
    proof {
        assert(chars@.subrange(0, end as int) =~= first_chars(text@, n as nat));
    }
    text_between(&chars, 0, end)
}

/// `text` without its first `n` characters, or nothing where there are fewer.
pub open spec fn after_chars(text: Seq<char>, n: nat) -> Seq<char> {
    if text.len() <= n {
        Seq::empty()
    } else {
        text.skip(n as int)
    }
}

/// Drops the first `n` characters.
pub fn skip_chars(text: &str, n: usize) -> (r: String)
    ensures
        r@ == after_chars(text@, n as nat),
{
    let chars = chars_of(text);
    let start: usize = if chars.len() <= n {
        chars.len()
    } else {
        n
    };
    proof {
        assert(chars@.subrange(start as int, chars@.len() as int) =~= after_chars(text@, n as nat));
    }
    text_between(&chars, start, chars.len())
}

/// Whether `pattern` stands in `text` at position `i`.
pub open spec fn stands_at(text: Seq<char>, pattern: Seq<char>, i: int) -> bool {
    0 <= i && i + pattern.len() <= text.len() && text.subrange(i, i + pattern.len()) == pattern
}

/// Whether `pattern` stands anywhere in `text`.
pub open spec fn occurs(text: Seq<char>, pattern: Seq<char>) -> bool {
    exists|i: int| stands_at(text, pattern, i)
}

/// Every non-overlapping occurrence of a non-empty `pattern`, found from left
/// to right, gives way to `to`.
pub open spec fn replaced(text: Seq<char>, pattern: Seq<char>, to: Seq<char>) -> Seq<char>
    decreases text.len(),
{
    if pattern.len() == 0 || text.len() < pattern.len() {
        text
    } else if stands_at(text, pattern, 0) {
        to + replaced(text.skip(pattern.len() as int), pattern, to)
    } else {
        seq![text[0]] + replaced(text.drop_first(), pattern, to)
    }
}

/// `to` before each character and once more at the end.
pub open spec fn interleaved(text: Seq<char>, to: Seq<char>) -> Seq<char>
    decreases text.len(),
{
    if text.len() == 0 {
        to
    } else {
        to + seq![text[0]] + interleaved(text.drop_first(), to)
    }
}

/// What replacing `pattern` by `to` makes of `text`; the empty pattern stands
/// at every character boundary.
pub open spec fn substituted(text: Seq<char>, pattern: Seq<char>, to: Seq<char>) -> Seq<char> {
    if pattern.len() == 0 {
        interleaved(text, to)
    } else {
        replaced(text, pattern, to)
    }
}

pub(crate) fn pattern_stands_at(text: &Vec<char>, pattern: &Vec<char>, i: usize) -> (r: bool)
    requires
        i <= text@.len(),
    ensures
        r == stands_at(text@, pattern@, i as int),
{
    let length: usize = text.len();
    if length - i < pattern.len() {
        return false;
    }
    let mut k: usize = 0;
    while k < pattern.len()
        invariant
            k <= pattern@.len(),
            i + pattern@.len() <= text@.len() == length,
            forall|j: int| 0 <= j < k ==> text@[i + j] == pattern@[j],
        decreases pattern@.len() - k,
    {
        if text[i + k] != pattern[k] {
            proof {
                assert(text@.subrange(i as int, i + pattern@.len())[k as int] != pattern@[k as int]);
            }
            return false;
        }
        k += 1;
    }
    proof {
        assert(text@.subrange(i as int, i + pattern@.len()) =~= pattern@);
    }
    true
}

/// Whether `pattern` stands anywhere in `text`.
pub fn contains_text(text: &str, pattern: &str) -> (r: bool)
    ensures
        r == occurs(text@, pattern@),
{
    let t = chars_of(text);
    let p = chars_of(pattern);
    let mut i: usize = 0;
    while i < t.len()
        invariant
            i <= t@.len(),
            t@ == text@,
            p@ == pattern@,
            forall|j: int| 0 <= j < i ==> !stands_at(text@, pattern@, j),
        decreases t@.len() - i,
    {
        if pattern_stands_at(&t, &p, i) {
            return true;
        }
        i += 1;
    }
    pattern_stands_at(&t, &p, t.len())
}

/// Whether `text` begins with `prefix`.
pub fn starts_with(text: &str, prefix: &str) -> (r: bool)
    ensures
        r == stands_at(text@, prefix@, 0),
{
    let t = chars_of(text);
    let p = chars_of(prefix);
    pattern_stands_at(&t, &p, 0)
}

/// Replaces every occurrence of `pattern` by `to`.
pub fn replace_text(text: &str, pattern: &str, to: &str) -> (r: String)
    ensures
        r@ == substituted(text@, pattern@, to@),
{
    let t = chars_of(text);
    let p = chars_of(pattern);
    let mut out = String::new();
    let mut i: usize = 0;
    proof {
        assert(text@.skip(0) =~= text@);
    }
    if p.len() == 0 {
        while i < t.len()
            invariant
                i <= t@.len(),
                t@ == text@,
                interleaved(text@, to@) =~= out@ + interleaved(text@.skip(i as int), to@),
            decreases t@.len() - i,
        {
            proof {
                assert(text@.skip(i as int).drop_first() =~= text@.skip(i + 1));
            }
            out.append(to);
            push_char(&mut out, t[i]);
            i += 1;
        }
        out.append(to);
        return out;
    }
    while i < t.len()
        invariant
            i <= t@.len(),
            t@ == text@,
            p@ == pattern@,
            p@.len() > 0,
            replaced(text@, pattern@, to@) =~= out@ + replaced(text@.skip(i as int), pattern@, to@),
        decreases t@.len() - i,
    {
        let ghost rest = text@.skip(i as int);
        if pattern_stands_at(&t, &p, i) {
            proof {
                assert(rest.subrange(0, pattern@.len() as int) =~= text@.subrange(
                    i as int,
                    i + pattern@.len(),
                ));
                assert(rest.skip(pattern@.len() as int) =~= text@.skip(i + pattern@.len()));
            }
            out.append(to);
            i += p.len();
        } else {
            proof {
                if rest.len() >= pattern@.len() {
                    assert(rest.subrange(0, pattern@.len() as int) =~= text@.subrange(
                        i as int,
                        i + pattern@.len(),
                    ));
                } else {
                    lemma_replaced_short(rest.drop_first(), pattern@, to@);
                }
                assert(rest.drop_first() =~= text@.skip(i + 1));
                assert(rest =~= seq![rest[0]] + rest.drop_first());
            }
            push_char(&mut out, t[i]);
            i += 1;
        }
    }
    proof {
        assert(text@.skip(t@.len() as int) =~= Seq::empty());
    }
    out
}

proof fn lemma_replaced_short(text: Seq<char>, pattern: Seq<char>, to: Seq<char>)
    requires
        text.len() < pattern.len(),
    ensures
        replaced(text, pattern, to) == text,
{
}

/// The decimal digit for a value below ten.
pub open spec fn digit(d: nat) -> char {
    (('0' as u32 + d) as u32) as char
}

/// The decimal notation of a number, without leading zeros.
pub open spec fn decimal(n: nat) -> Seq<char>
    decreases n,
{
    if n < 10 {
        seq![digit(n)]
    } else {
        decimal(n / 10).push(digit(n % 10))
    }
}

/// Writes a number in decimal.
pub fn decimal_text(n: u64) -> (r: String)
    ensures
        r@ == decimal(n as nat),
    decreases n,
{
    let d: char = digit_char((n % 10) as u8);
    if n < 10 {
        let mut out = String::new();
        push_char(&mut out, d);
        proof {
            assert(out@ =~= seq![digit(n as nat)]);
        }
        out
    } else {
        let mut out = decimal_text(n / 10);
        push_char(&mut out, d);
        out
    }
}

fn digit_char(d: u8) -> (r: char)
    requires
        d < 10,
    ensures
        r == digit(d as nat),
{
    (48u8 + d) as char
}

/// The lower-case hexadecimal digit for a value below sixteen.
pub open spec fn hex_digit(d: nat) -> char {
    if d < 10 {
        (('0' as u32 + d) as u32) as char
    } else {
        (('a' as u32 + d - 10) as u32) as char
    }
}

/// Two lower-case hexadecimal digits for each byte.
pub open spec fn hex(bytes: Seq<u8>) -> Seq<char>
    decreases bytes.len(),
{
    if bytes.len() == 0 {
        Seq::empty()
    } else {
        hex(bytes.drop_last()).push(hex_digit((bytes.last() / 16) as nat)).push(
            hex_digit((bytes.last() % 16) as nat),
        )
    }
}

fn hex_char(d: u8) -> (r: char)
    requires
        d < 16,
    ensures
        r == hex_digit(d as nat),
{
    if d < 10 {
        (48u8 + d) as char
    } else {
        (97u8 + (d - 10)) as char
    }
}

/// Writes bytes in lower-case hexadecimal.
pub fn to_hex(bytes: &[u8]) -> (r: String)
    ensures
        r@ == hex(bytes@),
{
    let mut out = String::new();
    let mut i: usize = 0;
    while i < bytes.len()
        invariant
            i <= bytes@.len(),
            out@ == hex(bytes@.take(i as int)),
        decreases bytes@.len() - i,
    {
        let b: u8 = bytes[i];
        proof {
            assert(bytes@.take(i + 1).drop_last() =~= bytes@.take(i as int));
            assert(bytes@.take(i + 1).last() == b);
        }
        push_char(&mut out, hex_char(b / 16));
        push_char(&mut out, hex_char(b % 16));
        i += 1;
    }
    proof {
        assert(bytes@.take(bytes@.len() as int) =~= bytes@);
    }
    out
}

/// Whether `a` comes before `b` byte by byte.
pub open spec fn bytes_before(a: Seq<u8>, b: Seq<u8>) -> bool
    decreases a.len(),
{
    if b.len() == 0 {
        false
    } else if a.len() == 0 {
        true
    } else if a[0] != b[0] {
        a[0] < b[0]
    } else {
        bytes_before(a.skip(1), b.skip(1))
    }
}

/// Whether `a` comes before `b` in the order of their UTF-8 bytes.
pub open spec fn text_order(a: Seq<char>, b: Seq<char>) -> bool {
    bytes_before(encode_utf8(a), encode_utf8(b))
}

/// Byte order is a strict total order.
pub proof fn law_bytes_order(a: Seq<u8>, b: Seq<u8>, c: Seq<u8>)
    ensures
        !bytes_before(a, a),
        a == b || bytes_before(a, b) || bytes_before(b, a),
        !(bytes_before(a, b) && bytes_before(b, a)),
        bytes_before(a, b) && bytes_before(b, c) ==> bytes_before(a, c),
    decreases a.len() + b.len() + c.len(),
{
    if a.len() > 0 && b.len() > 0 && c.len() > 0 {
        law_bytes_order(a.skip(1), b.skip(1), c.skip(1));
        if a[0] == b[0] && a.skip(1) == b.skip(1) {
            assert(a =~= seq![a[0]] + a.skip(1));
            assert(b =~= seq![b[0]] + b.skip(1));
        }
    } else if a.len() > 0 && b.len() > 0 {
        law_bytes_order(a.skip(1), b.skip(1), c);
        if a[0] == b[0] && a.skip(1) == b.skip(1) {
            assert(a =~= seq![a[0]] + a.skip(1));
            assert(b =~= seq![b[0]] + b.skip(1));
        }
    } else if a.len() > 0 {
        law_bytes_order(a.skip(1), b, c);
    } else if b.len() == 0 {
        assert(a =~= b);
    }
}

/// The order of texts is a strict total order.
pub proof fn law_text_order(a: Seq<char>, b: Seq<char>, c: Seq<char>)
    ensures
        !text_order(a, a),
        a == b || text_order(a, b) || text_order(b, a),
        !(text_order(a, b) && text_order(b, a)),
        text_order(a, b) && text_order(b, c) ==> text_order(a, c),
{
    law_bytes_order(encode_utf8(a), encode_utf8(b), encode_utf8(c));
    vstd::utf8::encode_utf8_decode_utf8(a);
    vstd::utf8::encode_utf8_decode_utf8(b);
}

/// Whether `a` comes before `b` in the order of their UTF-8 bytes.
pub fn text_before(a: &str, b: &str) -> (r: bool)
    ensures
        r == text_order(a@, b@),
{
    let x = a.as_bytes();
    let y = b.as_bytes();
    let mut i: usize = 0;
    proof {
        assert(x@.skip(0) =~= x@);
        assert(y@.skip(0) =~= y@);
    }
    while i < x.len() && i < y.len()
        invariant
            i <= x@.len(),
            i <= y@.len(),
            x@ == encode_utf8(a@),
            y@ == encode_utf8(b@),
            bytes_before(x@, y@) == bytes_before(x@.skip(i as int), y@.skip(i as int)),
        decreases x@.len() - i,
    {
        proof {
            assert(x@.skip(i as int)[0] == x@[i as int]);
            assert(y@.skip(i as int)[0] == y@[i as int]);
        }
        if x[i] != y[i] {
            return x[i] < y[i];
        }
        proof {
            assert(x@.skip(i as int).skip(1) =~= x@.skip(i + 1));
            assert(y@.skip(i as int).skip(1) =~= y@.skip(i + 1));
        }
        i += 1;
    }
    i < y.len()
}

/// The pieces of a text between the occurrences of `c`.
pub open spec fn pieces(text: Seq<char>, c: char) -> Seq<Seq<char>>
    decreases text.len(),
{
    if text.len() == 0 {
        seq![Seq::empty()]
    } else {
        let p = pieces(text.drop_last(), c);
        if text.last() == c {
            p.push(Seq::empty())
        } else {
            p.update(p.len() - 1, p.last().push(text.last()))
        }
    }
}

/// What a list of pairs of texts holds.
pub open spec fn pair_views(pairs: Seq<(String, String)>) -> Seq<(Seq<char>, Seq<char>)> {
    Seq::new(pairs.len(), |i: int| (pairs[i].0@, pairs[i].1@))
}

/// What some texts hold.
pub open spec fn views(texts: Seq<String>) -> Seq<Seq<char>> {
    Seq::new(texts.len(), |i: int| texts[i]@)
}

/// Cuts a text at every occurrence of `c`.
pub fn split_char(text: &str, c: char) -> (r: Vec<String>)
    ensures
        views(r@) == pieces(text@, c),
{
    let chars = chars_of(text);
    let mut out: Vec<String> = Vec::new();
    let mut piece: String = String::new();
    let mut i: usize = 0;
    proof {
        assert(views(out@).push(piece@) =~= pieces(text@.take(0), c));
    }
    while i < chars.len()
        invariant
            i <= chars@.len(),
            chars@ == text@,
            views(out@).push(piece@) == pieces(text@.take(i as int), c),
        decreases chars@.len() - i,
    {
        let ghost before = views(out@);
        let ghost last = piece@;
        proof {
            assert(text@.take(i + 1).drop_last() =~= text@.take(i as int));
            assert(text@.take(i + 1).last() == text@[i as int]);
        }
        if chars[i] == c {
            out.push(piece);
            piece = String::new();
            proof {
                assert(views(out@) =~= before.push(last));
                assert(piece@ =~= Seq::empty());
            }
        } else {
            push_char(&mut piece, chars[i]);
            proof {
                assert(views(out@).push(piece@) =~= before.push(last).update(
                    before.len() as int,
                    last.push(text@[i as int]),
                ));
            }
        }
        i += 1;
    }
    let ghost before = views(out@);
    let ghost last = piece@;
    out.push(piece);
    proof {
        assert(views(out@) =~= before.push(last));
        assert(text@.take(text@.len() as int) =~= text@);
    }
    out
}

/// A text takes no bytes exactly when it is empty.
pub proof fn lemma_byte_len_zero(text: Seq<char>)
    ensures
        byte_len(text) == 0 <==> text.len() == 0,
{
    if text.len() > 0 {
        vstd::utf8::encode_utf8_first_scalar(text);
    }
}

/// The bytes of two texts in a row are the bytes of the one and then those of
/// the other.
pub proof fn law_encode_concat(a: Seq<char>, b: Seq<char>)
    ensures
        encode_utf8(a + b) == encode_utf8(a) + encode_utf8(b),
        byte_len(a + b) == byte_len(a) + byte_len(b),
    decreases a.len(),
{
    if a.len() == 0 {
        assert(a + b =~= b);
        assert(encode_utf8(a) + encode_utf8(b) =~= encode_utf8(b));
    } else {
        assert((a + b).drop_first() =~= a.drop_first() + b);
        law_encode_concat(a.drop_first(), b);
        assert(encode_utf8(a + b) =~= encode_utf8(a) + encode_utf8(b));
    }
}

/// How many bytes a character takes.
pub open spec fn char_bytes(c: char) -> nat {
    byte_len(seq![c])
}

/// How many bytes a character takes.
pub fn char_width(c: char) -> (r: usize)
    ensures
        r == char_bytes(c),
        1 <= r <= 4,
{
    let v: u32 = c as u32;
    proof {
        vstd::utf8::char_is_scalar(c);
        reveal_with_fuel(encode_utf8, 2);
        assert(seq![c].drop_first() =~= Seq::<char>::empty());
    }
    if v < 0x80 {
        1
    } else if v < 0x800 {
        2
    } else if v < 0x10000 {
        3
    } else {
        4
    }
}

/// One more character takes its own bytes and at least one.
pub proof fn lemma_byte_len_step(text: Seq<char>, i: int)
    requires
        0 <= i < text.len(),
    ensures
        byte_len(text.take(i + 1)) == byte_len(text.take(i)) + char_bytes(text[i]),
        char_bytes(text[i]) >= 1,
{
    assert(text.take(i + 1) =~= text.take(i) + seq![text[i]]);
    law_encode_concat(text.take(i), seq![text[i]]);
    lemma_byte_len_zero(seq![text[i]]);
}

/// Longer beginnings of a text take more bytes.
pub proof fn lemma_byte_len_grows(text: Seq<char>, i: int, j: int)
    requires
        0 <= i < j <= text.len(),
    ensures
        byte_len(text.take(i)) < byte_len(text.take(j)),
    decreases j - i,
{
    lemma_byte_len_step(text, j - 1);
    if i < j - 1 {
        lemma_byte_len_grows(text, i, j - 1);
    }
}

/// The position at which a text has taken `to_bytes` bytes, sought from a
/// position at which it has taken `from_bytes`.
pub fn position_of_byte(
    chars: &Vec<char>,
    from: usize,
    from_bytes: usize,
    to_bytes: usize,
) -> (r: usize)
    requires
        from <= chars@.len(),
        byte_len(chars@.take(from as int)) == from_bytes,
        exists|i: int| from <= i <= chars@.len() && byte_len(#[trigger] chars@.take(i)) == to_bytes,
    ensures
        from <= r <= chars@.len(),
        byte_len(chars@.take(r as int)) == to_bytes,
        forall|i: int|
            0 <= i <= chars@.len() && byte_len(#[trigger] chars@.take(i)) == to_bytes ==> i == r,
{
    let ghost goal = choose|i: int|
        from <= i <= chars@.len() && byte_len(#[trigger] chars@.take(i)) == to_bytes;
    let length: usize = chars.len();
    let mut at: usize = from;
    let mut bytes: usize = from_bytes;
    while bytes < to_bytes
        invariant
            length == chars@.len(),
            from <= at <= goal <= length,
            byte_len(chars@.take(at as int)) == bytes,
            byte_len(chars@.take(goal)) == to_bytes,
        decreases goal - at,
    {
        proof {
            lemma_byte_len_step(chars@, at as int);
            if at + 1 < goal {
                lemma_byte_len_grows(chars@, at + 1, goal);
            }
        }
        bytes += char_width(chars[at]);
        at += 1;
    }
    proof {
        if at < goal {
            lemma_byte_len_grows(chars@, at as int, goal);
        }
        assert forall|i: int|
            0 <= i <= chars@.len() && byte_len(#[trigger] chars@.take(i)) == to_bytes implies i
            == at by {
            if i < at {
                lemma_byte_len_grows(chars@, i, at as int);
            } else if i > at {
                lemma_byte_len_grows(chars@, at as int, i);
            }
        }
    }
    at
}

/// The copies of some texts.
pub fn copy_texts(texts: &Vec<String>) -> (r: Vec<String>)
    ensures
        views(r@) == views(texts@),
{
    let mut out: Vec<String> = Vec::new();
    let mut i: usize = 0;
    while i < texts.len()
        invariant
            i <= texts@.len(),
            out@.len() == i,
            forall|k: int| 0 <= k < i ==> (#[trigger] out@[k])@ == texts@[k]@,
        decreases texts@.len() - i,
    {
        out.push(texts[i].clone());
        i += 1;
    }
    proof {
        assert(views(out@) =~= views(texts@));
    }
    out
}

/// Whether a text is among some texts.
pub fn contains_one(terms: &Vec<String>, term: &str) -> (r: bool)
    ensures
        r == views(terms@).contains(term@),
{
    let mut i: usize = 0;
    while i < terms.len()
        invariant
            i <= terms@.len(),
            forall|k: int| 0 <= k < i ==> #[trigger] views(terms@)[k] != term@,
        decreases terms@.len() - i,
    {
        if text_eq(terms[i].as_str(), term) {
            proof {
                assert(views(terms@)[i as int] == term@);
            }
            return true;
        }
        i += 1;
    }
    false
}

/// Bytes come before other bytes if they are smaller at the first place at which
/// they differ, or if they end where the others go on.
pub proof fn law_first_difference_decides(a: Seq<u8>, b: Seq<u8>, i: int)
    requires
        0 <= i <= a.len(),
        i < b.len(),
        forall|k: int| 0 <= k < i ==> #[trigger] a[k] == b[k],
    ensures
        i == a.len() ==> bytes_before(a, b) && !bytes_before(b, a),
        i < a.len() && a[i] < b[i] ==> bytes_before(a, b) && !bytes_before(b, a),
    decreases i,
{
    if i > 0 {
        assert(a[0] == b[0]);
        let x = a.skip(1);
        let y = b.skip(1);
        assert forall|k: int| 0 <= k < i - 1 implies #[trigger] x[k] == y[k] by {
            assert(a[k + 1] == b[k + 1]);
        }
        law_first_difference_decides(x, y, i - 1);
    }
}

proof fn lemma_trim_start(text: Seq<char>, drop: spec_fn(char) -> bool) -> (n: int)
    ensures
        0 <= n <= text.len(),
        trim_start_by(text, drop) == text.skip(n),
        forall|i: int| 0 <= i < n ==> drop(#[trigger] text[i]),
        n < text.len() ==> !drop(text[n]),
    decreases text.len(),
{
    if text.len() > 0 && drop(text[0]) {
        let rest = text.drop_first();
        let m = lemma_trim_start(rest, drop);
        assert(rest.skip(m) =~= text.skip(m + 1));
        assert forall|i: int| 0 <= i < m + 1 implies drop(#[trigger] text[i]) by {
            if i > 0 {
                assert(rest[i - 1] == text[i]);
            }
        }
        m + 1
    } else {
        assert(text.skip(0) =~= text);
        0
    }
}

proof fn lemma_trim_end(text: Seq<char>, drop: spec_fn(char) -> bool) -> (n: int)
    ensures
        0 <= n <= text.len(),
        trim_end_by(text, drop) == text.take(n),
        forall|i: int| n <= i < text.len() ==> drop(#[trigger] text[i]),
        n > 0 ==> !drop(text[n - 1]),
    decreases text.len(),
{
    if text.len() > 0 && drop(text.last()) {
        let rest = text.drop_last();
        let m = lemma_trim_end(rest, drop);
        assert(rest.take(m) =~= text.take(m));
        assert forall|i: int| m <= i < text.len() implies drop(#[trigger] text[i]) by {
            if i < rest.len() {
                assert(rest[i] == text[i]);
            }
        }
        m
    } else {
        assert(text.take(text.len() as int) =~= text);
        text.len() as int
    }
}

/// Trimming takes off white space at both ends, all of it and nothing else.
pub proof fn law_trimming_takes_off_white_space(text: Seq<char>)
    ensures
        exists|a: int, b: int|
            0 <= a <= b <= text.len() && trimmed(text) == #[trigger] text.subrange(a, b) && (forall|
                i: int,
            |
                0 <= i < a || b <= i < text.len() ==> char_is_whitespace(#[trigger] text[i])),
        trimmed(text).len() > 0 ==> !char_is_whitespace(trimmed(text)[0]) && !char_is_whitespace(
            trimmed(text)[trimmed(text).len() - 1],
        ),
{
    let w = whitespace();
    let n = lemma_trim_start(text, w);
    let rest = text.skip(n);
    let m = lemma_trim_end(rest, w);
    assert(rest.take(m) =~= text.subrange(n, n + m));
    assert forall|i: int| 0 <= i < n || n + m <= i < text.len() implies char_is_whitespace(
        #[trigger] text[i],
    ) by {
        if i < n {
            assert(w(text[i]));
        } else {
            assert(w(rest[i - n]));
        }
    }
    if trimmed(text).len() > 0 {
        assert(!w(text[n]));
        assert(!w(rest[m - 1]));
    }
}

/// Taking a character off the start or the end of a text takes off all of them
/// there and nothing else.
pub proof fn law_trimming_takes_off_one_character(text: Seq<char>, c: char)
    ensures
        exists|a: int|
            0 <= a <= text.len() && trim_start_by(text, only(c)) == #[trigger] text.skip(a)
                && (forall|i: int| 0 <= i < a ==> #[trigger] text[i] == c) && (a < text.len()
                ==> text[a] != c),
        exists|b: int|
            0 <= b <= text.len() && trim_end_by(text, only(c)) == #[trigger] text.take(b)
                && (forall|i: int| b <= i < text.len() ==> #[trigger] text[i] == c) && (b > 0
                ==> text[b - 1] != c),
{
    let n = lemma_trim_start(text, only(c));
    assert forall|i: int| 0 <= i < n implies #[trigger] text[i] == c by {
        assert(only(c)(text[i]));
    }
    assert(trim_start_by(text, only(c)) == text.skip(n));
    let m = lemma_trim_end(text, only(c));
    assert forall|i: int| m <= i < text.len() implies #[trigger] text[i] == c by {
        assert(only(c)(text[i]));
    }
    assert(trim_end_by(text, only(c)) == text.take(m));
}

/// The first characters of a text and those after them make up the text, and the
/// first are as many as asked for, or all.
pub proof fn law_first_and_after_make_up_the_text(text: Seq<char>, n: nat)
    ensures
        first_chars(text, n) + after_chars(text, n) == text,
        first_chars(text, n).len() == vstd::math::min(text.len() as int, n as int),
{
    assert(first_chars(text, n) + after_chars(text, n) =~= text);
}

/// Replacing goes from left to right: the first occurrence gives way, what stands
/// before it stays, and what stands behind it is treated likewise. A text without
/// an occurrence stays as it is.
pub proof fn law_replacing_goes_from_left_to_right(
    text: Seq<char>,
    pattern: Seq<char>,
    to: Seq<char>,
    i: int,
)
    requires
        pattern.len() > 0,
        0 <= i <= text.len(),
        forall|k: int| 0 <= k < i ==> !#[trigger] stands_at(text, pattern, k),
    ensures
        stands_at(text, pattern, i) ==> substituted(text, pattern, to) == text.take(i) + to
            + substituted(text.skip(i + pattern.len()), pattern, to),
        i == text.len() ==> substituted(text, pattern, to) == text,
    decreases i,
{
    if i == 0 {
        if stands_at(text, pattern, 0) {
            assert(text.take(0) + to =~= to);
        }
        if text.len() == 0 {
            assert(substituted(text, pattern, to) =~= text);
        }
    } else {
        assert(!stands_at(text, pattern, 0));
        let rest = text.drop_first();
        assert forall|k: int| 0 <= k < i - 1 implies !#[trigger] stands_at(rest, pattern, k) by {
            assert(!stands_at(text, pattern, k + 1));
            if stands_at(rest, pattern, k) {
                assert(rest.subrange(k, k + pattern.len()) =~= text.subrange(
                    k + 1,
                    k + 1 + pattern.len(),
                ));
            }
        }
        law_replacing_goes_from_left_to_right(rest, pattern, to, i - 1);
        if stands_at(text, pattern, i) {
            assert(rest.subrange(i - 1, i - 1 + pattern.len()) =~= text.subrange(
                i,
                i + pattern.len(),
            ));
            assert(rest.skip(i - 1 + pattern.len()) =~= text.skip(i + pattern.len()));
            assert(substituted(text, pattern, to) =~= text.take(i) + to + substituted(
                text.skip(i + pattern.len()),
                pattern,
                to,
            ));
        }
        if i == text.len() {
            assert(substituted(text, pattern, to) =~= text);
        }
    }
}

/// The number that decimal digits stand for.
pub open spec fn digits_value(digits: Seq<char>) -> nat
    decreases digits.len(),
{
    if digits.len() == 0 {
        0
    } else {
        (10 * digits_value(digits.drop_last()) + (digits.last() as int - '0' as int)) as nat
    }
}

/// Decimal notation stands for its number, is made of digits, and has no leading
/// zero but for zero itself.
pub proof fn law_decimal_stands_for_its_number(n: nat)
    ensures
        digits_value(decimal(n)) == n,
        decimal(n).len() > 0,
        forall|i: int| 0 <= i < decimal(n).len() ==> '0' <= #[trigger] decimal(n)[i] <= '9',
        n > 0 ==> decimal(n)[0] != '0',
    decreases n,
{
    if n < 10 {
        assert(decimal(n).drop_last() =~= Seq::empty());
        reveal_with_fuel(digits_value, 2);
    } else {
        law_decimal_stands_for_its_number(n / 10);
        assert(decimal(n).drop_last() =~= decimal(n / 10));
        assert forall|i: int| 0 <= i < decimal(n).len() implies '0' <= #[trigger] decimal(n)[i]
            <= '9' by {
            if i < decimal(n / 10).len() {
                assert(decimal(n)[i] == decimal(n / 10)[i]);
            }
        }
        assert(decimal(n)[0] == decimal(n / 10)[0]);
    }
}

/// Hexadecimal notation has two lower-case digits for each byte, the first for its
/// upper half.
pub proof fn law_hex_has_two_digits_for_each_byte(bytes: Seq<u8>, i: int)
    requires
        0 <= i < bytes.len(),
    ensures
        hex(bytes).len() == 2 * bytes.len(),
        hex(bytes)[2 * i] == "0123456789abcdef"@[bytes[i] as int / 16],
        hex(bytes)[2 * i + 1] == "0123456789abcdef"@[bytes[i] as int % 16],
    decreases bytes.len(),
{
    reveal_strlit("0123456789abcdef");
    let front = bytes.drop_last();
    if i < front.len() {
        law_hex_has_two_digits_for_each_byte(front, i);
        assert(front[i] == bytes[i]);
        assert(hex(bytes)[2 * i] == hex(front)[2 * i]);
        assert(hex(bytes)[2 * i + 1] == hex(front)[2 * i + 1]);
    } else {
        if front.len() > 0 {
            law_hex_has_two_digits_for_each_byte(front, 0);
        }
        assert(hex(front).len() == 2 * front.len());
    }
}

/// Hexadecimal notation determines the bytes.
pub proof fn law_hex_determines_the_bytes(a: Seq<u8>, b: Seq<u8>)
    requires
        hex(a) == hex(b),
    ensures
        a == b,
    decreases a.len(),
{
    if a.len() > 0 {
        law_hex_has_two_digits_for_each_byte(a, 0);
    }
    if b.len() > 0 {
        law_hex_has_two_digits_for_each_byte(b, 0);
    }
    assert(a.len() == b.len());
    assert forall|i: int| 0 <= i < a.len() implies a[i] == b[i] by {
        law_hex_has_two_digits_for_each_byte(a, i);
        law_hex_has_two_digits_for_each_byte(b, i);
        lemma_hex_digits_differ(a[i] as int / 16, b[i] as int / 16);
        lemma_hex_digits_differ(a[i] as int % 16, b[i] as int % 16);
    }
    assert(a =~= b);
}

proof fn lemma_hex_digits_differ(x: int, y: int)
    requires
        0 <= x < 16,
        0 <= y < 16,
        "0123456789abcdef"@[x] == "0123456789abcdef"@[y],
    ensures
        x == y,
{
    reveal_strlit("0123456789abcdef");
}

/// The pieces of a text hold no separator, and with one separator between them
/// they make up the text.
#[verifier::spinoff_prover]
#[verifier::rlimit(40)]
pub proof fn law_pieces_make_up_the_text(text: Seq<char>, c: char)
    ensures
        pieces(text, c).len() > 0,
        forall|k: int|
            0 <= k < pieces(text, c).len() ==> !(#[trigger] pieces(text, c)[k]).contains(c),
        text == pieces(text, c)[0] + Seq::new(
            (pieces(text, c).len() - 1) as nat,
            |k: int| seq![c] + pieces(text, c)[k + 1],
        ).flatten(),
    decreases text.len(),
{
    let p = pieces(text, c);
    let tail = Seq::new((p.len() - 1) as nat, |k: int| seq![c] + p[k + 1]);
    tail.lemma_flatten_and_flatten_alt_are_equivalent();
    if text.len() == 0 {
        assert(tail =~= Seq::empty());
        assert(text =~= p[0] + tail.flatten());
    } else {
        let front = text.drop_last();
        let q = pieces(front, c);
        law_pieces_make_up_the_text(front, c);
        let before = Seq::new((q.len() - 1) as nat, |k: int| seq![c] + q[k + 1]);
        before.lemma_flatten_and_flatten_alt_are_equivalent();
        assert(text =~= front.push(text.last()));
        if text.last() == c {
            assert(tail.drop_last() =~= before);
            assert(tail.last() =~= seq![c]);
            assert(text =~= p[0] + tail.flatten());
        } else {
            if q.len() == 1 {
                assert(tail =~= Seq::empty());
                assert(before =~= Seq::empty());
                assert(text =~= p[0] + tail.flatten());
            } else {
                assert(tail.drop_last() =~= before.drop_last());
                assert(tail.last() =~= before.last().push(text.last()));
                assert(text =~= p[0] + tail.flatten());
            }
            assert forall|k: int| 0 <= k < p.len() implies !(#[trigger] p[k]).contains(c) by {
                if k < p.len() - 1 {
                    assert(p[k] == q[k]);
                } else {
                    assert(!q[q.len() - 1].contains(c));
                    if p[k].contains(c) {
                        let i = p[k].index_of(c);
                        assert(q.last()[i] == c);
                    }
                }
            }
        }
    }
}

/// A pattern occurs in a text exactly where the text is something, the pattern and
/// something again.
pub proof fn law_occurrence_splits_the_text(
    text: Seq<char>,
    pattern: Seq<char>,
    before: Seq<char>,
    after: Seq<char>,
)
    ensures
        text == before + pattern + after ==> stands_at(text, pattern, before.len() as int)
            && occurs(text, pattern),
        forall|i: int| #[trigger]
            stands_at(text, pattern, i) ==> text == text.take(i) + pattern + text.skip(
                i + pattern.len(),
            ),
{
    if text == before + pattern + after {
        let i = before.len() as int;
        assert(text.subrange(i, i + pattern.len()) =~= pattern);
        assert(stands_at(text, pattern, before.len() as int));
    }
    assert forall|i: int| #[trigger] stands_at(text, pattern, i) implies text == text.take(i)
        + pattern + text.skip(i + pattern.len()) by {
        assert(text =~= text.take(i) + text.subrange(i, i + pattern.len()) + text.skip(
            i + pattern.len(),
        ));
    }
}

/// Replacing nothing puts the replacement before every character and at the end.
pub proof fn law_replacing_nothing(text: Seq<char>, to: Seq<char>)
    ensures
        substituted(text, Seq::empty(), to) == Seq::new(
            text.len(),
            |i: int| to.push(text[i]),
        ).flatten() + to,
    decreases text.len(),
{
    let parts = Seq::new(text.len(), |i: int| to.push(text[i]));
    if text.len() == 0 {
        assert(parts =~= Seq::empty());
        parts.lemma_flatten_and_flatten_alt_are_equivalent();
        assert(parts.flatten() + to =~= to);
    } else {
        let rest = text.drop_first();
        law_replacing_nothing(rest, to);
        let more = Seq::new(rest.len(), |i: int| to.push(rest[i]));
        assert(parts.drop_first() =~= more);
        assert(parts.flatten() == parts.first() + parts.drop_first().flatten());
        assert(substituted(text, Seq::empty(), to) =~= parts.flatten() + to);
    }
}

} // verus!
