//! Token budget classes and fixed-size padding.

use vstd::prelude::*;
use vstd::string::*;

use crate::text;

verus! {

/// A coarse-grained token budget class.
///
/// Every request falls into one of a few buckets. A bucket fixes how large the
/// prompt may be, how many tokens the completion may have and how many bytes
/// the padded plaintext takes in each direction, so that an observer of the
/// traffic learns no more than the bucket.
#[derive(Debug, Copy, Clone, PartialEq, Eq, Hash, Structural)]
pub enum TokenClass {
    /// Small quick requests.
    C256,
    /// Medium requests.
    C512,
    C1024,
    C2048,
    C4096,
}

impl TokenClass {
    /// The completion tokens that the class stands for.
    pub open spec fn tokens(self) -> nat {
        match self {
            TokenClass::C256 => 256,
            TokenClass::C512 => 512,
            TokenClass::C1024 => 1024,
            TokenClass::C2048 => 2048,
            TokenClass::C4096 => 4096,
        }
    }

    /// Eight bytes of prompt for each completion token.
    pub open spec fn prompt_limit(self) -> nat {
        8 * self.tokens()
    }

    /// Two bytes for each prompt byte and four kibibytes for the other fields.
    pub open spec fn request_size(self) -> nat {
        2 * self.prompt_limit() + 4096
    }

    /// Thirty-two bytes for each completion token.
    pub open spec fn response_size(self) -> nat {
        32 * self.tokens()
    }

    /// The position of the class, counted from one.
    pub open spec fn rank(self) -> u8 {
        match self {
            TokenClass::C256 => 1,
            TokenClass::C512 => 2,
            TokenClass::C1024 => 3,
            TokenClass::C2048 => 4,
            TokenClass::C4096 => 5,
        }
    }

    /// The name of the class on the wire.
    pub open spec fn name(self) -> Seq<char> {
        match self {
            TokenClass::C256 => "c256"@,
            TokenClass::C512 => "c512"@,
            TokenClass::C1024 => "c1024"@,
            TokenClass::C2048 => "c2048"@,
            TokenClass::C4096 => "c4096"@,
        }
    }

    /// Upper bound on the bytes of the prompt.
    pub fn max_prompt_bytes(self) -> (r: usize)
        ensures
            r == self.prompt_limit(),
    {
        match self {
            TokenClass::C256 => 2 * 1024,
            TokenClass::C512 => 4 * 1024,
            TokenClass::C1024 => 8 * 1024,
            TokenClass::C2048 => 16 * 1024,
            TokenClass::C4096 => 32 * 1024,
        }
    }

    /// Upper bound on completion tokens that the gateway will allow.
    pub fn max_completion_tokens(self) -> (r: u32)
        ensures
            r == self.tokens(),
    {
        match self {
            TokenClass::C256 => 256,
            TokenClass::C512 => 512,
            TokenClass::C1024 => 1024,
            TokenClass::C2048 => 2048,
            TokenClass::C4096 => 4096,
        }
    }

    /// Target plaintext size before encryption (request side).
    ///
    /// It exceeds `max_prompt_bytes()` to leave room for headers, ticket and
    /// structured fields.
    pub fn envelope_request_plaintext_bytes(self) -> (r: usize)
        ensures
            r == self.request_size(),
    {
        match self {
            TokenClass::C256 => 8 * 1024,
            TokenClass::C512 => 12 * 1024,
            TokenClass::C1024 => 20 * 1024,
            TokenClass::C2048 => 36 * 1024,
            TokenClass::C4096 => 68 * 1024,
        }
    }

    /// Target plaintext size before encryption (response side).
    pub fn envelope_response_plaintext_bytes(self) -> (r: usize)
        ensures
            r == self.response_size(),
    {
        match self {
            TokenClass::C256 => 8 * 1024,
            TokenClass::C512 => 16 * 1024,
            TokenClass::C1024 => 32 * 1024,
            TokenClass::C2048 => 64 * 1024,
            TokenClass::C4096 => 128 * 1024,
        }
    }

    /// A one-byte identifier of the class.
    pub fn id_u8(self) -> (r: u8)
        ensures
            r == self.rank(),
    {
        match self {
            TokenClass::C256 => 1,
            TokenClass::C512 => 2,
            TokenClass::C1024 => 3,
            TokenClass::C2048 => 4,
            TokenClass::C4096 => 5,
        }
    }

    /// The name of the class on the wire.
    pub fn wire_name(self) -> (r: &'static str)
        ensures
            r@ == self.name(),
    {
        match self {
            TokenClass::C256 => "c256",
            TokenClass::C512 => "c512",
            TokenClass::C1024 => "c1024",
            TokenClass::C2048 => "c2048",
            TokenClass::C4096 => "c4096",
        }
    }
}

/// What each class stands for: its completion tokens, the bytes of its prompts and
/// of its padded requests and responses, its number and its name.
pub proof fn law_classes_have_these_sizes(class: TokenClass)
    ensures
        class == TokenClass::C256 ==> class.tokens() == 256 && class.prompt_limit() == 2048
            && class.request_size() == 8192 && class.response_size() == 8192 && class.rank() == 1
            && class.name() == "c256"@,
        class == TokenClass::C512 ==> class.tokens() == 512 && class.prompt_limit() == 4096
            && class.request_size() == 12288 && class.response_size() == 16384 && class.rank() == 2
            && class.name() == "c512"@,
        class == TokenClass::C1024 ==> class.tokens() == 1024 && class.prompt_limit() == 8192
            && class.request_size() == 20480 && class.response_size() == 32768 && class.rank() == 3
            && class.name() == "c1024"@,
        class == TokenClass::C2048 ==> class.tokens() == 2048 && class.prompt_limit() == 16384
            && class.request_size() == 36864 && class.response_size() == 65536 && class.rank() == 4
            && class.name() == "c2048"@,
        class == TokenClass::C4096 ==> class.tokens() == 4096 && class.prompt_limit() == 32768
            && class.request_size() == 69632 && class.response_size() == 131072 && class.rank() == 5
            && class.name() == "c4096"@,
{
}

/// The name of a class determines the class.
pub proof fn law_name_determines_the_class(a: TokenClass, b: TokenClass)
    requires
        a.name() == b.name(),
    ensures
        a == b,
{
    reveal_strlit("c256");
    reveal_strlit("c512");
    reveal_strlit("c1024");
    reveal_strlit("c2048");
    reveal_strlit("c4096");
    assert("c256"@[1] == '2' && "c512"@[1] == '5' && "c1024"@[1] == '1' && "c2048"@[1] == '2'
        && "c4096"@[1] == '4');
    assert("c256"@.len() == 4 && "c2048"@.len() == 5);
}

/// Padding leaves the data as it is and puts nothing but zero bytes behind it, up
/// to the length.
pub proof fn law_padding_is_zero_bytes(data: Seq<u8>, len: nat, i: int)
    requires
        data.len() <= len,
        0 <= i < len,
    ensures
        padded(data, len).len() == len,
        padded(data, len)[i] == if i < data.len() {
            data[i]
        } else {
            0u8
        },
{
}

/// The limits of a class grow with its rank.
pub proof fn law_limits_are_monotonic(a: TokenClass, b: TokenClass)
    ensures
        a.rank() < b.rank() <==> a.tokens() < b.tokens(),
        a.rank() < b.rank() <==> a.prompt_limit() < b.prompt_limit(),
        a.rank() < b.rank() <==> a.request_size() < b.request_size(),
        a.rank() < b.rank() <==> a.response_size() < b.response_size(),
        a.rank() == b.rank() <==> a == b,
{
}

/// The padded request of a class is larger than its prompt limit.
pub proof fn law_request_exceeds_prompt(class: TokenClass)
    ensures
        class.prompt_limit() < class.request_size(),
{
}

/// Why a payload cannot be padded.
#[derive(Debug, Copy, Clone, PartialEq, Eq, Structural)]
pub enum PaddingError {
    /// The payload has `len` bytes and only `max` fit.
    TooLarge { len: usize, max: usize },
}

impl PaddingError {
    /// The message of the error.
    pub open spec fn spec_message(self) -> Seq<char> {
        match self {
            PaddingError::TooLarge { len, max } => "payload too large for token class (len="@
                + text::decimal(len as nat) + ", max="@ + text::decimal(max as nat) + ")"@,
        }
    }

    /// The message of the error.
    pub fn message(&self) -> (r: String)
        ensures
            r@ == self.spec_message(),
    {
        match self {
            PaddingError::TooLarge { len, max } => {
                let mut m = String::from_str("payload too large for token class (len=");
                m.append(text::decimal_text(*len as u64).as_str());
                m.append(", max=");
                m.append(text::decimal_text(*max as u64).as_str());
                m.append(")");
                m
            },
        }
    }
}

/// `data` followed by zero bytes up to `len`.
pub open spec fn padded(data: Seq<u8>, len: nat) -> Seq<u8>
    recommends
        data.len() <= len,
{
    data + Seq::new((len - data.len()) as nat, |i: int| 0u8)
}

/// `data` without its longest suffix of zero bytes.
pub open spec fn unpadded(data: Seq<u8>) -> Seq<u8>
    decreases data.len(),
{
    if data.len() > 0 && data.last() == 0u8 {
        unpadded(data.drop_last())
    } else {
        data
    }
}

/// Pads a byte vector to `target_len` using zero bytes.
///
/// The padding lies inside an authenticated envelope, and the reader trims the
/// decrypted plaintext back to the JSON boundary.
pub fn pad_to_len(data: Vec<u8>, target_len: usize) -> (r: Result<Vec<u8>, PaddingError>)
    ensures
        r is Ok <==> data@.len() <= target_len,
        r matches Ok(out) ==> out@ == padded(data@, target_len as nat),
        r matches Err(e) ==> e == (PaddingError::TooLarge { len: data@.len() as usize, max: target_len }),
{
    if data.len() > target_len {
        return Err(PaddingError::TooLarge { len: data.len(), max: target_len });
    }
    let mut out = data;
    out.resize(target_len, 0u8);
    proof {
        assert(out@ =~= padded(data@, target_len as nat));
    }
    Ok(out)
}

/// Removes trailing zero padding.
pub fn trim_zero_padding(data: &[u8]) -> (r: &[u8])
    ensures
        r@ == unpadded(data@),
{
    let mut end: usize = data.len();
    proof {
        assert(data@.take(end as int) =~= data@);
    }
    while end > 0 && data[end - 1] == 0u8
        invariant
            end <= data@.len(),
            unpadded(data@) == unpadded(data@.take(end as int)),
        decreases end,
    {
        proof {
            assert(data@.take(end as int).drop_last() =~= data@.take(end - 1));
        }
        end -= 1;
    }
    proof {
        assert(data@.subrange(0, end as int) =~= data@.take(end as int));
    }
    vstd::slice::slice_subrange(data, 0, end)
}

/// What is trimmed does not end in a zero byte, and is what is left of the
/// data before a run of zero bytes.
pub proof fn law_unpadded_is_prefix(data: Seq<u8>)
    ensures
        unpadded(data).len() <= data.len(),
        unpadded(data) == data.take(unpadded(data).len() as int),
        unpadded(data).len() > 0 ==> unpadded(data).last() != 0u8,
        forall|i: int| unpadded(data).len() <= i < data.len() ==> data[i] == 0u8,
    decreases data.len(),
{
    if data.len() > 0 && data.last() == 0u8 {
        law_unpadded_is_prefix(data.drop_last());
        assert(data.drop_last().take(unpadded(data).len() as int) =~= data.take(
            unpadded(data).len() as int,
        ));
        assert forall|i: int| unpadded(data).len() <= i < data.len() implies data[i] == 0u8 by {
            if i < data.len() - 1 {
                assert(data.drop_last()[i] == 0u8);
            }
        }
    } else {
        assert(data.take(data.len() as int) =~= data);
    }
}

/// Trimming undoes padding, up to the zero bytes that the data itself ends in.
pub proof fn law_unpad_undoes_pad(data: Seq<u8>, len: nat)
    requires
        data.len() <= len,
    ensures
        unpadded(padded(data, len)) == unpadded(data),
        data.len() > 0 && data.last() != 0u8 ==> unpadded(padded(data, len)) == data,
    decreases len,
{
    if data.len() == len {
        assert(padded(data, len) =~= data);
    } else {
        law_unpad_undoes_pad(data, (len - 1) as nat);
        assert(padded(data, len).drop_last() =~= padded(data, (len - 1) as nat));
    }
}

} // verus!
