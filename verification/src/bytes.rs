//! Big-endian integers.

use vstd::prelude::*;

verus! {

/// The number that some bytes stand for, most significant byte first.
pub open spec fn be_value(bytes: Seq<u8>) -> nat
    decreases bytes.len(),
{
    if bytes.len() == 0 {
        0
    } else {
        256 * be_value(bytes.drop_last()) + bytes.last() as nat
    }
}

/// A number as `len` bytes, most significant byte first.
pub open spec fn be_bytes(n: nat, len: nat) -> Seq<u8>
    decreases len,
{
    if len == 0 {
        Seq::empty()
    } else {
        be_bytes(n / 256, (len - 1) as nat).push((n % 256) as u8)
    }
}

/// How many numbers `len` bytes can tell apart.
pub open spec fn be_range(len: nat) -> nat
    decreases len,
{
    if len == 0 {
        1
    } else {
        256 * be_range((len - 1) as nat)
    }
}

/// The last byte is the least significant one, and the bytes before it are those
/// of what is left.
pub proof fn law_last_byte_is_least_significant(n: nat, len: nat)
    ensures
        be_bytes(n, len + 1).len() == len + 1,
        be_bytes(n, len + 1).last() == n % 256,
        be_bytes(n, len + 1).drop_last() == be_bytes(n / 256, len),
    decreases len,
{
    if len > 0 {
        law_last_byte_is_least_significant(n / 256, (len - 1) as nat);
    }
    assert(be_bytes(n, len + 1).drop_last() =~= be_bytes(n / 256, len));
}

/// Reading undoes writing, for a number that fits.
pub proof fn law_be_round_trip(n: nat, len: nat)
    requires
        n < be_range(len),
    ensures
        be_bytes(n, len).len() == len,
        be_value(be_bytes(n, len)) == n,
    decreases len,
{
    if len > 0 {
        law_be_round_trip(n / 256, (len - 1) as nat);
        assert(be_bytes(n, len).drop_last() =~= be_bytes(n / 256, (len - 1) as nat));
    }
}

/// Writing undoes reading.
pub proof fn law_be_write_read(bytes: Seq<u8>)
    ensures
        be_value(bytes) < be_range(bytes.len()),
        be_bytes(be_value(bytes), bytes.len()) == bytes,
    decreases bytes.len(),
{
    if bytes.len() > 0 {
        let front = bytes.drop_last();
        law_be_write_read(front);
        let n = be_value(bytes);
        assert(n / 256 == be_value(front));
        assert(n % 256 == bytes.last());
        assert(bytes =~= front.push(bytes.last()));
    } else {
        assert(bytes =~= Seq::empty());
    }
}

proof fn lemma_range()
    ensures
        be_range(8) == 0x1_0000_0000_0000_0000,
{
    assert(be_range(8) == 0x1_0000_0000_0000_0000) by {
        reveal_with_fuel(be_range, 9);
    }
}

/// Eight bytes stand for a 64-bit number.
pub proof fn law_eight_bytes_fit(bytes: Seq<u8>)
    requires
        bytes.len() == 8,
    ensures
        be_value(bytes) <= u64::MAX,
{
    lemma_range();
    law_be_write_read(bytes);
}

/// Every 64-bit number survives being written and read.
pub proof fn law_u64_round_trip(n: u64)
    ensures
        be_bytes(n as nat, 8).len() == 8,
        be_value(be_bytes(n as nat, 8)) == n,
{
    lemma_range();
    law_be_round_trip(n as nat, 8);
}

/// A number as eight bytes, most significant byte first.
pub fn u64_to_be(n: u64) -> (r: Vec<u8>)
    ensures
        r@ == be_bytes(n as nat, 8),
{
    let mut shifted: [u64; 8] = [0u64; 8];
    let mut rest: u64 = n;
    let mut i: usize = 0;
    while i < 8
        invariant
            i <= 8,
            forall|k: int| 0 <= k < i ==> #[trigger] shifted@[k] == shrunk(n as nat, k as nat),
            rest == shrunk(n as nat, i as nat),
        decreases 8 - i,
    {
        shifted[i] = rest;
        proof {
            lemma_shrunk(n as nat, i as nat);
        }
        rest = rest / 256;
        i += 1;
    }
    let mut out: Vec<u8> = Vec::new();
    let mut j: usize = 0;
    while j < 8
        invariant
            j <= 8,
            forall|k: int| 0 <= k < 8 ==> #[trigger] shifted@[k] == shrunk(n as nat, k as nat),
            out@ == be_bytes(shrunk(n as nat, (8 - j) as nat), j as nat),
        decreases 8 - j,
    {
        proof {
            lemma_shrunk(n as nat, (7 - j) as nat);
        }
        out.push((shifted[7 - j] % 256) as u8);
        j += 1;
    }
    out
}

/// `n` without its `k` least significant bytes.
spec fn shrunk(n: nat, k: nat) -> nat
    decreases k,
{
    if k == 0 {
        n
    } else {
        shrunk(n / 256, (k - 1) as nat)
    }
}

proof fn lemma_shrunk(n: nat, k: nat)
    ensures
        shrunk(n, k + 1) == shrunk(n, k) / 256,
    decreases k,
{
    reveal_with_fuel(shrunk, 2);
    if k > 0 {
        lemma_shrunk(n / 256, (k - 1) as nat);
    }
}

/// The number that eight bytes stand for, most significant byte first.
pub fn u64_from_be(bytes: &[u8]) -> (r: u64)
    requires
        bytes@.len() == 8,
    ensures
        r == be_value(bytes@),
{
    let mut n: u64 = 0;
    let mut i: usize = 0;
    while i < 8
        invariant
            i <= 8,
            bytes@.len() == 8,
            n == be_value(bytes@.take(i as int)),
        decreases 8 - i,
    {
        proof {
            let next = bytes@.take(i + 1);
            assert(next.drop_last() =~= bytes@.take(i as int));
            law_be_write_read(next);
            lemma_range();
            lemma_range_grows((i + 1) as nat, 8);
        }
        n = n * 256 + bytes[i] as u64;
        i += 1;
    }
    proof {
        assert(bytes@.take(8) =~= bytes@);
    }
    n
}

proof fn lemma_range_grows(a: nat, b: nat)
    requires
        a <= b,
    ensures
        be_range(a) <= be_range(b),
    decreases b,
{
    if a < b {
        lemma_range_grows(a, (b - 1) as nat);
    }
}

} // verus!
