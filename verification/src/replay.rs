//! The replay store: which usage keys have been reserved or spent.
//!
//! A record is written for a key before any work is dispatched, and nothing
//! ever removes it. Time alone cannot show that work did not happen, so a
//! reservation does not expire either.

use vstd::prelude::*;

use crate::bytes;
use crate::bytes::{be_bytes, be_value};
use crate::text;

verus! {

/// The status byte of a reservation.
pub const PENDING: u8 = 112;

/// The status byte of a spent key.
pub const SPENT: u8 = 115;

/// A record: the status and the time in milliseconds.
pub open spec fn record(status: u8, ts_ms: u64) -> Seq<u8> {
    seq![status] + be_bytes(ts_ms as nat, 8)
}

/// What a record says, if it is well formed.
pub open spec fn record_parts(v: Seq<u8>) -> Option<(u8, u64)> {
    if v.len() != 9 {
        None
    } else {
        Some((v[0], be_value(v.skip(1)) as u64))
    }
}

/// Writes a record.
pub fn encode_nullifier_value(status: u8, ts_ms: u64) -> (r: Vec<u8>)
    ensures
        r@ == record(status, ts_ms),
        r@.len() == 9,
{
    let mut v: Vec<u8> = Vec::with_capacity(9);
    v.push(status);
    let time = bytes::u64_to_be(ts_ms);
    proof {
        bytes::law_u64_round_trip(ts_ms);
    }
    text::append_bytes(&mut v, time.as_slice());
    proof {
        assert(v@ =~= record(status, ts_ms));
    }
    v
}

/// Reads a record.
pub fn decode_nullifier_value(v: &[u8]) -> (r: Option<(u8, u64)>)
    ensures
        r == record_parts(v@),
{
    if v.len() != 9 {
        return None;
    }
    let tail = vstd::slice::slice_subrange(v, 1, 9);
    proof {
        assert(v@.subrange(1, 9) =~= v@.skip(1));
    }
    let ts: u64 = bytes::u64_from_be(tail);
    Some((v[0], ts))
}

/// Reading a record gives back what was written.
pub proof fn law_record_round_trip(status: u8, ts_ms: u64)
    ensures
        record_parts(record(status, ts_ms)) == Some((status, ts_ms)),
{
    bytes::law_u64_round_trip(ts_ms);
    assert(record(status, ts_ms).skip(1) =~= be_bytes(ts_ms as nat, 8));
}

/// A request to the store: where the key holds `expected`, let it hold `new`.
/// There is no request that removes a key.
#[derive(Debug)]
pub struct SwapRequest {
    pub key: Vec<u8>,
    pub expected: Option<Vec<u8>>,
    pub new: Vec<u8>,
}

/// What a request to the store holds.
pub struct SwapView {
    pub key: Seq<u8>,
    pub expected: Option<Seq<u8>>,
    pub new: Seq<u8>,
}

impl View for SwapRequest {
    type V = SwapView;

    open spec fn view(&self) -> SwapView {
        SwapView {
            key: self.key@,
            expected: match self.expected {
                Some(v) => Some(v@),
                None => None,
            },
            new: self.new@,
        }
    }
}

/// How the store answers a request.
#[derive(Debug, Copy, Clone, PartialEq, Eq, Structural)]
pub enum SwapOutcome {
    /// The key holds the new value.
    Swapped,
    /// The key held something else, and still does.
    Refused,
    /// The store failed.
    Failed,
}

/// Why a key could not be reserved or marked.
#[derive(Debug, Copy, Clone, PartialEq, Eq, Structural)]
pub enum ReserveError {
    AlreadyUsed,
    Db,
}

/// The request that reserves a key.
pub open spec fn reservation(key: Seq<u8>, pending: Seq<u8>) -> SwapView {
    SwapView { key, expected: None, new: pending }
}

/// The request that marks a reserved key as spent.
pub open spec fn spending(key: Seq<u8>, pending: Seq<u8>, spent: Seq<u8>) -> SwapView {
    SwapView { key, expected: Some(pending), new: spent }
}

/// The request that reserves a key. Any record that the key holds already, even
/// one that is malformed or old, refuses it.
pub fn reserve_nullifier(rkey: &[u8], pending_val: &[u8]) -> (r: SwapRequest)
    ensures
        r@ == reservation(rkey@, pending_val@),
{
    SwapRequest {
        key: text::copy_bytes(rkey),
        expected: None,
        new: text::copy_bytes(pending_val),
    }
}

/// The request that marks a reserved key as spent.
pub fn mark_nullifier_spent(rkey: &[u8], pending_val: &[u8], spent_val: &[u8]) -> (r: SwapRequest)
    ensures
        r@ == spending(rkey@, pending_val@, spent_val@),
{
    SwapRequest {
        key: text::copy_bytes(rkey),
        expected: Some(text::copy_bytes(pending_val)),
        new: text::copy_bytes(spent_val),
    }
}

/// What the store's answer to a reservation means. `flushed` says whether what
/// was swapped has reached the disk.
pub fn reserve_outcome(swap: SwapOutcome, flushed: bool) -> (r: Result<(), ReserveError>)
    ensures
        r == match swap {
            SwapOutcome::Failed => Err::<(), ReserveError>(ReserveError::Db),
            SwapOutcome::Refused => Err::<(), ReserveError>(ReserveError::AlreadyUsed),
            SwapOutcome::Swapped => if flushed {
                Ok::<(), ReserveError>(())
            } else {
                Err::<(), ReserveError>(ReserveError::Db)
            },
        },
{
    match swap {
        SwapOutcome::Failed => Err(ReserveError::Db),
        SwapOutcome::Refused => Err(ReserveError::AlreadyUsed),
        SwapOutcome::Swapped => if flushed {
            Ok(())
        } else {
            Err(ReserveError::Db)
        },
    }
}

/// What the store's answer to marking a key as spent means.
pub fn mark_outcome(swap: SwapOutcome, flushed: bool) -> (r: Result<(), ReserveError>)
    ensures
        r is Ok <==> swap == SwapOutcome::Swapped && flushed,
        r matches Err(e) ==> e == ReserveError::Db,
{
    match swap {
        SwapOutcome::Swapped => if flushed {
            Ok(())
        } else {
            Err(ReserveError::Db)
        },
        _ => Err(ReserveError::Db),
    }
}

/// Whether a store that holds `store` grants a request.
pub open spec fn grants(store: Map<Seq<u8>, Seq<u8>>, request: SwapView) -> bool {
    match request.expected {
        None => !store.dom().contains(request.key),
        Some(v) => store.dom().contains(request.key) && store[request.key] == v,
    }
}

/// The store after a request.
pub open spec fn after(store: Map<Seq<u8>, Seq<u8>>, request: SwapView) -> Map<Seq<u8>, Seq<u8>> {
    if grants(store, request) {
        store.insert(request.key, request.new)
    } else {
        store
    }
}

/// The store after some requests.
pub open spec fn after_all(store: Map<Seq<u8>, Seq<u8>>, requests: Seq<SwapView>) -> Map<
    Seq<u8>,
    Seq<u8>,
>
    decreases requests.len(),
{
    if requests.len() == 0 {
        store
    } else {
        after(after_all(store, requests.drop_last()), requests.last())
    }
}

/// Whether the request at position `i` is a reservation of `key` that is
/// granted.
pub open spec fn reserves_at(
    store: Map<Seq<u8>, Seq<u8>>,
    requests: Seq<SwapView>,
    key: Seq<u8>,
    i: int,
) -> bool {
    &&& requests[i].key == key
    &&& requests[i].expected is None
    &&& grants(after_all(store, requests.take(i)), requests[i])
}

/// A reservation asks for a key that holds nothing, and the spending of a key for one
/// that holds the very record of its reservation.
pub proof fn law_requests_say_what_they_expect(
    key: Seq<u8>,
    pending: Seq<u8>,
    spent: Seq<u8>,
    store: Map<Seq<u8>, Seq<u8>>,
)
    ensures
        reservation(key, pending).key == key,
        reservation(key, pending).new == pending,
        spending(key, pending, spent).key == key,
        spending(key, pending, spent).new == spent,
        grants(store, reservation(key, pending)) <==> !store.contains_key(key),
        grants(store, spending(key, pending, spent)) <==> store.contains_key(key) && store[key]
            == pending,
{
}

/// A request that is granted sets its key to the new record and leaves all other keys
/// as they were; one that is refused changes nothing.
pub proof fn law_request_changes_its_key_alone(
    store: Map<Seq<u8>, Seq<u8>>,
    request: SwapView,
    other: Seq<u8>,
)
    ensures
        grants(store, request) ==> after(store, request).contains_key(request.key) && after(
            store,
            request,
        )[request.key] == request.new,
        !grants(store, request) ==> after(store, request) == store,
        other != request.key ==> (after(store, request).contains_key(other) <==> store.contains_key(
            other,
        )) && after(store, request)[other] == store[other],
{
}

/// A record has nine bytes: its status and the time, most significant byte first. What
/// has another length is no record.
pub proof fn law_record_has_nine_bytes(status: u8, ts_ms: u64, v: Seq<u8>)
    ensures
        record(status, ts_ms).len() == 9,
        record(status, ts_ms)[0] == status,
        record(status, ts_ms).skip(1) == be_bytes(ts_ms as nat, 8),
        v.len() != 9 ==> record_parts(v) is None,
        v.len() == 9 ==> (record_parts(v) matches Some((kind, time)) && record(kind, time) == v),
{
    bytes::law_u64_round_trip(ts_ms);
    assert(record(status, ts_ms).skip(1) =~= be_bytes(ts_ms as nat, 8));
    if v.len() == 9 {
        let tail = v.skip(1);
        bytes::law_be_write_read(tail);
        bytes::law_eight_bytes_fit(tail);
        assert(record(v[0], be_value(tail) as u64) =~= v);
    }
}

/// A key that holds a record, whatever it says, is never reserved, and the
/// refused request leaves the store as it was.
pub proof fn law_used_key_is_refused(
    store: Map<Seq<u8>, Seq<u8>>,
    key: Seq<u8>,
    pending: Seq<u8>,
)
    requires
        store.dom().contains(key),
    ensures
        !grants(store, reservation(key, pending)),
        after(store, reservation(key, pending)) == store,
{
}

/// A granted reservation holds, and it can be marked as spent.
pub proof fn law_reserved_key_can_be_spent(
    store: Map<Seq<u8>, Seq<u8>>,
    key: Seq<u8>,
    pending: Seq<u8>,
    spent: Seq<u8>,
)
    requires
        grants(store, reservation(key, pending)),
    ensures
        grants(after(store, reservation(key, pending)), spending(key, pending, spent)),
        after(after(store, reservation(key, pending)), spending(key, pending, spent))[key] == spent,
{
}

/// No sequence of requests makes a key lose its record.
pub proof fn law_records_are_never_lost(
    store: Map<Seq<u8>, Seq<u8>>,
    requests: Seq<SwapView>,
    key: Seq<u8>,
)
    requires
        store.dom().contains(key),
    ensures
        after_all(store, requests).dom().contains(key),
    decreases requests.len(),
{
    if requests.len() > 0 {
        law_records_are_never_lost(store, requests.drop_last(), key);
    }
}

/// Among any requests, from however many callers and in whatever order, a key
/// is reserved at most once.
pub proof fn law_key_is_reserved_at_most_once(
    store: Map<Seq<u8>, Seq<u8>>,
    requests: Seq<SwapView>,
    key: Seq<u8>,
    i: int,
    j: int,
)
    requires
        0 <= i < j < requests.len(),
        reserves_at(store, requests, key, i),
    ensures
        !reserves_at(store, requests, key, j),
{
    lemma_after_prefix(store, requests, i + 1, j);
    let first = requests.take(i + 1);
    assert(first.drop_last() =~= requests.take(i));
    assert(first.last() == requests[i]);
    law_records_are_never_lost(
        after_all(store, first),
        requests.subrange(i + 1, j),
        key,
    );
}

proof fn lemma_after_prefix(
    store: Map<Seq<u8>, Seq<u8>>,
    requests: Seq<SwapView>,
    i: int,
    j: int,
)
    requires
        0 <= i <= j <= requests.len(),
    ensures
        after_all(store, requests.take(j)) == after_all(
            after_all(store, requests.take(i)),
            requests.subrange(i, j),
        ),
    decreases j - i,
{
    if i == j {
        assert(requests.subrange(i, j) =~= Seq::empty());
    } else {
        lemma_after_prefix(store, requests, i, j - 1);
        assert(requests.take(j).drop_last() =~= requests.take(j - 1));
        assert(requests.subrange(i, j).drop_last() =~= requests.subrange(i, j - 1));
    }
}

} // verus!
