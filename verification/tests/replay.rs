use zk_llm_gateway::bytes::{u64_from_be, u64_to_be};
use zk_llm_gateway::clock::{epoch_millis, millis, now_ms_u64};
use zk_llm_gateway::replay::{
    decode_nullifier_value, encode_nullifier_value, mark_nullifier_spent, mark_outcome,
    reserve_nullifier, reserve_outcome, ReserveError, SwapOutcome, SwapRequest,
};

fn temporary_db() -> sled::Db {
    sled::Config::new().temporary(true).open().expect("temporary sled db")
}

fn swap(db: &sled::Db, request: &SwapRequest) -> SwapOutcome {
    match db.compare_and_swap(
        &request.key,
        request.expected.as_deref(),
        Some(request.new.as_slice()),
    ) {
        Err(_) => SwapOutcome::Failed,
        Ok(Err(_)) => SwapOutcome::Refused,
        Ok(Ok(())) => SwapOutcome::Swapped,
    }
}

fn reserve(db: &sled::Db, key: &[u8], pending: &[u8]) -> Result<(), ReserveError> {
    let outcome = swap(db, &reserve_nullifier(key, pending));
    reserve_outcome(outcome, outcome == SwapOutcome::Swapped && db.flush().is_ok())
}

fn mark(db: &sled::Db, key: &[u8], pending: &[u8], spent: &[u8]) -> Result<(), ReserveError> {
    let outcome = swap(db, &mark_nullifier_spent(key, pending, spent));
    mark_outcome(outcome, outcome == SwapOutcome::Swapped && db.flush().is_ok())
}

#[test]
fn reserve_nullifier_rejects_existing_spent_value() {
    let db = temporary_db();
    let key = b"nullifier";
    let pending = encode_nullifier_value(b'p', 100);
    let spent = encode_nullifier_value(b's', 101);

    reserve(&db, key, &pending).expect("initial reserve");
    mark(&db, key, &pending, &spent).expect("mark spent");

    let err = reserve(&db, key, &pending).expect_err("spent rejects replay");
    assert!(matches!(err, ReserveError::AlreadyUsed));
}

#[test]
fn reserve_nullifier_never_expires_ambiguous_pending() {
    let db = temporary_db();
    let key = b"nullifier";
    let stale = encode_nullifier_value(b'p', 1);
    let fresh = encode_nullifier_value(b'p', 10_000);
    db.insert(key, stale.clone()).expect("seed stale");
    db.flush().expect("flush seed");

    let error = reserve(&db, key, &fresh).expect_err("stale pending must refuse");
    assert!(matches!(error, ReserveError::AlreadyUsed));

    let stored = db.get(key).expect("read value").expect("value exists");
    assert_eq!(
        decode_nullifier_value(stored.as_ref()),
        decode_nullifier_value(&stale)
    );
}

#[test]
fn unknown_and_malformed_existing_replay_records_fail_closed() {
    let db = temporary_db();
    for (i, value) in [
        b"".to_vec(),
        b"broken".to_vec(),
        encode_nullifier_value(b'p', 0),
        encode_nullifier_value(b'x', 0),
    ]
    .iter()
    .enumerate()
    {
        let key = [i as u8];
        db.insert(key, value.as_slice()).unwrap();
        assert!(matches!(
            reserve(&db, &key, &encode_nullifier_value(b'p', 9999)),
            Err(ReserveError::AlreadyUsed)
        ));
    }
}

#[test]
fn only_the_reservation_itself_can_be_spent() {
    let db = temporary_db();
    let pending = encode_nullifier_value(b'p', 1);
    let other = encode_nullifier_value(b'p', 2);
    let spent = encode_nullifier_value(b's', 3);
    assert!(matches!(mark(&db, b"k", &pending, &spent), Err(ReserveError::Db)));
    reserve(&db, b"k", &pending).expect("reserve");
    assert!(matches!(mark(&db, b"k", &other, &spent), Err(ReserveError::Db)));
    mark(&db, b"k", &pending, &spent).expect("spend");
    assert!(matches!(mark(&db, b"k", &pending, &spent), Err(ReserveError::Db)));
    assert_eq!(db.get(b"k").unwrap().unwrap().as_ref(), spent.as_slice());
}

#[test]
fn store_answers_map_to_outcomes() {
    assert!(reserve_outcome(SwapOutcome::Swapped, true).is_ok());
    assert_eq!(reserve_outcome(SwapOutcome::Swapped, false), Err(ReserveError::Db));
    assert_eq!(reserve_outcome(SwapOutcome::Refused, true), Err(ReserveError::AlreadyUsed));
    assert_eq!(reserve_outcome(SwapOutcome::Failed, true), Err(ReserveError::Db));
    assert!(mark_outcome(SwapOutcome::Swapped, true).is_ok());
    assert_eq!(mark_outcome(SwapOutcome::Refused, true), Err(ReserveError::Db));
    assert_eq!(mark_outcome(SwapOutcome::Failed, true), Err(ReserveError::Db));
}

#[test]
fn records_are_a_status_and_a_big_endian_time() {
    let record = encode_nullifier_value(b'p', 0x0102_0304_0506_0708);
    assert_eq!(record, vec![b'p', 1, 2, 3, 4, 5, 6, 7, 8]);
    assert_eq!(decode_nullifier_value(&record), Some((b'p', 0x0102_0304_0506_0708)));
    assert_eq!(decode_nullifier_value(&record[..8]), None);
    assert_eq!(decode_nullifier_value(&[]), None);
}

#[test]
fn big_endian_words() {
    assert_eq!(u64_to_be(258), vec![0, 0, 0, 0, 0, 0, 1, 2]);
    assert_eq!(u64_from_be(&[0, 0, 0, 0, 0, 0, 1, 2]), 258);
    assert_eq!(u64_from_be(&u64_to_be(u64::MAX)), u64::MAX);
}

#[test]
fn times_are_in_milliseconds() {
    assert_eq!(millis(1, 500), 1500);
    assert_eq!(millis(0, 0), 0);
    assert_eq!(epoch_millis(Some((2, 1))), 2001);
    assert_eq!(epoch_millis(None), 0);
    let before = std::time::SystemTime::now()
        .duration_since(std::time::UNIX_EPOCH)
        .unwrap()
        .as_millis() as u64;
    let now = now_ms_u64();
    assert!(before <= now && now < before + 10_000);
}
