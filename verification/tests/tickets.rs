use base64::{engine::general_purpose::STANDARD as B64, Engine as _};
use zk_llm_gateway::tickets::{
    dev_ticket_with, ActumDevTicketSource, DummyTicketSource, FileTicketSource, TicketError,
    TicketSource,
};
use zk_llm_gateway::token::TokenClass;
use zk_llm_gateway::zk::{B64Bytes, ZkTicket};

#[test]
fn actum_dev_ticket_binds_exact_request_commitment() {
    let commitment = vec![3; 32];
    let ticket = ActumDevTicketSource.next_ticket(TokenClass::C512, &commitment).unwrap();
    assert_eq!(ticket.commitment_root.0, commitment);
    let evidence: serde_json::Value = serde_json::from_slice(&ticket.proof.0).unwrap();
    assert_eq!(evidence["schema"], "actum.payment-finality.v1");
    assert_eq!(evidence["finalized"], true);
}

#[test]
fn actum_dev_evidence_repeats_the_bindings() {
    let ticket = dev_ticket_with(TokenClass::C512, &[3; 32], vec![1; 48], vec![2; 48]);
    let evidence: serde_json::Value = serde_json::from_slice(&ticket.proof.0).unwrap();
    assert_eq!(evidence["request_commitment_b64"], B64.encode([3u8; 32]));
    assert_eq!(evidence["replay_identifier_b64"], B64.encode([1u8; 48]));
    assert_eq!(evidence["authorization_id_b64"], B64.encode([2u8; 48]));
    assert_eq!(evidence["token_class"], "c512");
    assert_eq!(ticket.nullifier.0, vec![1; 48]);
    assert_eq!(
        ActumDevTicketSource.next_ticket(TokenClass::C512, &[3; 31]).unwrap_err(),
        TicketError::CommitmentLength
    );
}

#[test]
fn dummy_tickets_are_bound_and_fresh() {
    let mut source = DummyTicketSource::default();
    let first = source.next_ticket(TokenClass::C256, &[1, 2]).unwrap();
    let second = source.next_ticket(TokenClass::C256, &[1, 2]).unwrap();
    assert_eq!(first.commitment_root.0, vec![1, 2]);
    assert_eq!(first.nullifier.0.len(), 32);
    assert_eq!(first.proof.0.len(), 64);
    assert_ne!(first.nullifier.0, second.nullifier.0);
    assert_ne!(first.nullifier.0, vec![0; 32]);
}

fn issued(class: TokenClass, root: u8, nullifier: u8) -> ZkTicket {
    ZkTicket {
        commitment_root: B64Bytes(vec![root]),
        nullifier: B64Bytes(vec![nullifier]),
        token_class: class,
        proof: B64Bytes(vec![]),
    }
}

#[test]
fn issued_tickets_are_used_once_and_by_class() {
    let mut source = FileTicketSource::new(vec![
        issued(TokenClass::C256, 1, 10),
        issued(TokenClass::C512, 1, 11),
        issued(TokenClass::C512, 1, 12),
    ]);
    assert_eq!(source.next_ticket(TokenClass::C512, &[1]).unwrap().nullifier.0, vec![11]);
    assert_eq!(source.tickets().len(), 2);
    assert_eq!(source.next_ticket(TokenClass::C1024, &[1]).unwrap().nullifier.0, vec![10]);
    assert_eq!(source.next_ticket(TokenClass::C512, &[1]).unwrap().nullifier.0, vec![12]);
    let error = source.next_ticket(TokenClass::C512, &[1]).unwrap_err();
    assert_eq!(error, TicketError::Empty);
    assert_eq!(error.message(), "ticket file is empty");
}

#[test]
fn a_ticket_for_another_request_is_refused() {
    let mut source = FileTicketSource::new(vec![issued(TokenClass::C256, 1, 10)]);
    let error = source.next_ticket(TokenClass::C256, &[2]).unwrap_err();
    assert_eq!(error, TicketError::NotBound);
    assert_eq!(error.message(), "issued ticket is not bound to the exact inference request");
    assert!(source.tickets().is_empty());
}
