use zk_llm_gateway::agent::{AgentError, AgentRuntime};
use zk_llm_gateway::crypto::Uuid;
use zk_llm_gateway::memory_store::RetrievedContext;
use zk_llm_gateway::prompt::PromptBuildConfig;
use zk_llm_gateway::redaction::{RedactMode, Redactor};
use zk_llm_gateway::session::Session;
use zk_llm_gateway::tickets::{DummyTicketSource, FileTicketSource, TicketError};
use zk_llm_gateway::token::TokenClass;
use zk_llm_gateway::types::{
    ChatMessage, ErrorResponse, GatewayEnvelopePayload, InferenceResponse,
};

fn agent_over(session: Session, extra: &[&str]) -> AgentRuntime {
    let redactor = match Redactor::from_state(session.redaction.clone()) {
        Ok(r) => r,
        Err(e) => panic!("{:?}", e),
    };
    AgentRuntime::new(
        "http://127.0.0.1:8081/relay".to_string(),
        [1; 32],
        "model".to_string(),
        TokenClass::C512,
        RedactMode::Basic,
        extra.iter().map(|t| t.to_string()).collect(),
        PromptBuildConfig { max_recent_messages: 2, ..PromptBuildConfig::default() },
        "s.session.json".to_string(),
        None,
        session,
        redactor,
        true,
        100,
    )
}

fn agent() -> AgentRuntime {
    let mut session = Session::new("Be brief.".to_string());
    // With this salt no placeholder below holds digits that pass for a phone number.
    session.redaction.salt_b64 = "BwcHBwcHBwcHBwcHBwcHBwcHBwcHBwcHBwcHBwcHBwc=".to_string();
    agent_over(session, &[])
}

fn nothing() -> RetrievedContext {
    RetrievedContext { memories: vec![], recall: vec![] }
}

fn success(output: &str) -> GatewayEnvelopePayload {
    GatewayEnvelopePayload::Success {
        response: InferenceResponse {
            request_id: Uuid { bytes: [0; 16] },
            model: "model".to_string(),
            output: output.to_string(),
            billed_token_class: TokenClass::C512,
            upstream: None,
        },
    }
}

#[test]
fn terms_of_session_and_user_are_merged() {
    let mut session = Session::new("s".to_string());
    session.redaction.custom_terms = vec!["Alpha".to_string()];
    let agent = agent_over(session, &["Beta", "Alpha", " "]);
    let expected = vec!["Alpha".to_string(), "Beta".to_string()];
    assert_eq!(agent.redactor.state().custom_terms, expected);
    assert_eq!(agent.session.redaction.custom_terms, expected);
}

#[test]
fn what_is_remembered_is_found() {
    let mut agent = agent();
    agent.remember("green tea".to_string(), vec!["drink".to_string()]);
    assert_eq!(agent.list_memory().len(), 1);
    assert_eq!(agent.list_memory()[0].text, "green tea");
    let plan = agent.plan_search("tea", 5, 5);
    assert_eq!(plan.memory[0].hits[0].doc, 0);
}

#[test]
fn settings_of_the_session_change() {
    let mut agent = agent();
    agent.set_system_prompt("new".to_string());
    assert_eq!(agent.session.system_prompt, "new");
    agent.add_redaction_term("Zeta".to_string());
    assert_eq!(agent.session.redaction.custom_terms, vec!["Zeta".to_string()]);
}

#[test]
fn the_last_messages_are_shown() {
    let mut agent = agent();
    for text in ["a", "b", "c"] {
        agent.start_turn(text.to_string());
    }
    let contents: Vec<String> = agent.messages(2).iter().map(|m| m.content.clone()).collect();
    assert_eq!(contents, vec!["b".to_string(), "c".to_string()]);
    assert_eq!(agent.messages(9).len(), 3);
    assert!(agent.messages(0).is_empty());
    assert_eq!(agent.recall_cutoff(), 1);
    let plan = agent.plan_search("nothing", 1, 1);
    assert!(plan.messages.is_empty());
}

#[test]
fn a_turn_goes_out_redacted_and_comes_back_whole() {
    let mut agent = agent();
    agent.start_turn("write to a@b.co".to_string());
    let id = Uuid { bytes: [5; 16] };
    let request = match agent.ask(&nothing(), id, &mut DummyTicketSource) {
        Ok(request) => request,
        Err(e) => panic!("{}", e.message()),
    };
    assert_eq!(request.request_id, id);
    assert_eq!(request.model, "model");
    assert_eq!(request.token_class, TokenClass::C512);
    assert_eq!(
        request.ticket.commitment_root.0,
        request.authorization_commitment().unwrap()
    );
    let sent = &request.messages.last().unwrap().content;
    assert!(sent.starts_with("write to <EMAIL_"));
    let placeholder = sent.strip_prefix("write to ").unwrap();
    let reply = agent.accept(&success(&format!("done: {}", placeholder)));
    assert_eq!(reply.ok().unwrap(), "done: a@b.co");
    assert_eq!(agent.session.messages.len(), 2);
    assert_eq!(agent.session.messages[1].role, "assistant");
    assert_eq!(agent.session.messages[1].content, "done: a@b.co");
    assert_eq!(agent.memory_store.doc_count(), 2);

    let turn = agent.summary_turn();
    assert_eq!(turn[0].content, *sent);
    agent.finish_turn(&turn, None);
    assert_eq!(
        agent.session.summary,
        format!("- user: {}\n- assistant: done: {}\n", sent, placeholder)
    );
    assert_eq!(agent.session.redaction.entries.len(), 1);
}

#[test]
fn errors_of_the_gateway_leave_the_session_alone() {
    let mut agent = agent();
    let failure = GatewayEnvelopePayload::Failure {
        error: ErrorResponse {
            request_id: None,
            code: "double_spend".to_string(),
            message: "used".to_string(),
        },
    };
    match agent.accept(&failure) {
        Ok(_) => panic!("an error was taken for an answer"),
        Err(e) => assert_eq!(e.message(), "gateway error: double_spend - used"),
    }
    assert!(agent.session.messages.is_empty());
}

#[test]
fn turns_fail_without_a_ticket_or_room() {
    let mut agent = agent();
    agent.start_turn("hello".to_string());
    let id = Uuid { bytes: [5; 16] };
    match agent.ask(&nothing(), id, &mut FileTicketSource::new(vec![])) {
        Err(AgentError::Ticket(e)) => assert_eq!(e, TicketError::Empty),
        _ => panic!("a ticket came out of nothing"),
    }
    agent.set_system_prompt("s".repeat(5000));
    match agent.ask(&nothing(), id, &mut DummyTicketSource) {
        Err(e) => assert_eq!(e.message(), "prompt does not fit the token class"),
        Ok(_) => panic!("the prompt fit"),
    }
    assert!(agent.compose_request(&nothing(), id).is_none());
}

fn message(role: &str, content: &str) -> ChatMessage {
    ChatMessage { role: role.to_string(), content: content.to_string(), extra: vec![] }
}

#[test]
fn summaries_stay_bounded() {
    let mut agent = agent();
    let turn = vec![message("user", &"é".repeat(500))];
    for _ in 0..20 {
        agent.finish_turn(&turn, None);
        assert!(agent.session.summary.len() <= 4000);
    }
    assert!(agent.session.summary.ends_with("é\n"));
    agent.finish_turn(&turn, Some("short".to_string()));
    assert_eq!(agent.session.summary, "short");
}
