use zk_llm_gateway::api::{
    check_api_key, chunk_string, default_k, default_limit, stream_events, stream_start, ApiError,
};
use zk_llm_gateway::envelope::{seal_request_for_gateway, GatewayKeypair};
use zk_llm_gateway::local_ai::{summary_of, LocalAiConfig};
use zk_llm_gateway::relay::{relay, ForwardReply, RelayError};
use zk_llm_gateway::repl::{
    memory_hit_line, memory_line, parse_command, recall_hit_line, Command,
};
use zk_llm_gateway::token::TokenClass;
use zk_llm_gateway::types::ChatMessage;

fn message(role: &str, content: &str) -> ChatMessage {
    ChatMessage { role: role.to_string(), content: content.to_string(), extra: vec![] }
}

#[test]
fn keys_are_compared_exactly() {
    assert!(check_api_key(None, &None).is_ok());
    assert!(check_api_key(Some("x"), &None).is_ok());
    let key = Some("secret".to_string());
    assert!(check_api_key(Some("secret"), &key).is_ok());
    for got in [None, Some(""), Some("secre"), Some("Secret")] {
        assert!(matches!(check_api_key(got, &key), Err(ApiError::Unauthorized)));
    }
    assert!(check_api_key(None, &Some(String::new())).is_ok());
}

#[test]
fn api_errors_have_status_and_body() {
    let shown = |e: ApiError| (e.status(), e.body().text());
    assert_eq!(shown(ApiError::Unauthorized), (401, r#"{"error":"unauthorized"}"#.to_string()));
    assert_eq!(
        shown(ApiError::BadRequest("a \"b\"".to_string())),
        (400, r#"{"error":"a \"b\""}"#.to_string())
    );
    assert_eq!(shown(ApiError::Internal("c".to_string())), (500, r#"{"error":"c"}"#.to_string()));
    assert_eq!((default_limit(), default_k()), (50, 8));
}

#[test]
fn replies_are_cut_by_characters() {
    assert_eq!(chunk_string("añb", 2), vec!["añ".to_string(), "b".to_string()]);
    assert_eq!(chunk_string("abcd", 2), vec!["ab".to_string(), "cd".to_string()]);
    assert_eq!(chunk_string("ab", 0), vec!["a".to_string(), "b".to_string()]);
    assert_eq!(chunk_string("ab", 9), vec!["ab".to_string()]);
    assert!(chunk_string("", 3).is_empty());
    let text = "The quick brown fox jumps over the lazy dog";
    assert_eq!(chunk_string(text, 5).concat(), text);
}

#[test]
fn the_summarizer_is_asked_for_a_summary() {
    let cfg = LocalAiConfig {
        base_url: "http://127.0.0.1:1234//".to_string(),
        model: "llama".to_string(),
        api_key: None,
        timeout_ms: 1,
    };
    assert_eq!(cfg.url(), "http://127.0.0.1:1234/v1/chat/completions");
    let turn = vec![message("user", &"x".repeat(2001)), message("assistant", "y")];
    let request = cfg.summary_request("before", &turn);
    assert_eq!(request.model, "llama");
    assert_eq!(request.max_tokens, 512);
    assert_eq!(request.messages.len(), 2);
    assert_eq!(request.messages[0].role, "system");
    assert!(request.messages[0].content.starts_with("You are a privacy-preserving summarizer"));
    assert!(request.messages[0].content.ends_with("that were not present."));
    assert_eq!(request.messages[1].role, "user");
    assert_eq!(
        request.messages[1].content,
        format!(
            "Previous summary:\nbefore\n\nNew turn:\nuser: {}\nassistant: y\n\n\nReturn ONLY the updated summary.",
            "x".repeat(2000)
        )
    );
    assert_eq!(summary_of(Some(" s \n")), "s");
    assert_eq!(summary_of(None), "");
}

#[test]
fn the_relay_forwards_or_says_little() {
    let refusal = |reply| match relay(reply) {
        Ok(_) => panic!("an envelope came out of nothing"),
        Err(e) => e,
    };
    assert_eq!(refusal(ForwardReply::TimedOut), RelayError::Timeout);
    assert_eq!(refusal(ForwardReply::NotSent), RelayError::Unreachable);
    assert_eq!(refusal(ForwardReply::NotRead), RelayError::Unreachable);
    let answered = |status| ForwardReply::Answered { status, envelope: None };
    assert_eq!(refusal(answered(200)), RelayError::GatewayError);
    assert_eq!(refusal(answered(500)), RelayError::GatewayError);
    let keypair = GatewayKeypair::generate();
    let env = match seal_request_for_gateway(keypair.public_bytes(), TokenClass::C256, b"{}") {
        Ok((env, _)) => env,
        Err(e) => panic!("{}", e.message()),
    };
    let kept = env.ciphertext_b64.clone();
    match relay(ForwardReply::Answered { status: 200, envelope: Some(env.clone()) }) {
        Ok(out) => assert_eq!(out.ciphertext_b64, kept),
        Err(e) => panic!("{:?}", e),
    }
    let failed = ForwardReply::Answered { status: 300, envelope: Some(env) };
    assert_eq!(refusal(failed), RelayError::GatewayError);
    assert_eq!((RelayError::Timeout.status(), RelayError::Timeout.message()), (504, "gateway timeout"));
    assert_eq!(
        (RelayError::Unreachable.status(), RelayError::Unreachable.message()),
        (502, "gateway unreachable")
    );
    assert_eq!(
        (RelayError::GatewayError.status(), RelayError::GatewayError.message()),
        (502, "gateway error")
    );
}

#[test]
fn lines_are_commands_or_messages() {
    let shown = |line: &str| match parse_command(line) {
        Command::Nothing => "nothing".to_string(),
        Command::Exit => "exit".to_string(),
        Command::Help => "help".to_string(),
        Command::Memory => "memory".to_string(),
        Command::Remember(s) => format!("remember:{}", s),
        Command::Search(s) => format!("search:{}", s),
        Command::Redact(s) => format!("redact:{}", s),
        Command::System(s) => format!("system:{}", s),
        Command::Say(s) => format!("say:{}", s),
    };
    assert_eq!(shown(" \n"), "nothing");
    assert_eq!(shown("/exit\n"), "exit");
    assert_eq!(shown(" /quit"), "exit");
    assert_eq!(shown("/help"), "help");
    assert_eq!(shown("/memory"), "memory");
    assert_eq!(shown("/remember  the tea"), "remember: the tea");
    assert_eq!(shown("/remember"), "say:/remember");
    assert_eq!(shown("/search tea\n"), "search:tea");
    assert_eq!(shown("/redact Bob"), "redact:Bob");
    assert_eq!(shown("/system be brief"), "system:be brief");
    assert_eq!(shown("hello /exit"), "say:hello /exit");
}

#[test]
fn hits_are_shown_numbered() {
    let mut session = zk_llm_gateway::session::Session::new("s".to_string());
    session.push_memory("m".repeat(200), vec![]);
    assert_eq!(memory_line(0, &session.memory[0]), format!("1. {}", "m".repeat(120)));
    let mut store = zk_llm_gateway::memory_store::MemoryStore::new();
    store.add_memory_item(&session.memory[0]);
    let docs = store.ranked_docs(&vec![(0, 0)]);
    assert_eq!(memory_hit_line(1, &docs[0]), format!("- M2: {}", "m".repeat(160)));
    let recalled = message("user", &"r".repeat(200));
    assert_eq!(recall_hit_line(0, &recalled), format!("- R1 user: {}", "r".repeat(160)));
}

#[test]
fn a_stream_starts_with_its_ids() {
    let start = stream_start("r-1", "s-1");
    assert_eq!(start.name, "start");
    assert_eq!(start.data.text(), "{\"request_id\":\"r-1\",\"session_id\":\"s-1\"}");
    assert!(!start.pause);
}

#[test]
fn a_reply_is_streamed_in_pieces_to_the_end() {
    let events = stream_events(Ok("héllo"), 2);
    let seen: Vec<(&str, String, bool)> =
        events.iter().map(|e| (e.name, e.data.text(), e.pause)).collect();
    assert_eq!(
        seen,
        vec![
            ("delta", "{\"text\":\"hé\"}".to_string(), true),
            ("delta", "{\"text\":\"ll\"}".to_string(), true),
            ("delta", "{\"text\":\"o\"}".to_string(), true),
            ("done", "{\"ok\":true}".to_string(), false),
        ]
    );
    assert_eq!(stream_events(Ok("ab"), 0).len(), 3);
    assert_eq!(stream_events(Ok(""), 4).len(), 1);
}

#[test]
fn a_failed_stream_ends_with_the_error() {
    let events = stream_events(Err("no \"way\""), 2);
    assert_eq!(events.len(), 1);
    assert_eq!(events[0].name, "error");
    assert_eq!(events[0].data.text(), "{\"error\":\"no \\\"way\\\"\"}");
}
