use base64::{engine::general_purpose::STANDARD as B64, Engine as _};
use zk_llm_gateway::memory_store::{Doc, DocKind, RetrievedContext};
use zk_llm_gateway::prompt::{
    assemble_messages, build_remote_messages_with_retrieval, enforce_budget, pad_with_filler,
    try_build_remote_messages, PromptBuildConfig,
};
use zk_llm_gateway::redaction::{RedactMode, RedactionState, Redactor};
use zk_llm_gateway::session::Session;
use zk_llm_gateway::token::TokenClass;
use zk_llm_gateway::types::ChatMessage;

fn message(role: &str, content: &str) -> ChatMessage {
    ChatMessage { role: role.to_string(), content: content.to_string(), extra: vec![] }
}

fn redactor() -> Redactor {
    match Redactor::from_state(RedactionState::new(B64.encode([7u8; 32]))) {
        Ok(r) => r,
        Err(e) => panic!("{:?}", e),
    }
}

fn nothing() -> RetrievedContext {
    RetrievedContext { memories: vec![], recall: vec![] }
}

fn shown(messages: &Vec<ChatMessage>) -> Vec<(String, String)> {
    messages.iter().map(|m| (m.role.clone(), m.content.clone())).collect()
}

fn small() -> PromptBuildConfig {
    PromptBuildConfig {
        max_recent_messages: 2,
        max_memory_items: 2,
        include_summary: true,
        normalize_context_blocks: false,
        pad_system_prompt: false,
        max_padding_bytes: 65536,
        max_recall_snippets: 1,
    }
}

const NOTE: &str = "\n\n[Privacy note]\nYou may see placeholders like <EMAIL_...> or <API_KEY_...>. Do not ask for the underlying values. Treat them as stable identifiers.";

#[test]
fn default_configuration() {
    let cfg = PromptBuildConfig::default();
    assert_eq!(cfg.max_recent_messages, 8);
    assert_eq!(cfg.max_memory_items, 8);
    assert_eq!(cfg.max_recall_snippets, 6);
    assert_eq!(cfg.max_padding_bytes, 65536);
    assert!(cfg.include_summary && cfg.normalize_context_blocks && cfg.pad_system_prompt);
}

#[test]
fn prompts_hold_the_selected_context_and_the_recent_messages() {
    let mut session = Session::new("Be brief.".to_string());
    session.summary = " so far \n".to_string();
    session.messages =
        vec![message("user", "one"), message("assistant", "two"), message("user", "three")];
    let doc = |text: &str, tags: &[&str]| Doc {
        kind: DocKind::Memory,
        id: "m".to_string(),
        created_at_ms: 0,
        role: None,
        msg_index: None,
        text: text.to_string(),
        tags: tags.iter().map(|t| t.to_string()).collect(),
    };
    let retrieved = RetrievedContext {
        memories: vec![doc("likes tea", &["a", "b"]), doc("has a cat", &[]), doc("third", &[])],
        recall: vec![message("user", "old"), message("user", "older")],
    };
    let mut red = redactor();
    let messages =
        assemble_messages(&session, &retrieved, RedactMode::Basic, &vec![], &mut red, &small());
    let context = "[Conversation summary (local)]\nso far\n\n[Selected memory (local)]\n- M1 [a,b]: likes tea\n- M2: has a cat\n\n[Recall snippets (local)]\n- R1 user: old\n\n";
    assert_eq!(
        shown(&messages),
        vec![
            ("system".to_string(), format!("Be brief.{}", NOTE)),
            ("system".to_string(), context.to_string()),
            ("assistant".to_string(), "two".to_string()),
            ("user".to_string(), "three".to_string()),
        ]
    );
}

#[test]
fn normalized_blocks_hide_what_is_in_use() {
    let session = Session::new("s".to_string());
    let cfg = PromptBuildConfig { normalize_context_blocks: true, ..small() };
    let messages = assemble_messages(
        &session, &nothing(), RedactMode::Basic, &vec![], &mut redactor(), &cfg,
    );
    assert_eq!(
        messages[1].content,
        "[Conversation summary (local)]\n<EMPTY>\n\n[Selected memory (local)]\n- M1: <EMPTY>\n- M2: <EMPTY>\n\n[Recall snippets (local)]\n- R1: <EMPTY>\n\n"
    );
}

#[test]
fn what_leaves_the_client_is_redacted() {
    let mut session = Session::new("I am a@b.co".to_string());
    session.summary = "wrote to c@d.co".to_string();
    session.messages = vec![message("user", "mail e@f.co about Zeta")];
    let mut red = redactor();
    let messages = assemble_messages(
        &session, &nothing(), RedactMode::Basic, &vec!["Zeta".to_string()], &mut red, &small(),
    );
    for m in &messages {
        for secret in ["a@b.co", "c@d.co", "e@f.co", "Zeta"] {
            assert!(!m.content.contains(secret), "{} in {}", secret, m.content);
        }
    }
    assert_eq!(red.rehydrate(&messages[2].content), "mail e@f.co about Zeta");
}

fn bytes(messages: &Vec<ChatMessage>) -> usize {
    messages.iter().map(|m| m.role.len() + m.content.len()).sum()
}

#[test]
fn older_messages_go_before_the_last_one_is_cut() {
    let messages = vec![
        message("system", "s"),
        message("user", &"a".repeat(50)),
        message("assistant", &"b".repeat(50)),
        message("user", &"c".repeat(50)),
    ];
    let kept = enforce_budget(messages.clone(), 80).unwrap();
    assert!(bytes(&kept) <= 80);
    assert_eq!(kept[0].content, "s");
    assert_eq!(kept.last().unwrap().content, "c".repeat(50));
    let cut = enforce_budget(messages, 40).unwrap();
    assert!(bytes(&cut) <= 40);
    let last = &cut.last().unwrap().content;
    assert!(last.ends_with('…') && last.chars().count() < 50);
}

#[test]
fn what_fits_stays_as_it_is_and_what_cannot_fit_is_given_up() {
    let messages = vec![message("system", "s"), message("user", "u")];
    assert_eq!(shown(&enforce_budget(messages.clone(), 100).unwrap()), shown(&messages));
    let hopeless = vec![message("system", &"s".repeat(50)), message("user", "hello")];
    assert!(enforce_budget(hopeless, 40).is_none());
}

#[test]
fn padding_goes_to_the_system_prompt() {
    let messages = vec![message("system", "s"), message("user", "u")];
    let padded = pad_with_filler(messages, 200, " the and");
    assert!(padded[0].content.starts_with("s") && padded[0].content.contains(" the and"));
    assert_eq!(padded[1].content, "u");
}

#[test]
fn prompts_are_padded_toward_their_class() {
    let mut session = Session::new("Be brief.".to_string());
    session.messages = vec![message("user", "hello")];
    let cfg = PromptBuildConfig::default();
    let mut lengths = vec![];
    for content in ["hello", "a rather longer message than the other one"] {
        session.messages[0].content = content.to_string();
        let messages = build_remote_messages_with_retrieval(
            &session, &nothing(), TokenClass::C256, RedactMode::Basic, &vec![], &mut redactor(),
            &cfg,
        );
        assert!(bytes(&messages) <= 2048);
        assert_eq!(messages.last().unwrap().content, content);
        lengths.push(bytes(&messages));
    }
    assert_eq!(lengths[0], lengths[1]);
}

#[test]
fn a_prompt_that_cannot_be_brought_to_size_is_not_built() {
    let mut session = Session::new("s".repeat(3000));
    session.messages = vec![message("user", "mail a@b.co")];
    let mut red = redactor();
    let built = try_build_remote_messages(
        &session, &nothing(), TokenClass::C256, RedactMode::Basic, &vec![], &mut red, &small(),
    );
    assert!(built.is_none());
    assert!(red.state().entries.is_empty());
    session.system_prompt = "s".to_string();
    let built = try_build_remote_messages(
        &session, &nothing(), TokenClass::C256, RedactMode::Basic, &vec![], &mut red, &small(),
    );
    assert_eq!(built.unwrap().len(), 3);
    assert_eq!(red.state().entries.len(), 1);
}

#[test]
fn long_conversations_stay_local() {
    let mut session = Session::new("Be brief.".to_string());
    for i in 0..100 {
        session.messages.push(message("user", &format!("message number {}", i)));
    }
    let messages = build_remote_messages_with_retrieval(
        &session, &nothing(), TokenClass::C2048, RedactMode::Basic, &vec![], &mut redactor(),
        &PromptBuildConfig::default(),
    );
    assert_eq!(messages.len(), 2 + 8);
    assert_eq!(messages[2].content, "message number 92");
    assert_eq!(messages[9].content, "message number 99");
}

#[test]
fn context_gives_way_to_the_message_of_the_user() {
    let messages = vec![
        message("system", "s"),
        message("system", &"m".repeat(500)),
        message("user", "before"),
        message("user", "hello"),
    ];
    let fit = enforce_budget(messages, 200).unwrap();
    assert!(bytes(&fit) <= 200);
    assert_eq!(fit.len(), 4);
    assert_eq!(fit[0].content, "s");
    assert!(fit[1].content.starts_with("mmm") && fit[1].content.ends_with('…'));
    assert_eq!(fit[3].content, "hello");

    let tight = vec![
        message("system", &"s".repeat(25)),
        message("system", &"m".repeat(50)),
        message("user", &"u".repeat(100)),
    ];
    let fit = enforce_budget(tight, 40).unwrap();
    assert_eq!(
        shown(&fit),
        vec![
            ("system".to_string(), "s".repeat(25)),
            ("user".to_string(), "…".to_string()),
        ]
    );
}

#[test]
fn full_memory_fits_the_smallest_class() {
    let mut session = Session::new("Be brief.".to_string());
    session.messages = vec![message("user", "hello")];
    let retrieved = RetrievedContext {
        memories: (0..8)
            .map(|i| Doc {
                kind: DocKind::Memory,
                id: format!("m{}", i),
                created_at_ms: 0,
                role: None,
                msg_index: None,
                text: "m".repeat(400),
                tags: vec![],
            })
            .collect(),
        recall: (0..6).map(|_| message("user", &"r".repeat(300))).collect(),
    };
    for pad in [false, true] {
        let cfg = PromptBuildConfig { pad_system_prompt: pad, ..PromptBuildConfig::default() };
        let messages = build_remote_messages_with_retrieval(
            &session, &retrieved, TokenClass::C256, RedactMode::Basic, &vec![], &mut redactor(),
            &cfg,
        );
        assert!(bytes(&messages) <= TokenClass::C256.max_prompt_bytes());
        assert_eq!(messages[0].role, "system");
        assert!(messages[0].content.starts_with("Be brief."));
        assert!(messages[1].content.contains("- M1: mmm"));
        assert_eq!(messages.last().unwrap().role, "user");
        assert_eq!(messages.last().unwrap().content, "hello");
    }
}
