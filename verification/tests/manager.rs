use zk_llm_gateway::manager::{
    get_or_load, list_sessions, new_session_id, session_of_file, validate_session_id,
    AgentManagerConfig, CreateError, OpenPlan, SessionIdError, SessionInfo, SessionPlace,
};
use zk_llm_gateway::prompt::PromptBuildConfig;
use zk_llm_gateway::redaction::RedactMode;
use zk_llm_gateway::token::TokenClass;

fn config(place: Option<&str>) -> AgentManagerConfig {
    AgentManagerConfig {
        endpoint_url: "http://127.0.0.1:8081/relay".to_string(),
        gateway_public_bytes: [0; 32],
        model: "m".to_string(),
        token_class: TokenClass::C256,
        redact_mode: RedactMode::Basic,
        extra_terms: vec![],
        prompt_cfg: PromptBuildConfig::default(),
        session_key: None,
        sessions_dir: "./sessions".to_string(),
        default_system_prompt: "default prompt".to_string(),
        default_session_id: "default".to_string(),
        default_session_path_override: place.map(|p| p.to_string()),
        timeout_ms: 1,
        index_messages: true,
        max_messages_indexed: 10,
    }
}

#[test]
fn session_ids_are_short_and_plain() {
    assert!(validate_session_id("a").is_ok());
    assert!(validate_session_id("A-z_09").is_ok());
    assert!(validate_session_id(&"x".repeat(64)).is_ok());
    assert_eq!(validate_session_id(""), Err(SessionIdError::Length));
    assert_eq!(validate_session_id(&"x".repeat(65)), Err(SessionIdError::Length));
    for id in ["../etc", "a/b", "a.b", "a b", "é", "a\\b"] {
        assert_eq!(validate_session_id(id), Err(SessionIdError::Characters), "{}", id);
    }
    assert_eq!(SessionIdError::Length.message(), "invalid session_id length");
    assert_eq!(
        SessionIdError::Characters.message(),
        "invalid session_id characters (allowed: [A-Za-z0-9_-])"
    );
}

#[test]
fn sessions_have_their_places() {
    let place = |cfg: AgentManagerConfig, id: &str| match cfg.session_path_for(id) {
        SessionPlace::At(p) => format!("at {}", p),
        SessionPlace::InDirectory(f) => format!("in {}", f),
    };
    assert_eq!(place(config(None), "default"), "in default.session.json");
    assert_eq!(place(config(Some("/x/y")), "default"), "at /x/y");
    assert_eq!(place(config(Some("/x/y")), "other"), "in other.session.json");
}

#[test]
fn file_names_tell_their_session() {
    assert_eq!(session_of_file("a.session.json"), Some("a".to_string()));
    assert_eq!(session_of_file("a.session.json.session.json"), Some("a".to_string()));
    assert_eq!(session_of_file(".session.json"), None);
    assert_eq!(session_of_file("a.json"), None);
    assert_eq!(session_of_file("a b.session.json"), None);
    assert_eq!(session_of_file(""), None);
}

#[test]
fn listings_merge_and_sort() {
    let files = vec![
        ("b.session.json".to_string(), "dir/b.session.json".to_string()),
        ("notes.txt".to_string(), "dir/notes.txt".to_string()),
        ("B.session.json".to_string(), "dir/B.session.json".to_string()),
    ];
    let other = |id: &str, path: &str| SessionInfo {
        session_id: id.to_string(),
        path: path.to_string(),
        exists_on_disk: false,
    };
    let others = vec![other("a", "over/there"), other("b", "twice"), other("a", "again")];
    let listed: Vec<(String, String, bool)> = list_sessions(&files, &others)
        .into_iter()
        .map(|s| (s.session_id, s.path, s.exists_on_disk))
        .collect();
    assert_eq!(
        listed,
        vec![
            ("B".to_string(), "dir/B.session.json".to_string(), true),
            ("a".to_string(), "over/there".to_string(), false),
            ("b".to_string(), "dir/b.session.json".to_string(), true),
        ]
    );
}

#[test]
fn sessions_are_created_once() {
    assert_eq!(new_session_id(Some("mine".to_string())), Ok("mine".to_string()));
    assert_eq!(
        new_session_id(Some("no/pe".to_string())),
        Err(CreateError::Id(SessionIdError::Characters))
    );
    let fresh = new_session_id(None).unwrap();
    assert!(validate_session_id(&fresh).is_ok());
    assert!(uuid::Uuid::parse_str(&fresh).is_ok());
    assert_ne!(fresh, new_session_id(None).unwrap());

    let cfg = config(None);
    match cfg.create_session(true, None) {
        Err(e) => assert_eq!(e.message(), "session already exists"),
        Ok(_) => panic!("a session was replaced"),
    }
    assert_eq!(cfg.create_session(false, None).ok().unwrap().system_prompt, "default prompt");
    assert_eq!(
        cfg.create_session(false, Some("own".to_string())).ok().unwrap().system_prompt,
        "own"
    );
}

#[test]
fn sessions_are_opened_from_where_they_are() {
    assert_eq!(get_or_load("a", true, true), Ok(OpenPlan::InMemory));
    assert_eq!(get_or_load("a", false, true), Ok(OpenPlan::Load));
    assert_eq!(get_or_load("a", false, false), Ok(OpenPlan::Create));
    assert_eq!(get_or_load("", true, true), Err(SessionIdError::Length));
}
