use zk_llm_gateway::config::{
    build_ticket_source, is_local_listen, parse_terms, reset_system_prompt, run_mode,
    validate_ticket_source_config, RunMode, TicketSourceChoice, TicketSourceConfig,
};
use zk_llm_gateway::session::Session;

fn parse_cli(extra: &[&str]) -> TicketSourceConfig {
    let mut cfg = TicketSourceConfig { ticket_file: None, use_dummy_tickets: false };
    let mut i = 0;
    while i < extra.len() {
        if extra[i] == "--use-dummy-tickets" {
            cfg.use_dummy_tickets = true;
        } else if extra[i] == "--ticket-file" {
            i += 1;
            cfg.ticket_file = Some(extra[i].to_string());
        } else {
            panic!("unexpected argument {}", extra[i]);
        }
        i += 1;
    }
    cfg
}

#[test]
fn ticket_source_requires_file_or_explicit_dummy_opt_in() {
    let cli = parse_cli(&[]);

    let err = validate_ticket_source_config(&cli).unwrap_err();
    assert!(err.message().contains("--ticket-file"));
    assert!(err.message().contains("--use-dummy-tickets"));
}

#[test]
fn ticket_source_accepts_explicit_dummy_opt_in() {
    let cli = parse_cli(&["--use-dummy-tickets"]);

    validate_ticket_source_config(&cli).expect("dummy tickets are explicitly allowed");
}

#[test]
fn ticket_source_accepts_file_source() {
    let cli = parse_cli(&["--ticket-file", "./tickets.json"]);

    validate_ticket_source_config(&cli).expect("ticket file source is allowed");
}

#[test]
fn a_ticket_file_comes_before_dummy_tickets() {
    let cli = parse_cli(&["--use-dummy-tickets", "--ticket-file", "./tickets.json"]);
    match build_ticket_source(&cli) {
        Ok(TicketSourceChoice::File(path)) => assert_eq!(path, "./tickets.json"),
        other => panic!("{:?}", other),
    }
    assert!(matches!(
        build_ticket_source(&parse_cli(&["--use-dummy-tickets"])),
        Ok(TicketSourceChoice::Dummy)
    ));
    assert!(build_ticket_source(&parse_cli(&[])).is_err());
}

#[test]
fn run_modes_have_a_precedence() {
    assert_eq!(run_mode(true, true, true).unwrap(), RunMode::Serve);
    assert_eq!(run_mode(false, true, true).unwrap(), RunMode::Converse);
    assert_eq!(run_mode(false, false, true).unwrap(), RunMode::OneShot);
    let err = run_mode(false, false, false).unwrap_err();
    assert_eq!(err.message(), "Provide --user, --repl, or --http-listen-addr");
}

#[test]
fn local_addresses_are_told_apart() {
    assert!(is_local_listen("127.0.0.1:8090"));
    assert!(is_local_listen("localhost:8090"));
    assert!(!is_local_listen("0.0.0.0:8090"));
}

#[test]
fn terms_file_skips_blank_lines_and_comments() {
    let terms = parse_terms("Alice\r\n  \n# secret\n\t Project X \n#\nBob");
    assert_eq!(terms, vec!["Alice".to_string(), "Project X".to_string(), "Bob".to_string()]);
    assert!(parse_terms("").is_empty());
}

#[test]
fn system_prompt_is_reset_only_when_given() {
    let mut session = Session::new("old".to_string());
    assert!(!reset_system_prompt(&mut session, false, Some("new")));
    assert_eq!(session.system_prompt, "old");
    assert!(reset_system_prompt(&mut session, true, None));
    assert_eq!(session.system_prompt, "old");
    assert!(!reset_system_prompt(&mut session, true, Some("new")));
    assert_eq!(session.system_prompt, "new");
}
