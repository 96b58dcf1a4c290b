use zk_llm_gateway::crypto::Uuid;
use zk_llm_gateway::json::{unsigned, Json};
use zk_llm_gateway::token::TokenClass;
use zk_llm_gateway::types::{
    approx_prompt_bytes, chat_message_content, ChatMessage, InferenceRequest,
};
use zk_llm_gateway::zk::{B64Bytes, ZkTicket};

fn number(x: f64) -> Json {
    Json::Number(serde_json::Number::from_f64(x).unwrap())
}

fn request(provider_options: Vec<(String, Json)>) -> InferenceRequest {
    InferenceRequest {
        request_id: Uuid { bytes: [0; 16] },
        model: "actum-test-model".into(),
        messages: vec![ChatMessage {
            role: "user".into(),
            content: "hello".into(),
            extra: vec![],
        }],
        max_tokens: Some(128),
        temperature: serde_json::Number::from_f64(0.5),
        stream: None,
        token_class: TokenClass::C512,
        ticket: ZkTicket {
            commitment_root: B64Bytes(vec![]),
            nullifier: B64Bytes(vec![1]),
            token_class: TokenClass::C512,
            proof: B64Bytes(vec![2]),
        },
        provider_options,
    }
}

#[test]
fn authorization_commitment_is_independent_of_map_insertion_order() {
    let first = vec![
        ("top_p".into(), number(0.9)),
        ("seed".into(), unsigned(7)),
    ];
    let second = vec![
        ("seed".into(), unsigned(7)),
        ("top_p".into(), number(0.9)),
    ];
    assert_eq!(
        request(first).authorization_commitment().unwrap(),
        request(second).authorization_commitment().unwrap()
    );
}

#[test]
fn authorization_commitment_changes_with_billable_request() {
    let first = request(vec![]);
    let mut second = request(vec![]);
    second.model = "substituted-model".into();
    assert_ne!(
        first.authorization_commitment().unwrap(),
        second.authorization_commitment().unwrap()
    );
}

#[test]
fn authorization_commitment_is_a_tagged_hash_of_canonical_json() {
    let canonical = concat_bytes(&[
        br#"{"max_tokens":128,"messages":[{"content":"hello","role":"user"}],"#,
        br#""model":"actum-test-model","provider_options":{"a":{"b":1,"c":2}},"#,
        br#""request_id":"00000000-0000-0000-0000-000000000000","stream":null,"#,
        br#""temperature":0.5,"token_class":"c512"}"#,
    ]);
    let input = concat_bytes(&[
        b"ZEROK-ACTUM-INFERENCE-AUTHORIZATION-V1\0",
        &(canonical.len() as u64).to_be_bytes(),
        &canonical,
    ]);
    let nested = Json::Fields(vec![("c".into(), unsigned(2)), ("b".into(), unsigned(1))]);
    assert_eq!(
        request(vec![("a".into(), nested)]).authorization_commitment().unwrap(),
        zk_llm_gateway::zk::sha256(&input)
    );
}

fn concat_bytes(parts: &[&[u8]]) -> Vec<u8> {
    let mut out = vec![];
    for part in parts {
        out.extend_from_slice(part);
    }
    out
}

#[test]
fn authorization_commitment_leaves_the_ticket_out() {
    let first = request(vec![]);
    let mut second = request(vec![]);
    second.ticket.proof = B64Bytes(vec![9, 9]);
    second.ticket.commitment_root = B64Bytes(vec![1]);
    assert_eq!(
        first.authorization_commitment().unwrap(),
        second.authorization_commitment().unwrap()
    );
}

#[test]
fn prompt_bytes_are_those_of_the_json() {
    let plain = ChatMessage { role: "user".into(), content: "hi \"you\"".into(), extra: vec![] };
    let json = r#"[{"role":"user","content":"hi \"you\""}]"#;
    assert_eq!(approx_prompt_bytes(&vec![plain]), json.len());
    let named = ChatMessage {
        role: "user".into(),
        content: "é".into(),
        extra: vec![("name".into(), Json::Text("bob".into()))],
    };
    let json = r#"[{"role":"user","content":"é","name":"bob"}]"#;
    assert_eq!(approx_prompt_bytes(&vec![named]), json.len());
    assert_eq!(approx_prompt_bytes(&vec![]), 2);
    let twice = ChatMessage {
        role: "user".into(),
        content: "hi".into(),
        extra: vec![
            ("content".into(), unsigned(7)),
            ("role".into(), Json::Text("tool".into())),
        ],
    };
    let json = r#"[{"role":"user","content":"hi","content":7,"role":"tool"}]"#;
    assert_eq!(approx_prompt_bytes(&vec![twice]), json.len());
}

#[test]
fn message_content_is_made_a_text() {
    assert_eq!(chat_message_content(None), "");
    assert_eq!(chat_message_content(Some(&Json::Null)), "");
    assert_eq!(chat_message_content(Some(&Json::Text("t".into()))), "t");
    let parts = Json::List(vec![Json::Fields(vec![
        ("type".into(), Json::Text("text".into())),
        ("n".into(), unsigned(1)),
    ])]);
    assert_eq!(chat_message_content(Some(&parts)), r#"[{"n":1,"type":"text"}]"#);
}
