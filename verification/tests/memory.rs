use zk_llm_gateway::crypto::Uuid;
use zk_llm_gateway::memory_store::{
    rank, tokenize, tokenize_query, DocKind, MemoryStore, TermHits,
};
use zk_llm_gateway::session::MemoryItem;
use zk_llm_gateway::types::ChatMessage;

fn item(n: u8, text: &str, tags: &[&str]) -> MemoryItem {
    MemoryItem {
        id: Uuid { bytes: [n; 16] },
        created_at_ms: n as i64,
        text: text.to_string(),
        tags: tags.iter().map(|t| t.to_string()).collect(),
    }
}

fn message(role: &str, content: &str) -> ChatMessage {
    ChatMessage { role: role.to_string(), content: content.to_string(), extra: vec![] }
}

fn strings(words: &[&str]) -> Vec<String> {
    words.iter().map(|w| w.to_string()).collect()
}

fn hits(plan: &Vec<TermHits>) -> Vec<(usize, Vec<(usize, usize, usize)>)> {
    plan.iter()
        .map(|t| (t.df, t.hits.iter().map(|h| (h.doc, h.tf, h.doc_len)).collect()))
        .collect()
}

#[test]
fn tokens_are_lower_case_words_that_say_something() {
    assert_eq!(
        tokenize("The Quick-brown FOX, and x on Ünïcode 42!"),
        strings(&["quick", "brown", "fox", "ünïcode"])
    );
    assert_eq!(tokenize_query("fox Fox dog fox"), strings(&["fox", "dog"]));
    assert_eq!(tokenize_query("fox Fox dog fox fox Fox dog fox"), strings(&["fox", "dog"]));
    assert!(tokenize("").is_empty());
}

#[test]
fn searches_touch_what_holds_a_term() {
    let mut store = MemoryStore::new();
    store.add_memory_item(&item(1, "green tea green", &["Drink"]));
    store.add_memory_item(&item(2, "black coffee", &[]));
    store.add_message(0, &message("user", "green tea please"));
    assert_eq!(store.doc_count(), 3);
    assert_eq!(store.doc_length_at(0), 4);
    let all = store.search("green drink missing", 5, None, None);
    assert_eq!(hits(&all), vec![(2, vec![(0, 2, 4), (2, 1, 3)])]);
    let two = store.search("coffee tea", 5, None, None);
    assert_eq!(hits(&two), vec![(1, vec![(1, 1, 2)]), (2, vec![(0, 1, 4), (2, 1, 3)])]);
    let memory = store.search("green", 5, Some(DocKind::Memory), None);
    assert_eq!(hits(&memory), vec![(2, vec![(0, 2, 4)])]);
    assert!(store.search("green", 0, None, None).is_empty());
}

#[test]
fn recent_messages_are_not_recalled() {
    let mut store = MemoryStore::default();
    store.add_message(0, &message("user", "green tea"));
    store.add_message(1, &message("assistant", "green tea"));
    let plan = store.plan_context("green", 3, 3, Some(1));
    assert_eq!(hits(&plan.messages), vec![(2, vec![(0, 1, 2)])]);
    assert_eq!(hits(&plan.memory), vec![(2, vec![])]);
    let plan = store.plan_context("green", 0, 0, Some(1));
    assert!(plan.memory.is_empty() && plan.messages.is_empty());
}

#[test]
fn an_index_is_rebuilt_from_the_end_of_a_session() {
    let mut store = MemoryStore::new();
    store.add_message(9, &message("user", "forgotten"));
    let memory = vec![item(1, "tea", &[])];
    let messages =
        vec![message("user", "first"), message("user", "second"), message("user", "third")];
    store.rebuild_from_session(&memory, &messages, true, 2);
    assert_eq!(store.doc_count(), 3);
    let docs = store.ranked_docs(&vec![(0, 0), (1, 0), (2, 0)]);
    assert_eq!(docs[0].id, "01010101-0101-0101-0101-010101010101");
    assert_eq!((docs[1].id.as_str(), docs[1].msg_index), ("msg:1", Some(1)));
    assert_eq!((docs[2].id.as_str(), docs[2].text.as_str()), ("msg:2", "third"));
    store.rebuild_from_session(&memory, &messages, false, 2);
    assert_eq!(store.doc_count(), 1);
}

#[test]
fn ranking_is_stable_and_bounded() {
    let scores = vec![(0, 5), (1, 9), (2, 5), (3, 7)];
    assert_eq!(rank(&scores, 10), vec![(1, 9), (3, 7), (0, 5), (2, 5)]);
    assert_eq!(rank(&scores, 2), vec![(1, 9), (3, 7)]);
    assert!(rank(&vec![], 2).is_empty());
}

#[test]
fn positive_scores_rank_by_their_bits() {
    let scores: Vec<f32> = vec![0.25, 3.5, 1.0e-10, 2.0];
    let keyed: Vec<(usize, u32)> =
        scores.iter().enumerate().map(|(i, s)| (i, s.to_bits())).collect();
    let order: Vec<usize> = rank(&keyed, 10).iter().map(|r| r.0).collect();
    assert_eq!(order, vec![1, 3, 0, 2]);
}

#[test]
fn retrieval_cuts_snippets_to_four_hundred_characters() {
    let mut store = MemoryStore::new();
    store.add_memory_item(&item(1, "tea", &[]));
    store.add_message(0, &message("user", &"é".repeat(401)));
    store.add_message(1, &message("user", &"é".repeat(400)));
    let found = store.retrieve_context(&vec![(0, 1)], 1, &vec![(1, 1), (2, 2)], 2);
    assert_eq!(found.memories.len(), 1);
    assert_eq!(found.recall[0].content, "é".repeat(400));
    assert_eq!(found.recall[1].content, format!("{}…", "é".repeat(400)));
}
