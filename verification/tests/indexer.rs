use cypher_search::indexer::{Document, SearchEngine};

fn doc(id: usize, title: &str, url: &str, content: &str) -> Document {
    Document {
        id,
        title: title.to_string(),
        url: url.to_string(),
        content: content.to_string(),
    }
}

fn ids(found: &[Document]) -> Vec<usize> {
    found.iter().map(|d| d.id).collect()
}

fn terms(words: &[&str]) -> Vec<String> {
    words.iter().map(|w| w.to_string()).collect()
}

#[test]
fn empty_query_finds_nothing() {
    let mut engine = SearchEngine::new();
    engine.add_document(doc(1, "Rust", "https://rust-lang.org", "rust language"));
    assert!(engine.search("").is_empty());
    assert!(engine.search(" \t ").is_empty());
    assert!(SearchEngine::new().search("").is_empty());
    assert!(SearchEngine::new().search("rust").is_empty());
    assert!(engine.search_terms(&Vec::new()).is_empty());
}

#[test]
fn query_is_a_union_over_its_terms() {
    let mut engine = SearchEngine::new();
    engine.add_document(doc(1, "A", "https://a.example", "apple banana"));
    engine.add_document(doc(2, "B", "https://b.example", "cherry damson"));
    engine.add_document(doc(3, "C", "https://c.example", "elder fig"));
    assert_eq!(ids(&engine.search("apple cherry")), vec![1, 2]);
    assert_eq!(ids(&engine.search("apple fig missing")), vec![1, 3]);
    assert_eq!(ids(&engine.search("banana apple")), vec![1]);
    assert!(engine.search("missing").is_empty());
}

#[test]
fn results_ascend_by_id_whatever_the_order_of_ingestion() {
    let mut engine = SearchEngine::new();
    engine.add_document(doc(30, "C", "https://c.example", "common third"));
    engine.add_document(doc(10, "A", "https://a.example", "common first"));
    engine.add_document(doc(20, "B", "https://b.example", "common second"));
    assert_eq!(ids(&engine.search("common")), vec![10, 20, 30]);
    assert_eq!(ids(&engine.search("third first")), vec![10, 30]);
    assert_eq!(ids(&engine.search("common common first")), vec![10, 20, 30]);
}

#[test]
fn ingested_document_is_found_by_each_of_its_terms() {
    let mut engine = SearchEngine::new();
    engine.add_document(doc(1, "Old", "https://old.example", "something else"));
    engine.add_document(doc(5, "New", "https://new.example", "Fresh  NEWS today"));
    for term in ["fresh", "news", "today", "FRESH", "News"] {
        assert_eq!(ids(&engine.search(term)), vec![5]);
    }
    assert_eq!(ids(&engine.search("today something")), vec![1, 5]);
}

#[test]
fn reingested_document_is_found_once() {
    let mut engine = SearchEngine::new();
    engine.add_document(doc(4, "Twice", "https://twice.example", "echo echo"));
    engine.add_document(doc(4, "Twice", "https://twice.example", "echo echo"));
    let found = engine.search("echo");
    assert_eq!(ids(&found), vec![4]);
    assert_eq!(found[0].title, "Twice");
}

#[test]
fn shared_id_gives_the_document_stored_first() {
    let mut engine = SearchEngine::new();
    engine.add_document(doc(9, "First", "https://first.example", "alpha"));
    engine.add_document(doc(9, "Second", "https://second.example", "beta"));
    let found = engine.search("beta");
    assert_eq!(ids(&found), vec![9]);
    assert_eq!(found[0].title, "First");
    assert_eq!(found[0].content, "alpha");
}

#[test]
fn stored_document_is_a_copy() {
    let mut engine = SearchEngine::new();
    let given = doc(2, "Title", "https://t.example", "body text");
    engine.add_document(given.clone());
    let found = engine.search("body");
    assert_eq!(found.len(), 1);
    assert_eq!(found[0].id, given.id);
    assert_eq!(found[0].title, given.title);
    assert_eq!(found[0].url, given.url);
    assert_eq!(found[0].content, given.content);
}

#[test]
fn terms_are_matched_whole_and_unstemmed() {
    let mut engine = SearchEngine::new();
    engine.add_document(doc(1, "P", "https://p.example", "running, fast."));
    assert!(engine.search("running").is_empty());
    assert!(engine.search("run").is_empty());
    assert_eq!(ids(&engine.search("running,")), vec![1]);
    assert_eq!(ids(&engine.search("FAST.")), vec![1]);
}

#[test]
fn documents_are_indexed_under_given_terms() {
    let mut engine = SearchEngine::new();
    engine.add_tokenized(doc(3, "T", "https://t.example", "ignored"), &terms(&["x", "y", "x"]));
    engine.add_tokenized(doc(1, "U", "https://u.example", "ignored"), &terms(&["y"]));
    engine.add_tokenized(doc(2, "V", "https://v.example", "ignored"), &terms(&[]));
    assert_eq!(ids(&engine.search_terms(&terms(&["x"]))), vec![3]);
    assert_eq!(ids(&engine.search_terms(&terms(&["y"]))), vec![1, 3]);
    assert_eq!(ids(&engine.search_terms(&terms(&["y", "x", "z"]))), vec![1, 3]);
    assert!(engine.search_terms(&terms(&["ignored"])).is_empty());
    assert!(engine.search_terms(&terms(&["X"])).is_empty());
}

#[test]
fn many_documents_share_a_term() {
    let mut engine = SearchEngine::new();
    for id in (0..200).rev() {
        engine.add_document(doc(id, "D", "https://d.example", if id % 2 == 0 { "even all" } else { "odd all" }));
    }
    assert_eq!(ids(&engine.search("all")), (0..200).collect::<Vec<_>>());
    assert_eq!(ids(&engine.search("even")), (0..200).step_by(2).collect::<Vec<_>>());
    assert_eq!(ids(&engine.search("odd even")), (0..200).collect::<Vec<_>>());
}
