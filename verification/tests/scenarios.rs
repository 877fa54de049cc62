use kgram_search::docstore::DocStore;
use kgram_search::index::{Config, Document, Index};
use kgram_search::SearchError;

fn doc(id: u64, handle: &str, name: &str, body: &str) -> Document {
    Document {
        id,
        user_id: handle.to_string(),
        user_name: name.to_string(),
        body: body.to_string(),
    }
}

fn strings(words: &[&str]) -> Vec<String> {
    words.iter().map(|w| w.to_string()).collect()
}

fn build(rows: &Vec<Document>, stops: &[&str]) -> Index {
    let stopv = strings(stops);
    Index::new(rows, &stopv, &Config::default()).unwrap()
}

#[test]
fn conjunction_of_two_terms() {
    let rows = vec![
        doc(1, "@a", "A", "the quick brown fox"),
        doc(2, "@b", "B", "quick brown dogs"),
    ];
    let idx = build(&rows, &["the"]);
    let ids = idx.query(&strings(&["quick", "brown"])).unwrap();
    assert_eq!(ids, vec![1, 2]);
}

#[test]
fn single_term_and_oov_term() {
    let rows = vec![
        doc(1, "@a", "A", "the quick brown fox"),
        doc(2, "@b", "B", "quick brown dogs"),
    ];
    let idx = build(&rows, &["the"]);
    assert_eq!(idx.query(&strings(&["fox"])).unwrap(), vec![1]);
    assert_eq!(idx.query(&strings(&["cat"])), Err(SearchError::OOVTerm));
}

#[test]
fn three_terms_empty_and_two_terms_hit() {
    let rows = vec![
        doc(10, "@x", "X", "vaccine covid"),
        doc(11, "@y", "Y", "malaria vaccine"),
    ];
    let idx = build(&rows, &[]);
    let empty = idx
        .query(&strings(&["vaccine", "covid", "malaria"]))
        .unwrap();
    assert_eq!(empty, Vec::<u64>::new());
    assert_eq!(idx.query(&strings(&["vaccine", "covid"])).unwrap(), vec![10]);
}

#[test]
fn wildcard_with_post_filter() {
    let rows = vec![
        doc(20, "@a", "A", "vaccination"),
        doc(21, "@b", "B", "vacation"),
    ];
    let idx = build(&rows, &[]);
    let store = DocStore::new(rows);
    let bodies = idx
        .retrieve_documents(&strings(&["vacc*on"]), &store)
        .unwrap();
    assert_eq!(bodies, vec!["vaccination".to_string()]);
}

#[test]
fn wrapped_wildcard_with_literal() {
    let rows = vec![
        doc(30, "@a", "A", "coronavirus numbers"),
        doc(31, "@b", "B", "covid numbers"),
    ];
    let idx = build(&rows, &[]);
    let ids = idx.query(&strings(&["*nu*", "covid"])).unwrap();
    assert_eq!(ids, vec![31]);
}

#[test]
fn newline_escape_is_expanded() {
    let rows = vec![doc(40, "@a", "A", "hello[NEWLINE]world")];
    let idx = build(&rows, &[]);
    assert_eq!(idx.query(&strings(&["hello", "world"])).unwrap(), vec![40]);
}

#[test]
fn tab_escape_is_expanded() {
    let rows = vec![doc(41, "@a", "A", "left[TAB]right")];
    let idx = build(&rows, &[]);
    assert_eq!(idx.query(&strings(&["left", "right"])).unwrap(), vec![41]);
}

#[test]
fn punctuation_and_case_are_normalized() {
    let rows = vec![doc(50, "@a", "A", "Hello, World! (Again)")];
    let idx = build(&rows, &[]);
    assert_eq!(idx.query(&strings(&["hello"])).unwrap(), vec![50]);
    assert_eq!(idx.query(&strings(&["world"])).unwrap(), vec![50]);
    assert_eq!(idx.query(&strings(&["again"])).unwrap(), vec![50]);
}

#[test]
fn stopword_body_is_unreachable() {
    let rows = vec![doc(60, "@a", "A", "the"), doc(61, "@b", "B", "something else")];
    let idx = build(&rows, &["the"]);
    assert_eq!(idx.query(&strings(&["the"])), Err(SearchError::OOVTerm));
}

#[test]
fn empty_query_returns_nothing() {
    let rows = vec![doc(70, "@a", "A", "alpha beta")];
    let idx = build(&rows, &[]);
    assert_eq!(idx.query(&strings(&[])).unwrap(), Vec::<u64>::new());
}

#[test]
fn empty_corpus_every_literal_is_oov() {
    let rows: Vec<Document> = vec![];
    let idx = build(&rows, &[]);
    assert_eq!(idx.query(&strings(&["anything"])), Err(SearchError::OOVTerm));
}

#[test]
fn unsupported_patterns_are_rejected() {
    let rows = vec![doc(80, "@a", "A", "monumental")];
    let idx = build(&rows, &[]);
    assert_eq!(
        idx.query(&strings(&["*mon*al*"])),
        Err(SearchError::UnsupportedPattern)
    );
    assert_eq!(
        idx.query(&strings(&["a*b*c"])),
        Err(SearchError::UnsupportedPattern)
    );
    assert_eq!(idx.query(&strings(&["*"])), Err(SearchError::UnsupportedPattern));
    assert_eq!(idx.query(&strings(&["***"])), Err(SearchError::UnsupportedPattern));
}

#[test]
fn missing_kgram_fails_strict_queries() {
    let rows = vec![doc(90, "@a", "A", "vaccine")];
    let idx = build(&rows, &[]);
    assert_eq!(idx.query(&strings(&["zz*q"])), Err(SearchError::OOVKgram));
}

#[test]
fn missing_kgram_is_empty_when_lenient() {
    let rows = vec![doc(90, "@a", "A", "vaccine")];
    let stopv: Vec<String> = vec![];
    let cfg = Config {
        k: 3,
        limit: 200000,
        strict_kgrams: false,
    };
    let idx = Index::new(&rows, &stopv, &cfg).unwrap();
    assert_eq!(idx.query(&strings(&["zz*q"])).unwrap(), Vec::<u64>::new());
}

#[test]
fn short_token_unreachable_by_wildcard() {
    // with k = 5 the anchored form of "ab" is shorter than k, so the token
    // is indexed but no wildcard pattern can reach it
    let rows = vec![doc(95, "@a", "A", "ab")];
    let stopv: Vec<String> = vec![];
    let cfg = Config {
        k: 5,
        limit: 200000,
        strict_kgrams: true,
    };
    let idx = Index::new(&rows, &stopv, &cfg).unwrap();
    assert_eq!(idx.query(&strings(&["ab"])).unwrap(), vec![95]);
    assert_eq!(idx.query(&strings(&["*ab*"])).unwrap(), Vec::<u64>::new());
}

#[test]
fn row_limit_caps_the_corpus() {
    let rows = vec![doc(1, "@a", "A", "first"), doc(2, "@b", "B", "second")];
    let stopv: Vec<String> = vec![];
    let cfg = Config {
        k: 3,
        limit: 1,
        strict_kgrams: true,
    };
    let idx = Index::new(&rows, &stopv, &cfg).unwrap();
    assert_eq!(idx.query(&strings(&["first"])).unwrap(), vec![1]);
    assert_eq!(idx.query(&strings(&["second"])), Err(SearchError::OOVTerm));
}

#[test]
fn store_deduplicates_rows() {
    let rows = vec![
        doc(1, "@a", "A", "alpha"),
        doc(1, "@a", "A", "alpha"),
        doc(2, "@b", "B", "alpha"),
    ];
    let idx = build(&rows, &[]);
    let store = DocStore::new(rows);
    assert_eq!(store.len(), 2);
    let bodies = idx.retrieve_documents(&strings(&["alpha"]), &store).unwrap();
    assert_eq!(bodies, vec!["alpha".to_string(), "alpha".to_string()]);
}

#[test]
fn order_of_literal_terms_does_not_matter() {
    let rows = vec![
        doc(1, "@a", "A", "red green blue"),
        doc(2, "@b", "B", "green blue"),
        doc(3, "@c", "C", "blue red"),
    ];
    let idx = build(&rows, &[]);
    let a = idx.query(&strings(&["red", "blue"])).unwrap();
    let b = idx.query(&strings(&["blue", "red"])).unwrap();
    assert_eq!(a, vec![1, 3]);
    assert_eq!(a, b);
}

#[test]
fn rebuilt_index_answers_identically() {
    let rows = vec![
        doc(5, "@a", "A", "some words here"),
        doc(6, "@b", "B", "other words there"),
    ];
    let idx1 = build(&rows, &[]);
    let idx2 = build(&rows, &[]);
    let terms = strings(&["words"]);
    assert_eq!(idx1.query(&terms).unwrap(), idx2.query(&terms).unwrap());
}
