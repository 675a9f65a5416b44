use tfidf::doc::Doc;
use tfidf::engine::TFIDF;
use tfidf::errors::EngineError;
use tfidf::store::PersistentData;

fn doc(id: &str, words: &[&str]) -> Doc {
    Doc { id: String::from(id), words: words.iter().map(|w| String::from(*w)).collect() }
}

fn postings_size(e: &TFIDF, w: &str) -> usize {
    e.wm.get_word(String::from(w)).unwrap().doc_count()
}

#[test]
fn save_then_load_reproduces_the_engine() {
    let mut e = TFIDF::new();
    e.upsert_doc(doc("d1", &["a", "b", "a"]));
    e.upsert_doc(doc("d2", &["b", "c"]));
    e.upsert_doc(doc("d1", &["a"]));

    let (primary, secondary) = e.save_parts();
    let mut e2 = TFIDF::new();
    assert_eq!(e2.load_from_parts(primary, secondary), Ok(()));

    assert!(!e2.pd.updated);
    assert_eq!(e2.doc_count(), e.doc_count());
    assert_eq!(e2.word_count(), e.word_count());
    for w in ["a", "b", "c"] {
        assert_eq!(postings_size(&e2, w), postings_size(&e, w), "postings of {w}");
        assert_eq!(
            e2.wm.get_word(String::from(w)).unwrap().get_index(),
            e.wm.get_word(String::from(w)).unwrap().get_index(),
            "index of {w}"
        );
    }
    assert_eq!(e2.idf(String::from("b")), e.idf(String::from("b")));
}

#[test]
fn load_restores_scoring_state() {
    let mut e = TFIDF::new();
    e.upsert_doc(doc("d1", &["x", "y"]));
    e.upsert_doc(doc("d2", &["x"]));
    let (primary, secondary) = e.save_parts();

    let mut e2 = TFIDF::new();
    e2.load_from_parts(primary, secondary).unwrap();
    assert_eq!(e2.idf(String::from("x")), Some(tfidf::ratio::Ratio { num: 3, den: 2 }));
    assert_eq!(e2.idf(String::from("z")), None);
}

#[test]
fn load_rejects_duplicate_words() {
    let pd = PersistentData {
        updated: false,
        doc_count: 0,
        word_count: 2,
        docs: Vec::new(),
        words: vec![String::from("a"), String::from("a")],
    };
    let fd = PersistentData {
        updated: false,
        doc_count: 0,
        word_count: 2,
        docs: Vec::new(),
        words: Vec::new(),
    };
    let mut e = TFIDF::new();
    assert_eq!(e.load_from_parts(pd, fd), Err(EngineError::Malformed));
    assert_eq!(e.word_count(), 0);
}

#[test]
fn load_rejects_duplicate_ids() {
    let pd = PersistentData {
        updated: false,
        doc_count: 2,
        word_count: 1,
        docs: vec![doc("d1", &["a"]), doc("d1", &["a"])],
        words: vec![String::from("a")],
    };
    let fd = PersistentData {
        updated: false,
        doc_count: 2,
        word_count: 1,
        docs: Vec::new(),
        words: Vec::new(),
    };
    let mut e = TFIDF::new();
    assert_eq!(e.load_from_parts(pd, fd), Err(EngineError::Malformed));
}

#[test]
fn load_rejects_unregistered_document_words() {
    let pd = PersistentData {
        updated: false,
        doc_count: 1,
        word_count: 1,
        docs: vec![doc("d1", &["a", "b"])],
        words: vec![String::from("a")],
    };
    let fd = PersistentData {
        updated: false,
        doc_count: 1,
        word_count: 1,
        docs: Vec::new(),
        words: Vec::new(),
    };
    let mut e = TFIDF::new();
    assert_eq!(e.load_from_parts(pd, fd), Err(EngineError::Malformed));
}

#[test]
fn load_rejects_disagreeing_counts() {
    let pd = PersistentData {
        updated: false,
        doc_count: 0,
        word_count: 1,
        docs: Vec::new(),
        words: vec![String::from("a")],
    };
    let fd = PersistentData {
        updated: false,
        doc_count: 5,
        word_count: 1,
        docs: Vec::new(),
        words: Vec::new(),
    };
    let mut e = TFIDF::new();
    assert_eq!(e.load_from_parts(pd, fd), Err(EngineError::Malformed));
}

#[test]
fn store_appends_return_positions() {
    let mut pd = PersistentData {
        updated: false,
        doc_count: 0,
        word_count: 0,
        docs: Vec::new(),
        words: Vec::new(),
    };
    assert_eq!(pd.append_word(String::from("a")), 0);
    assert_eq!(pd.append_word(String::from("b")), 1);
    assert_eq!(pd.append_doc(doc("d1", &["a"])), 0);
    assert_eq!(pd.append_doc(doc("d2", &["b"])), 1);
    assert!(pd.updated);
    assert_eq!(pd.word_count, 2);
    assert_eq!(pd.doc_count, 2);
}
