use tfidf::doc::Doc;
use tfidf::doc_map::DocMap;
use tfidf::engine::TFIDF;
use tfidf::posting::DocSet;
use tfidf::word::{Word, WordMap};

fn doc(id: &str, words: &[&str]) -> Doc {
    Doc { id: String::from(id), words: words.iter().map(|w| String::from(*w)).collect() }
}

fn postings_size(e: &TFIDF, w: &str) -> usize {
    e.wm.get_word(String::from(w)).unwrap().doc_count()
}

fn in_postings(e: &TFIDF, w: &str, id: &str) -> bool {
    e.wm.get_word(String::from(w)).unwrap().doc_set.exits(String::from(id))
}

#[test]
fn diff_correctness() {
    // updating a document from ["a","b"] to ["b","c"]
    let mut e = TFIDF::new();
    assert!(!e.pd.updated);
    e.upsert_doc(doc("d1", &["a", "b"]));
    assert!(e.pd.updated);
    assert!(in_postings(&e, "a", "d1"));
    assert!(in_postings(&e, "b", "d1"));

    e.upsert_doc(doc("d1", &["b", "c"]));
    assert_eq!(e.doc_count(), 1);
    // "a" keeps its entry and index but loses the document
    let a = e.wm.get_word(String::from("a")).unwrap();
    assert_eq!(a.get_index(), 0);
    assert_eq!(a.doc_count(), 0);
    assert!(!in_postings(&e, "a", "d1"));
    // "b" is untouched
    let b = e.wm.get_word(String::from("b")).unwrap();
    assert_eq!(b.get_index(), 1);
    assert_eq!(b.doc_count(), 1);
    assert!(in_postings(&e, "b", "d1"));
    // "c" is a fresh term holding this document
    let c = e.wm.get_word(String::from("c")).unwrap();
    assert_eq!(c.get_index(), 2);
    assert_eq!(c.doc_count(), 1);
    assert!(in_postings(&e, "c", "d1"));
}

#[test]
fn posting_membership_invariant_on_a_scenario() {
    let mut e = TFIDF::new();
    e.upsert_doc(doc("d1", &["a", "b"]));
    e.upsert_doc(doc("d2", &["b", "c"]));
    e.upsert_doc(doc("d1", &["c"]));
    for w in ["a", "b", "c"] {
        for d in ["d1", "d2"] {
            let stored = e.dm.get_doc(String::from(d)).unwrap();
            let contains = stored.words.iter().any(|x| x.as_str() == w);
            assert_eq!(in_postings(&e, w, d), contains, "word {w} doc {d}");
        }
    }
}

#[test]
fn upsert_is_idempotent() {
    let mut e = TFIDF::new();
    e.upsert_doc(doc("d1", &["a", "b", "a"]));
    e.upsert_doc(doc("d2", &["b"]));
    let (doc_count, word_count) = (e.doc_count(), e.word_count());
    let sizes: Vec<usize> = ["a", "b"].iter().map(|w| postings_size(&e, w)).collect();

    e.upsert_doc(doc("d1", &["a", "b", "a"]));
    assert_eq!(e.doc_count(), doc_count);
    assert_eq!(e.word_count(), word_count);
    let sizes2: Vec<usize> = ["a", "b"].iter().map(|w| postings_size(&e, w)).collect();
    assert_eq!(sizes, sizes2);
    let stored = e.dm.get_doc(String::from("d1")).unwrap();
    assert_eq!(stored.words, vec![String::from("a"), String::from("b"), String::from("a")]);
}

#[test]
fn word_indices_never_move() {
    let mut e = TFIDF::new();
    e.upsert_doc(doc("d1", &["a", "b"]));
    assert_eq!(e.wm.get_word(String::from("a")).unwrap().get_index(), 0);
    assert_eq!(e.wm.get_word(String::from("b")).unwrap().get_index(), 1);
    e.upsert_doc(doc("d2", &["c", "a"]));
    e.upsert_doc(doc("d1", &["d"]));
    assert_eq!(e.wm.get_word(String::from("a")).unwrap().get_index(), 0);
    assert_eq!(e.wm.get_word(String::from("b")).unwrap().get_index(), 1);
    assert_eq!(e.wm.get_word(String::from("c")).unwrap().get_index(), 2);
    assert_eq!(e.wm.get_word(String::from("d")).unwrap().get_index(), 3);
    assert_eq!(e.word_count(), 4);
}

#[test]
fn upsert_docs_in_order() {
    let mut e = TFIDF::new();
    e.upsert_docs(vec![doc("d1", &["a"]), doc("d2", &["b"]), doc("d1", &["b"])]);
    assert_eq!(e.doc_count(), 2);
    assert_eq!(e.word_count(), 2);
    assert_eq!(postings_size(&e, "a"), 0);
    assert_eq!(postings_size(&e, "b"), 2);
}

#[test]
fn words_diff_has_set_semantics() {
    let old_words = vec![String::from("a"), String::from("b"), String::from("a")];
    let new_words = vec![String::from("b"), String::from("c"), String::from("c")];
    let (added, removed) = Doc::words_diff(&old_words, &new_words);
    assert_eq!(added, vec![String::from("c")]);
    assert_eq!(removed, vec![String::from("a")]);

    // repetition-only changes are no delta at all
    let old_words = vec![String::from("a")];
    let new_words = vec![String::from("a"), String::from("a")];
    let (added, removed) = Doc::words_diff(&old_words, &new_words);
    assert!(added.is_empty());
    assert!(removed.is_empty());
}

#[test]
fn doc_set_operations() {
    let mut s = DocSet::new();
    assert_eq!(s.count(), 0);
    assert!(!s.exits(String::from("d1")));
    s.append(String::from("d1"));
    s.append(String::from("d2"));
    s.append(String::from("d1"));
    assert_eq!(s.count(), 2);
    assert!(s.exits(String::from("d1")));
    assert!(s.exits(String::from("d2")));
    s.del(String::from("d1"));
    assert_eq!(s.count(), 1);
    assert!(!s.exits(String::from("d1")));
    s.del(String::from("missing"));
    assert_eq!(s.count(), 1);
}

#[test]
fn word_entry_operations() {
    let mut w = Word { value: String::from("a"), index: 7, doc_set: DocSet::new() };
    assert_eq!(w.get_index(), 7);
    w.add_doc(String::from("d1"));
    w.add_doc(String::from("d2"));
    assert_eq!(w.doc_count(), 2);
    w.del_doc(String::from("d1"));
    assert_eq!(w.doc_count(), 1);
}

#[test]
fn word_map_set_and_get() {
    let mut m = WordMap::new();
    assert!(m.get_word(String::from("a")).is_none());
    m.set_word(Word { value: String::from("a"), index: 0, doc_set: DocSet::new() });
    let mut a = m.get_word(String::from("a")).unwrap();
    a.add_doc(String::from("d1"));
    m.set_word(a);
    assert_eq!(m.get_word(String::from("a")).unwrap().doc_count(), 1);
    assert!(m.get_word(String::from("b")).is_none());
}

#[test]
fn doc_map_set_and_get() {
    let mut m = DocMap::new();
    assert!(m.get_doc(String::from("d1")).is_none());
    m.set_doc(doc("d1", &["a"]));
    m.set_doc(doc("d1", &["b"]));
    let stored = m.get_doc(String::from("d1")).unwrap();
    assert_eq!(stored.words, vec![String::from("b")]);
}
