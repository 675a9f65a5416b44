use tfidf::doc::Doc;
use tfidf::engine::TFIDF;
use tfidf::errors::EngineError;
use tfidf::ratio::Ratio;

fn doc(id: &str, words: &[&str]) -> Doc {
    Doc { id: String::from(id), words: words.iter().map(|w| String::from(*w)).collect() }
}

#[test]
fn tf_correctness() {
    let e = TFIDF::new();
    let d = doc("d1", &["a", "b", "a"]);
    let ta = e.tf(d, String::from("a"));
    assert_eq!(ta, Ratio { num: 2, den: 3 });
    assert!((ta.num as f64 / ta.den as f64 - 2.0 / 3.0).abs() < 1e-12);

    let d = doc("d1", &["a", "b", "a"]);
    let tb = e.tf(d, String::from("b"));
    assert_eq!(tb, Ratio { num: 1, den: 3 });

    let d = doc("d1", &["a", "b", "a"]);
    let tv = e.tf_vector(d);
    assert_eq!(
        tv,
        vec![
            Ratio { num: 2, den: 3 },
            Ratio { num: 1, den: 3 },
            Ratio { num: 2, den: 3 },
        ]
    );
}

#[test]
fn tf_unseen_word_is_zero() {
    let e = TFIDF::new();
    let t = e.tf(doc("d1", &["a", "b"]), String::from("z"));
    assert_eq!(t, Ratio { num: 0, den: 2 });
}

#[test]
fn tf_empty_document_is_undefined_ratio() {
    let e = TFIDF::new();
    let t = e.tf(doc("d1", &[]), String::from("a"));
    assert_eq!(t, Ratio { num: 0, den: 0 });
    // rendered as a float this is NaN, exactly as a 0.0/0.0 division
    assert!((t.num as f64 / t.den as f64).is_nan());
}

#[test]
fn idf_scenario() {
    // fresh engine, two documents sharing the word "x"
    let mut e = TFIDF::new();
    e.upsert_doc(doc("d1", &["x", "y"]));
    e.upsert_doc(doc("d2", &["x"]));
    assert_eq!(e.doc_count(), 2);
    assert_eq!(e.word_count(), 2);

    // idf("x"): log2(2) / 2 + 1 == 3/2, with postings_size == 2
    assert_eq!(e.idf(String::from("x")), Some(Ratio { num: 3, den: 2 }));
    // idf("y"): log2(2) / 1 + 1 == 2/1, with postings_size == 1
    assert_eq!(e.idf(String::from("y")), Some(Ratio { num: 2, den: 1 }));
    // a word never seen is absent, not an error
    assert_eq!(e.idf(String::from("z")), None);
}

#[test]
fn idf_boundary_never_seen() {
    let e = TFIDF::new();
    assert_eq!(e.idf(String::from("anything")), None);
    assert_eq!(e.idf_vector(doc("d1", &["unseen"])), None);
}

#[test]
fn idf_vector_in_document_order() {
    let mut e = TFIDF::new();
    e.upsert_doc(doc("d1", &["x", "y"]));
    let v = e.idf_vector(doc("q", &["y", "x", "y"])).unwrap();
    // one document: log2(1) == 0, each word held by 1 document: 0/1 + 1 == 1
    assert_eq!(
        v,
        vec![
            Ratio { num: 1, den: 1 },
            Ratio { num: 1, den: 1 },
            Ratio { num: 1, den: 1 },
        ]
    );

    // any unseen word makes the whole vector absent
    assert_eq!(e.idf_vector(doc("q", &["x", "z"])), None);
}

#[test]
fn dot_product_truncates_to_shorter() {
    let e = TFIDF::new();
    let a = vec![Ratio { num: 1, den: 2 }, Ratio { num: 3, den: 4 }, Ratio { num: 5, den: 6 }];
    let b = vec![Ratio { num: 2, den: 3 }, Ratio { num: 1, den: 1 }];
    let r = e.dot_product(a, b);
    assert_eq!(r, vec![Ratio { num: 2, den: 6 }, Ratio { num: 3, den: 4 }]);

    // symmetric in argument order
    let a = vec![Ratio { num: 1, den: 2 }, Ratio { num: 3, den: 4 }, Ratio { num: 5, den: 6 }];
    let b = vec![Ratio { num: 2, den: 3 }, Ratio { num: 1, den: 1 }];
    let r = e.dot_product(b, a);
    assert_eq!(r, vec![Ratio { num: 2, den: 6 }, Ratio { num: 3, den: 4 }]);
}

#[test]
fn doc_vector_pairs_weights_with_term_indices() {
    let mut e = TFIDF::new();
    let v = e.get_doc_vector(doc("d1", &["a", "b", "a"])).unwrap();
    // the document is upserted first, so every word is indexed
    assert_eq!(e.doc_count(), 1);
    assert_eq!(e.word_count(), 2);
    assert_eq!(v.len(), 3);
    // one document: idf of each word is 0/1 + 1 == 1/1
    assert_eq!(v[0].term_index, 0);
    assert_eq!(v[0].weight, Ratio { num: 2, den: 3 });
    assert_eq!(v[1].term_index, 1);
    assert_eq!(v[1].weight, Ratio { num: 1, den: 3 });
    assert_eq!(v[2].term_index, 0);
    assert_eq!(v[2].weight, Ratio { num: 2, den: 3 });
}

#[test]
fn error_descriptions() {
    assert_eq!(EngineError::NotFound.describe(), "not found");
    assert_eq!(EngineError::Malformed.describe(), "malformed");
    assert_eq!(EngineError::IoError.describe(), "io error");
    assert_eq!(EngineError::ScoringUnavailable.describe(), "scoring unavailable");
}
