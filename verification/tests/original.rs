use std::collections::HashMap;

#[test]
fn map_test() {
    let mut p = HashMap::new();
    p.insert(String::from("h1"), Some(String::from("V1")));

    let b = p.get_mut(String::from("h1").as_str()).unwrap();
    let pp = b.take();
    println!("pp: {:?}", pp);
    println!("p: {:?}", p);
    p.remove(String::from("h1").as_str());
    println!("p: {:?}", p);
}

#[test]
fn library_smoke() {
    let e = tfidf::engine::TFIDF::new();
    assert_eq!(e.doc_count(), 0);
    assert_eq!(e.word_count(), 0);
}
