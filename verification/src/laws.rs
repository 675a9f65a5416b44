//! The library's laws: engine-wide statements proved once and for all from
//! the model, rather than checked on sample inputs.

use vstd::prelude::*;

use crate::doc::DocView;
use crate::engine::TFIDF;
use crate::seqs::{
    distinct_absent, lemma_distinct_absent_empty, lemma_extend_corpus, lemma_word_index,
    lemma_word_index_stable, word_index,
};
use crate::store::{
    doc_index_of, has_doc, ids_of, postings_of, snapshot_ok, store_inv, upsert_spec, PdView,
};

verus! {

/// Posting-membership law: in a well-formed engine — `new()` builds one,
/// and every upsert and successful load returns one — a document id stands
/// in a word's posting set exactly when the word occurs in that document's
/// currently stored word sequence.
pub proof fn lemma_posting_membership(e: TFIDF, w: Seq<char>, id: Seq<char>)
    requires
        e.wf(),
        e.pd@.words.contains(w),
        has_doc(e.pd@.docs, id),
    ensures
        e.wm@[word_index(e.pd@.words, w)].docs.contains(id) <==> e.pd@.docs[doc_index_of(
            e.pd@.docs,
            id,
        )].words.contains(w),
{
    lemma_word_index(e.pd@.words, w);
    let k = word_index(e.pd@.words, w);
    assert(e.wm@[k].docs == postings_of(e.pd@.docs, e.pd@.words[k]));
    let j0 = doc_index_of(e.pd@.docs, id);
    assert(0 <= j0 < e.pd@.docs.len() && e.pd@.docs[j0].id == id);
    if postings_of(e.pd@.docs, w).contains(id) {
        let j = choose|j: int|
            0 <= j < e.pd@.docs.len() && (#[trigger] e.pd@.docs[j]).id == id
                && e.pd@.docs[j].words.contains(w);
        assert(ids_of(e.pd@.docs)[j] == e.pd@.docs[j].id);
        assert(ids_of(e.pd@.docs)[j0] == e.pd@.docs[j0].id);
        assert(j == j0);
    }
    if e.pd@.docs[j0].words.contains(w) {
        assert(postings_of(e.pd@.docs, w).contains(id));
    }
}

/// An upsert preserves the store invariant: counts stay aligned, neither
/// the distinct-word list nor the id column gains a duplicate, and every
/// stored word stays registered.
pub proof fn lemma_upsert_preserves_inv(pd: PdView, d: DocView)
    requires
        store_inv(pd),
    ensures
        store_inv(upsert_spec(pd, d)),
{
    lemma_extend_corpus(pd.words, d.words);
    let s2 = upsert_spec(pd, d);
    if has_doc(pd.docs, d.id) {
        let k0 = doc_index_of(pd.docs, d.id);
        assert(0 <= k0 < pd.docs.len() && pd.docs[k0].id == d.id);
        assert(ids_of(s2.docs) =~= ids_of(pd.docs)) by {
            assert forall|j: int| 0 <= j < s2.docs.len() implies ids_of(s2.docs)[j] == ids_of(
                pd.docs,
            )[j] by {
                assert(ids_of(s2.docs)[j] == s2.docs[j].id);
                assert(ids_of(pd.docs)[j] == pd.docs[j].id);
            }
        }
        assert forall|j: int, w: Seq<char>|
            0 <= j < s2.docs.len() && #[trigger] s2.docs[j].words.contains(
                w,
            ) implies s2.words.contains(w) by {
            if j == k0 {
                assert(d.words.contains(w));
            } else {
                assert(pd.docs[j].words.contains(w));
                assert(pd.words.contains(w));
            }
        }
    } else {
        assert(ids_of(s2.docs) =~= ids_of(pd.docs).push(d.id)) by {
            assert forall|j: int| 0 <= j < s2.docs.len() implies ids_of(s2.docs)[j] == ids_of(
                pd.docs,
            ).push(d.id)[j] by {
                assert(ids_of(s2.docs)[j] == s2.docs[j].id);
                if j < pd.docs.len() {
                    assert(ids_of(pd.docs)[j] == pd.docs[j].id);
                }
            }
        }
        assert forall|a: int, b: int|
            0 <= a < ids_of(s2.docs).len() && 0 <= b < ids_of(s2.docs).len() && a
                != b implies ids_of(s2.docs)[a] != ids_of(s2.docs)[b] by {
            let ids1 = ids_of(pd.docs);
            if a < ids1.len() && b < ids1.len() {
            } else if a < ids1.len() {
                if ids1[a] == d.id {
                    assert(pd.docs[a].id == d.id);
                }
            } else if b < ids1.len() {
                if ids1[b] == d.id {
                    assert(pd.docs[b].id == d.id);
                }
            }
        }
        assert forall|j: int, w: Seq<char>|
            0 <= j < s2.docs.len() && #[trigger] s2.docs[j].words.contains(
                w,
            ) implies s2.words.contains(w) by {
            if j == pd.docs.len() {
                assert(d.words.contains(w));
            } else {
                assert(pd.docs[j].words.contains(w));
                assert(pd.words.contains(w));
            }
        }
    }
}

/// Index-permanence law: an upsert never duplicates a distinct word, and a
/// word's assigned index never moves.
pub proof fn lemma_upsert_keeps_word_index(pd: PdView, d: DocView, w: Seq<char>)
    requires
        store_inv(pd),
        pd.words.contains(w),
    ensures
        upsert_spec(pd, d).words.no_duplicates(),
        upsert_spec(pd, d).words.contains(w),
        word_index(upsert_spec(pd, d).words, w) == word_index(pd.words, w),
{
    lemma_extend_corpus(pd.words, d.words);
    let ws2 = upsert_spec(pd, d).words;
    assert(ws2 == pd.words + distinct_absent(d.words, pd.words));
    lemma_word_index_stable(pd.words, ws2, w);
}

/// Idempotence law: upserting the same document (same id, same word
/// sequence) twice leaves the document store and the distinct-word list —
/// and with them every posting set — exactly as after the first upsert;
/// only the dirty-flag bookkeeping is redone.
pub proof fn lemma_upsert_idempotent(pd: PdView, d: DocView)
    requires
        store_inv(pd),
    ensures
        upsert_spec(upsert_spec(pd, d), d).docs == upsert_spec(pd, d).docs,
        upsert_spec(upsert_spec(pd, d), d).words == upsert_spec(pd, d).words,
{
    lemma_upsert_preserves_inv(pd, d);
    lemma_extend_corpus(pd.words, d.words);
    let s1 = upsert_spec(pd, d);
    let k1: int = if has_doc(pd.docs, d.id) {
        doc_index_of(pd.docs, d.id)
    } else {
        pd.docs.len() as int
    };
    assert(0 <= k1 < s1.docs.len() && s1.docs[k1] == d);
    assert(has_doc(s1.docs, d.id)) by {
        assert(s1.docs[k1].id == d.id);
    }
    let k2 = doc_index_of(s1.docs, d.id);
    assert(0 <= k2 < s1.docs.len() && s1.docs[k2].id == d.id);
    assert(k2 == k1) by {
        assert(ids_of(s1.docs)[k2] == s1.docs[k2].id);
        assert(ids_of(s1.docs)[k1] == s1.docs[k1].id);
    }
    assert(s1.docs.update(k2, d) =~= s1.docs);
    assert forall|w: Seq<char>| d.words.contains(w) implies s1.words.contains(w) by {
        assert(s1.words.contains(w));
    }
    lemma_distinct_absent_empty(d.words, s1.words);
    assert(s1.words + distinct_absent(d.words, s1.words) =~= s1.words);
}

/// Round-trip law: the pair that `save_parts` emits passes the load-time
/// check, and any engine that installs it reproduces the saved engine's
/// document count, word count, and every posting set (hence every
/// `(word, postings-size)` pair).
pub proof fn lemma_save_load_round_trip(e: TFIDF, primary: PdView, secondary: PdView, e2: TFIDF)
    requires
        e.wf(),
        primary.docs == e.pd@.docs,
        primary.words == e.pd@.words,
        secondary.doc_count == e.pd@.docs.len(),
        secondary.word_count == e.pd@.words.len(),
        e2.wf(),
        e2.pd@.docs == primary.docs,
        e2.pd@.words == primary.words,
    ensures
        snapshot_ok(primary, secondary),
        e2.pd@.docs.len() == e.pd@.docs.len(),
        e2.pd@.words.len() == e.pd@.words.len(),
        forall|k: int|
            0 <= k < e.pd@.words.len() ==> (#[trigger] e2.wm@[k]).docs == e.wm@[k].docs,
{
    assert forall|k: int| 0 <= k < e.pd@.words.len() implies (#[trigger] e2.wm@[k]).docs
        == e.wm@[k].docs by {
        assert(e.wm@[k].docs == postings_of(e.pd@.docs, e.pd@.words[k]));
        assert(e2.wm@[k].docs == postings_of(e2.pd@.docs, e2.pd@.words[k]));
    }
}

} // verus!
