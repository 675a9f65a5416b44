//! The index engine: the authoritative corpus store plus the derived word
//! and document indices, kept consistent by incremental upserts, with the
//! TF-IDF scoring operations on top.

use vstd::prelude::*;

use crate::doc::{clone_docs, clone_words, contains_word, Doc, DocView};
use crate::doc_map::DocMap;
use crate::errors::EngineError;
use crate::posting::DocSet;
use crate::ratio::{ilog2, lemma_log2_le, log2, mul_ratio, Ratio};
use crate::seqs::{
    count_occ, distinct_absent, lemma_distinct_absent_chain, lemma_distinct_absent_contains,
    lemma_distinct_absent_no_duplicates, lemma_extend_corpus, lemma_word_index, word_index,
};
use crate::store::{
    all_indexed, doc_index_of, has_doc, ids_of, lemma_postings_push, lemma_postings_update,
    postings_of, snapshot_ok, store_inv, upsert_all_spec, upsert_spec, PdView, PersistentData,
};
use crate::word::{Word, WordMap, WordView};

verus! {

/// Whether no word of `ws` repeats.
fn words_unique(ws: &Vec<String>) -> (r: bool)
    ensures
        r == ws.deep_view().no_duplicates(),
{
    let n = ws.len();
    for i in 0..n
        invariant
            n == ws.len(),
            forall|a: int, b: int| 0 <= a < b < i ==> ws.deep_view()[a] != ws.deep_view()[b],
    {
        for j in 0..i
            invariant
                n == ws.len(),
                i < n,
                forall|a: int, b: int| 0 <= a < b < i ==> ws.deep_view()[a] != ws.deep_view()[b],
                forall|t: int| 0 <= t < j ==> ws.deep_view()[t] != ws.deep_view()[i as int],
        {
            if ws[j] == ws[i] {
                proof {
                    assert(ws.deep_view()[j as int] == ws.deep_view()[i as int]);
                }
                return false;
            }
        }
    }
    proof {
        assert forall|a: int, b: int|
            0 <= a < ws.deep_view().len() && 0 <= b < ws.deep_view().len() && a != b implies ws
            .deep_view()[a] != ws.deep_view()[b] by {
            if a < b {
            } else {
            }
        }
    }
    true
}

/// Whether no stored document id repeats.
fn ids_unique(docs: &Vec<Doc>) -> (r: bool)
    ensures
        r == ids_of(docs.deep_view()).no_duplicates(),
{
    let ghost ids = ids_of(docs.deep_view());
    proof {
        assert(ids.len() == docs.deep_view().len());
    }
    let n = docs.len();
    for i in 0..n
        invariant
            n == docs.len(),
            ids == ids_of(docs.deep_view()),
            ids.len() == n,
            forall|a: int, b: int| 0 <= a < b < i ==> ids[a] != ids[b],
    {
        for j in 0..i
            invariant
                n == docs.len(),
                i < n,
                ids == ids_of(docs.deep_view()),
                ids.len() == n,
                forall|a: int, b: int| 0 <= a < b < i ==> ids[a] != ids[b],
                forall|t: int| 0 <= t < j ==> ids[t] != ids[i as int],
        {
            if docs[j].id == docs[i].id {
                proof {
                    assert(ids[j as int] == docs.deep_view()[j as int].id);
                    assert(ids[i as int] == docs.deep_view()[i as int].id);
                }
                return false;
            }
            proof {
                assert(ids[j as int] == docs.deep_view()[j as int].id);
                assert(ids[i as int] == docs.deep_view()[i as int].id);
            }
        }
    }
    proof {
        assert forall|a: int, b: int|
            0 <= a < ids.len() && 0 <= b < ids.len() && a != b implies ids[a] != ids[b] by {
            if a < b {
            } else {
            }
        }
    }
    true
}

/// Whether every word of every document stands in the distinct-word list.
fn docs_covered(docs: &Vec<Doc>, ws: &Vec<String>) -> (r: bool)
    ensures
        r == all_indexed(docs.deep_view(), ws.deep_view()),
{
    let n = docs.len();
    for j in 0..n
        invariant
            n == docs.len(),
            forall|a: int, t: int|
                0 <= a < j && 0 <= t < docs.deep_view()[a].words.len()
                    ==> ws.deep_view().contains(#[trigger] docs.deep_view()[a].words[t]),
    {
        let m = docs[j].words.len();
        for t in 0..m
            invariant
                n == docs.len(),
                j < n,
                m == docs@[j as int].words.len(),
                forall|a: int, t2: int|
                    0 <= a < j && 0 <= t2 < docs.deep_view()[a].words.len()
                        ==> ws.deep_view().contains(#[trigger] docs.deep_view()[a].words[t2]),
                forall|t2: int|
                    0 <= t2 < t ==> ws.deep_view().contains(
                        docs.deep_view()[j as int].words[t2],
                    ),
        {
            if !contains_word(ws, &docs[j].words[t]) {
                proof {
                    assert(docs.deep_view()[j as int].words[t as int] == docs@[j as int].words@[
                        t as int]@);
                    assert(docs.deep_view()[j as int].words.contains(
                        docs.deep_view()[j as int].words[t as int],
                    ));
                }
                return false;
            }
            proof {
                assert(docs.deep_view()[j as int].words[t as int] == docs@[j as int].words@[
                    t as int]@);
            }
        }
    }
    proof {
        assert forall|a: int, w: Seq<char>|
            0 <= a < docs.deep_view().len() && #[trigger] docs.deep_view()[a].words.contains(
                w,
            ) implies ws.deep_view().contains(w) by {
            let t = choose|t: int|
                0 <= t < docs.deep_view()[a].words.len() && docs.deep_view()[a].words[t] == w;
        }
    }
    true
}

/// The TF-IDF index engine.
///
/// `pd` is the authoritative, persisted corpus store; `wm` (word → term
/// entry) and `dm` (id → stored document) are derived from it, rebuilt
/// wholesale on load and patched incrementally on upsert.
pub struct TFIDF {
    pub pd: PersistentData,
    pub wm: WordMap,
    pub dm: DocMap,
}

impl TFIDF {
    /// The engine invariant: the store satisfies its own invariant, the
    /// document index mirrors the stored documents, and the word index holds
    /// one entry per distinct word, in order, each carrying its permanent
    /// index and exactly the posting set the stored documents induce.
    pub open spec fn wf(&self) -> bool {
        &&& store_inv(self.pd@)
        &&& self.wm.inv()
        &&& self.dm@ == self.pd@.docs
        &&& self.wm@.len() == self.pd@.words.len()
        &&& forall|k: int|
            0 <= k < self.pd@.words.len() ==> (#[trigger] self.wm@[k]).value == self.pd@.words[k]
        &&& forall|k: int| 0 <= k < self.pd@.words.len() ==> (#[trigger] self.wm@[k]).index == k
        &&& forall|k: int|
            0 <= k < self.pd@.words.len() ==> (#[trigger] self.wm@[k]).docs == postings_of(
                self.pd@.docs,
                self.pd@.words[k],
            )
    }

    /// A looked-up entry of an aligned word index sits at its word's
    /// position.
    proof fn lemma_entry_index(self, w: WordView)
        requires
            self.wm@.len() == self.pd@.words.len(),
            forall|k: int|
                0 <= k < self.pd@.words.len() ==> (#[trigger] self.wm@[k]).value
                    == self.pd@.words[k],
            self.pd@.words.no_duplicates(),
            self.wm@.contains(w),
        ensures
            self.pd@.words.contains(w.value),
            0 <= word_index(self.pd@.words, w.value) < self.pd@.words.len(),
            self.wm@[word_index(self.pd@.words, w.value)] == w,
            self.pd@.words[word_index(self.pd@.words, w.value)] == w.value,
    {
        let t = choose|t: int| 0 <= t < self.wm@.len() && self.wm@[t] == w;
        assert(self.pd@.words[t] == w.value);
        assert(self.pd@.words.contains(w.value));
        lemma_word_index(self.pd@.words, w.value);
    }

    /// A fresh, empty engine.
    pub fn new() -> (r: TFIDF)
        ensures
            r.wf(),
            r.pd@.docs == Seq::<DocView>::empty(),
            r.pd@.words == Seq::<Seq<char>>::empty(),
            r.pd@.updated == false,
    {
        let r = TFIDF { pd: PersistentData::default(), wm: WordMap::new(), dm: DocMap::new() };
        proof {
            assert(r.wf());
        }
        r
    }

    /// How many documents the corpus holds.
    pub fn doc_count(&self) -> (r: usize)
        ensures
            r as int == self.pd@.docs.len(),
    {
        self.pd.docs.len()
    }

    /// How many distinct words have ever been indexed.
    pub fn word_count(&self) -> (r: usize)
        ensures
            r as int == self.pd@.words.len(),
    {
        self.pd.words.len()
    }

    /// Install a pair of loaded snapshots and rebuild the derived indices.
    ///
    /// The primary snapshot supplies the document and word arrays, the
    /// secondary one the counts, exactly as the two persisted blobs carry
    /// them.  A pair that breaks the corpus-store shape — a repeated distinct
    /// word, a repeated document id, a document word missing from the
    /// distinct-word list, or counts that disagree with the arrays — is
    /// rejected as `Malformed` and the engine is left untouched.
    pub fn load_from_parts(&mut self, pd: PersistentData, fd: PersistentData) -> (r: Result<
        (),
        EngineError,
    >)
        ensures
            match r {
                Ok(_) => snapshot_ok(pd@, fd@) && final(self).wf() && final(self).pd@.docs
                    == pd@.docs && final(self).pd@.words == pd@.words && final(self).pd@.updated
                    == false,
                Err(e) => e == EngineError::Malformed && !snapshot_ok(pd@, fd@) && *final(self)
                    == *old(self),
            },
    {
        if !words_unique(&pd.words) {
            return Err(EngineError::Malformed);
        }
        if !ids_unique(&pd.docs) {
            return Err(EngineError::Malformed);
        }
        if !docs_covered(&pd.docs, &pd.words) {
            return Err(EngineError::Malformed);
        }
        if fd.doc_count != pd.docs.len() || fd.word_count != pd.words.len() {
            return Err(EngineError::Malformed);
        }
        let PersistentData { docs, words, .. } = pd;
        self.pd = PersistentData {
            updated: false,
            doc_count: fd.doc_count,
            word_count: fd.word_count,
            docs,
            words,
        };
        self.init_derived_data();
        Ok(())
    }

    /// The two snapshots to persist: the primary carries the whole corpus
    /// with a clean dirty flag, the secondary only the counts.
    pub fn save_parts(&self) -> (r: (PersistentData, PersistentData))
        ensures
            r.0@.updated == false,
            r.0@.doc_count == self.pd@.docs.len(),
            r.0@.word_count == self.pd@.words.len(),
            r.0@.docs == self.pd@.docs,
            r.0@.words == self.pd@.words,
            r.1@.updated == false,
            r.1@.doc_count == self.pd@.docs.len(),
            r.1@.word_count == self.pd@.words.len(),
            r.1@.docs == Seq::<DocView>::empty(),
            r.1@.words == Seq::<Seq<char>>::empty(),
    {
        let docs = clone_docs(&self.pd.docs);
        let words = clone_words(&self.pd.words);
        let primary = PersistentData {
            updated: false,
            doc_count: self.pd.docs.len(),
            word_count: self.pd.words.len(),
            docs,
            words,
        };
        let mut secondary = PersistentData::default();
        secondary.doc_count = self.pd.docs.len();
        secondary.word_count = self.pd.words.len();
        (primary, secondary)
    }

    /// Rebuild the derived word and document indices from the store alone:
    /// one empty-posting entry per distinct word (its position is its index),
    /// then every stored document is indexed and added to the posting set of
    /// each of its words.
    fn init_derived_data(&mut self)
        requires
            store_inv(old(self).pd@),
        ensures
            final(self).wf(),
            final(self).pd == old(self).pd,
    {
        let ghost pdv = old(self).pd@;
        self.wm = WordMap::new();
        self.dm = DocMap::new();
        let nw = self.pd.words.len();
        for k in 0..nw
            invariant
                self.pd == old(self).pd,
                pdv == self.pd@,
                store_inv(pdv),
                nw == self.pd.words.len(),
                self.dm@ == Seq::<DocView>::empty(),
                self.wm.inv(),
                self.wm@.len() == k,
                forall|j: int| 0 <= j < k ==> (#[trigger] self.wm@[j]).value == pdv.words[j],
                forall|j: int| 0 <= j < k ==> (#[trigger] self.wm@[j]).index == j,
                forall|j: int|
                    0 <= j < k ==> (#[trigger] self.wm@[j]).docs == Set::<Seq<char>>::empty(),
        {
            let w = Word { value: self.pd.words[k].clone(), index: k, doc_set: DocSet::new() };
            proof {
                assert(w@.value == pdv.words[k as int]);
                assert forall|j: int| 0 <= j < self.wm@.len() implies (#[trigger] self.wm@[j]).value
                    != w@.value by {
                    assert(pdv.words[j] != pdv.words[k as int]);
                }
            }
            self.wm.set_word(w);
        }
        let nd = self.pd.docs.len();
        for j in 0..nd
            invariant
                self.pd == old(self).pd,
                pdv == self.pd@,
                store_inv(pdv),
                nd == self.pd.docs.len(),
                self.wm.inv(),
                self.wm@.len() == pdv.words.len(),
                forall|k: int|
                    0 <= k < pdv.words.len() ==> (#[trigger] self.wm@[k]).value == pdv.words[k],
                forall|k: int| 0 <= k < pdv.words.len() ==> (#[trigger] self.wm@[k]).index == k,
                self.dm@ == pdv.docs.take(j as int),
                forall|k: int|
                    0 <= k < pdv.words.len() ==> (#[trigger] self.wm@[k]).docs == postings_of(
                        pdv.docs.take(j as int),
                        pdv.words[k],
                    ),
        {
            let d = self.pd.docs[j].clone();
            proof {
                assert(d@ == pdv.docs[j as int]);
                assert forall|t: int| 0 <= t < self.dm@.len() implies (#[trigger] self.dm@[t]).id
                    != d@.id by {
                    assert(ids_of(pdv.docs)[t] == pdv.docs[t].id);
                    assert(ids_of(pdv.docs)[j as int] == pdv.docs[j as int].id);
                    assert(self.dm@[t] == pdv.docs[t]);
                }
            }
            self.dm.set_doc(d.clone());
            proof {
                assert(self.dm@ =~= pdv.docs.take(j + 1));
            }
            let nw2 = d.words.len();
            for i in 0..nw2
                invariant
                    self.pd == old(self).pd,
                    pdv == self.pd@,
                    store_inv(pdv),
                    0 <= j < pdv.docs.len(),
                    d@ == pdv.docs[j as int],
                    nw2 == d.words.len(),
                    self.wm.inv(),
                    self.wm@.len() == pdv.words.len(),
                    forall|k: int|
                        0 <= k < pdv.words.len() ==> (#[trigger] self.wm@[k]).value
                            == pdv.words[k],
                    forall|k: int| 0 <= k < pdv.words.len() ==> (#[trigger] self.wm@[k]).index == k,
                    self.dm@ == pdv.docs.take(j + 1),
                    forall|k: int|
                        0 <= k < pdv.words.len() ==> (#[trigger] self.wm@[k]).docs == (
                        if d@.words.take(i as int).contains(pdv.words[k]) {
                            postings_of(pdv.docs.take(j as int), pdv.words[k]).insert(d@.id)
                        } else {
                            postings_of(pdv.docs.take(j as int), pdv.words[k])
                        }),
            {
                let ghost wv = d@.words[i as int];
                proof {
                    assert(d.words@[i as int]@ == wv);
                    assert(d@.words.contains(wv));
                    assert(pdv.words.contains(wv));
                    lemma_word_index(pdv.words, wv);
                }
                let ghost kk = word_index(pdv.words, wv);
                match self.wm.get_word(d.words[i].clone()) {
                    Some(mut r) => {
                        proof {
                            self.lemma_entry_index(r@);
                            assert(self.wm@[kk] == r@);
                        }
                        let ghost pre_wm = self.wm@;
                        r.add_doc(d.id.clone());
                        proof {
                            assert forall|t: int|
                                0 <= t < pre_wm.len() && (#[trigger] pre_wm[t]).value
                                    == r@.value implies t == kk by {
                                assert(pre_wm[t].value == pdv.words[t]);
                                assert(pdv.words[t] == wv);
                                lemma_word_index(pdv.words, wv);
                            }
                        }
                        self.wm.set_word(r);
                        proof {
                            assert(self.wm@ == pre_wm.update(kk, r@));
                            assert(d@.words.take(i + 1).drop_last() =~= d@.words.take(i as int));
                            assert(d@.words.take(i + 1).last() == wv);
                            assert forall|k: int| 0 <= k < pdv.words.len() implies (
                            #[trigger] self.wm@[k]).docs == (
                            if d@.words.take(i + 1).contains(pdv.words[k]) {
                                postings_of(pdv.docs.take(j as int), pdv.words[k]).insert(d@.id)
                            } else {
                                postings_of(pdv.docs.take(j as int), pdv.words[k])
                            }) by {
                                if k == kk {
                                    assert(d@.words.take(i + 1).contains(wv)) by {
                                        assert(d@.words.take(i + 1)[i as int] == wv);
                                    }
                                    if d@.words.take(i as int).contains(wv) {
                                        assert(pre_wm[kk].docs == postings_of(
                                            pdv.docs.take(j as int),
                                            wv,
                                        ).insert(d@.id));
                                        assert(r@.docs =~= postings_of(
                                            pdv.docs.take(j as int),
                                            wv,
                                        ).insert(d@.id));
                                    } else {
                                        assert(r@.docs == postings_of(
                                            pdv.docs.take(j as int),
                                            wv,
                                        ).insert(d@.id));
                                    }
                                } else {
                                    assert(self.wm@[k] == pre_wm[k]);
                                    assert(pdv.words[k] != wv) by {
                                        lemma_word_index(pdv.words, wv);
                                    }
                                    assert(d@.words.take(i + 1).contains(pdv.words[k])
                                        == d@.words.take(i as int).contains(pdv.words[k])) by {
                                        if d@.words.take(i as int).contains(pdv.words[k]) {
                                            let t = choose|t: int|
                                                0 <= t < i && d@.words.take(i as int)[t]
                                                    == pdv.words[k];
                                            assert(d@.words.take(i + 1)[t] == pdv.words[k]);
                                        }
                                        if d@.words.take(i + 1).contains(pdv.words[k]) {
                                            let t = choose|t: int|
                                                0 <= t < i + 1 && #[trigger] d@.words.take(
                                                    i + 1,
                                                )[t] == pdv.words[k];
                                            if t < i {
                                                assert(d@.words.take(i as int)[t]
                                                    == pdv.words[k]);
                                            } else {
                                                assert(d@.words.take(i + 1)[t] == wv);
                                            }
                                        }
                                    }
                                }
                            }
                        }
                    },
                    None => {
                        proof {
                            let t = word_index(pdv.words, wv);
                            assert(self.wm@[t].value == pdv.words[t]);
                            assert(false);
                        }
                    },
                }
            }
            proof {
                assert(pdv.docs.take(j + 1) =~= pdv.docs.take(j as int).push(d@));
                assert(!has_doc(pdv.docs.take(j as int), d@.id)) by {
                    if has_doc(pdv.docs.take(j as int), d@.id) {
                        let t = choose|t: int|
                            0 <= t < pdv.docs.take(j as int).len() && (#[trigger] pdv.docs.take(
                                j as int,
                            )[t]).id == d@.id;
                        assert(ids_of(pdv.docs)[t] == pdv.docs[t].id);
                        assert(ids_of(pdv.docs)[j as int] == pdv.docs[j as int].id);
                    }
                }
                assert(d@.words.take(nw2 as int) =~= d@.words);
                assert forall|k: int| 0 <= k < pdv.words.len() implies (#[trigger] self.wm@[
                k]).docs == postings_of(pdv.docs.take(j + 1), pdv.words[k]) by {
                    lemma_postings_push(pdv.docs.take(j as int), d@, pdv.words[k]);
                }
            }
        }
        proof {
            assert(pdv.docs.take(nd as int) =~= pdv.docs);
        }
    }

    /// The state `re_index_words` expects: the document has just been
    /// appended to the store and mirrored into the document index, but no
    /// posting set mentions it yet and none of its fresh words is registered.
    pub open spec fn reindex_pre(&self, d: DocView) -> bool {
        &&& self.pd@.doc_count == self.pd@.docs.len()
        &&& self.pd@.word_count == self.pd@.words.len()
        &&& self.pd@.words.no_duplicates()
        &&& ids_of(self.pd@.docs).no_duplicates()
        &&& self.pd@.docs.len() > 0
        &&& self.pd@.docs.last() == d
        &&& all_indexed(self.pd@.docs.drop_last(), self.pd@.words)
        &&& self.wm.inv()
        &&& self.dm@ == self.pd@.docs
        &&& self.wm@.len() == self.pd@.words.len()
        &&& forall|k: int|
            0 <= k < self.pd@.words.len() ==> (#[trigger] self.wm@[k]).value == self.pd@.words[k]
        &&& forall|k: int| 0 <= k < self.pd@.words.len() ==> (#[trigger] self.wm@[k]).index == k
        &&& forall|k: int|
            0 <= k < self.pd@.words.len() ==> (#[trigger] self.wm@[k]).docs == postings_of(
                self.pd@.docs.drop_last(),
                self.pd@.words[k],
            )
    }

    /// Register every word of a freshly appended document: a word never seen
    /// before is appended to the distinct-word list and given an entry whose
    /// posting set holds only this document; a known word's posting set
    /// gains this document's id.
    pub fn re_index_words(&mut self, doc: Doc)
        requires
            old(self).reindex_pre(doc@),
        ensures
            final(self).wf(),
            final(self).pd@.docs == old(self).pd@.docs,
            final(self).dm@ == old(self).dm@,
            final(self).pd@.words == old(self).pd@.words + distinct_absent(
                doc@.words,
                old(self).pd@.words,
            ),
            final(self).pd@.doc_count == old(self).pd@.doc_count,
            final(self).pd@.updated == (old(self).pd@.updated || distinct_absent(
                doc@.words,
                old(self).pd@.words,
            ).len() > 0),
    {
        let ghost ws = doc@.words;
        let ghost corpus0 = old(self).pd@.words;
        let ghost docs0 = old(self).pd@.docs;
        let n = doc.words.len();
        for i in 0..n
            invariant
                n == doc.words.len(),
                ws == doc@.words,
                docs0.len() > 0,
                docs0.last() == doc@,
                ids_of(docs0).no_duplicates(),
                self.pd@.docs == docs0,
                self.dm@ == docs0,
                self.pd@.doc_count == docs0.len(),
                self.pd@.words == corpus0 + distinct_absent(ws.take(i as int), corpus0),
                corpus0.no_duplicates(),
                self.pd@.words.no_duplicates(),
                self.pd@.word_count == self.pd@.words.len(),
                all_indexed(docs0.drop_last(), self.pd@.words),
                self.wm.inv(),
                self.wm@.len() == self.pd@.words.len(),
                forall|k: int|
                    0 <= k < self.pd@.words.len() ==> (#[trigger] self.wm@[k]).value
                        == self.pd@.words[k],
                forall|k: int|
                    0 <= k < self.pd@.words.len() ==> (#[trigger] self.wm@[k]).index == k,
                forall|k: int|
                    0 <= k < self.pd@.words.len() ==> (#[trigger] self.wm@[k]).docs == (
                    if ws.take(i as int).contains(self.pd@.words[k]) {
                        postings_of(docs0.drop_last(), self.pd@.words[k]).insert(doc@.id)
                    } else {
                        postings_of(docs0.drop_last(), self.pd@.words[k])
                    }),
                self.pd@.updated == (old(self).pd@.updated || distinct_absent(
                    ws.take(i as int),
                    corpus0,
                ).len() > 0),
        {
            let ghost wv = ws[i as int];
            let ghost cur = self.pd@.words;
            let ghost da_pre = distinct_absent(ws.take(i as int), corpus0);
            proof {
                assert(doc.words@[i as int]@ == wv);
                assert(ws.take(i + 1).drop_last() =~= ws.take(i as int));
                assert(ws.take(i + 1).last() == wv);
                assert(ws.take(i + 1).contains(wv)) by {
                    assert(ws.take(i + 1)[i as int] == wv);
                }
            }
            match self.wm.get_word(doc.words[i].clone()) {
                None => {
                    proof {
                        assert(!cur.contains(wv)) by {
                            if cur.contains(wv) {
                                let k = choose|k: int| 0 <= k < cur.len() && cur[k] == wv;
                                assert(self.wm@[k].value == wv);
                            }
                        }
                        assert(!corpus0.contains(wv)) by {
                            if corpus0.contains(wv) {
                                let k = choose|k: int|
                                    0 <= k < corpus0.len() && corpus0[k] == wv;
                                assert(cur[k] == wv);
                            }
                        }
                        assert(!da_pre.contains(wv)) by {
                            if da_pre.contains(wv) {
                                let k = choose|k: int| 0 <= k < da_pre.len() && da_pre[k] == wv;
                                assert(cur[corpus0.len() + k] == wv);
                            }
                        }
                        assert(distinct_absent(ws.take(i + 1), corpus0) == da_pre.push(wv));
                    }
                    let mut p = DocSet::new();
                    p.append(doc.id.clone());
                    let ghost pre_wm = self.wm@;
                    let idx = self.pd.append_word(doc.words[i].clone());
                    proof {
                        assert(self.pd@.words =~= cur.push(wv));
                        assert(self.pd@.words =~= corpus0 + distinct_absent(
                            ws.take(i + 1),
                            corpus0,
                        ));
                        assert forall|t: int|
                            0 <= t < pre_wm.len() implies (#[trigger] pre_wm[t]).value != wv by {
                            assert(pre_wm[t].value == cur[t]);
                        }
                    }
                    self.wm.set_word(
                        Word { value: doc.words[i].clone(), index: idx, doc_set: p },
                    );
                    proof {
                        assert(self.wm@ == pre_wm.push(
                            WordView { value: wv, index: idx as int, docs: p@ },
                        ));
                        // the freshly created entry holds exactly this document
                        assert(p@ =~= Set::<Seq<char>>::empty().insert(doc@.id));
                        assert(postings_of(docs0.drop_last(), wv) =~= Set::<Seq<char>>::empty())
                            by {
                            if exists|id: Seq<char>|
                                postings_of(docs0.drop_last(), wv).contains(id) {
                                let id = choose|id: Seq<char>|
                                    postings_of(docs0.drop_last(), wv).contains(id);
                                let j = choose|j: int|
                                    0 <= j < docs0.drop_last().len() && (
                                    #[trigger] docs0.drop_last()[j]).id == id
                                        && docs0.drop_last()[j].words.contains(wv);
                                assert(cur.contains(wv));
                            }
                        }
                        // duplicate-freedom of the extended corpus
                        assert forall|a: int, b: int|
                            0 <= a < self.pd@.words.len() && 0 <= b < self.pd@.words.len() && a
                                != b implies self.pd@.words[a] != self.pd@.words[b] by {
                            if a < cur.len() && b < cur.len() {
                            } else if a < cur.len() {
                                if cur[a] == wv {
                                    assert(cur.contains(wv));
                                }
                            } else if b < cur.len() {
                                if cur[b] == wv {
                                    assert(cur.contains(wv));
                                }
                            }
                        }
                        // unchanged entries keep their posting shape
                        assert forall|k: int| 0 <= k < self.pd@.words.len() implies (
                        #[trigger] self.wm@[k]).docs == (
                        if ws.take(i + 1).contains(self.pd@.words[k]) {
                            postings_of(docs0.drop_last(), self.pd@.words[k]).insert(doc@.id)
                        } else {
                            postings_of(docs0.drop_last(), self.pd@.words[k])
                        }) by {
                            if k < cur.len() {
                                assert(self.wm@[k] == pre_wm[k]);
                                assert(self.pd@.words[k] == cur[k]);
                                assert(cur[k] != wv) by {
                                    if cur[k] == wv {
                                        assert(cur.contains(wv));
                                    }
                                }
                                assert(ws.take(i + 1).contains(cur[k]) == ws.take(
                                    i as int,
                                ).contains(cur[k])) by {
                                    if ws.take(i as int).contains(cur[k]) {
                                        let t = choose|t: int|
                                            0 <= t < i && #[trigger] ws.take(i as int)[t]
                                                == cur[k];
                                        assert(ws.take(i + 1)[t] == cur[k]);
                                    }
                                    if ws.take(i + 1).contains(cur[k]) {
                                        let t = choose|t: int|
                                            0 <= t < i + 1 && #[trigger] ws.take(i + 1)[t]
                                                == cur[k];
                                        if t < i {
                                            assert(ws.take(i as int)[t] == cur[k]);
                                        }
                                    }
                                }
                            } else {
                                assert(self.wm@[k] == WordView {
                                    value: wv,
                                    index: idx as int,
                                    docs: p@,
                                });
                            }
                        }
                        // every word of the older documents is still covered
                        assert forall|j: int, w: Seq<char>|
                            0 <= j < docs0.drop_last().len() && #[trigger] docs0.drop_last()[
                        j].words.contains(w) implies self.pd@.words.contains(w) by {
                            assert(cur.contains(w));
                            let t = choose|t: int| 0 <= t < cur.len() && cur[t] == w;
                            assert(self.pd@.words[t] == w);
                        }
                    }
                },
                Some(mut r) => {
                    proof {
                        self.lemma_entry_index(r@);
                    }
                    let ghost kk = word_index(cur, wv);
                    let ghost pre_wm = self.wm@;
                    r.add_doc(doc.id.clone());
                    proof {
                        assert forall|t: int|
                            0 <= t < pre_wm.len() && (#[trigger] pre_wm[t]).value
                                == r@.value implies t == kk by {
                            assert(pre_wm[t].value == cur[t]);
                            lemma_word_index(cur, wv);
                        }
                    }
                    self.wm.set_word(r);
                    proof {
                        assert(self.wm@ == pre_wm.update(kk, r@));
                        // the word was already in the corpus, so the
                        // distinct-word list does not change
                        assert(cur.contains(wv));
                        assert(distinct_absent(ws.take(i + 1), corpus0) == da_pre) by {
                            if !corpus0.contains(wv) {
                                let t = choose|t: int| 0 <= t < cur.len() && cur[t] == wv;
                                if t < corpus0.len() {
                                    assert(corpus0[t] == wv);
                                    assert(corpus0.contains(wv));
                                } else {
                                    assert(da_pre[t - corpus0.len()] == wv);
                                    assert(da_pre.contains(wv));
                                }
                            }
                        }
                        assert forall|k: int| 0 <= k < self.pd@.words.len() implies (
                        #[trigger] self.wm@[k]).docs == (
                        if ws.take(i + 1).contains(self.pd@.words[k]) {
                            postings_of(docs0.drop_last(), self.pd@.words[k]).insert(doc@.id)
                        } else {
                            postings_of(docs0.drop_last(), self.pd@.words[k])
                        }) by {
                            if k == kk {
                                if ws.take(i as int).contains(wv) {
                                    assert(pre_wm[kk].docs == postings_of(
                                        docs0.drop_last(),
                                        wv,
                                    ).insert(doc@.id));
                                    assert(r@.docs =~= postings_of(docs0.drop_last(), wv).insert(
                                        doc@.id,
                                    ));
                                } else {
                                    assert(r@.docs == postings_of(docs0.drop_last(), wv).insert(
                                        doc@.id,
                                    ));
                                }
                            } else {
                                assert(self.wm@[k] == pre_wm[k]);
                                assert(self.pd@.words[k] != wv) by {
                                    lemma_word_index(cur, wv);
                                }
                                assert(ws.take(i + 1).contains(cur[k]) == ws.take(
                                    i as int,
                                ).contains(cur[k])) by {
                                    if ws.take(i as int).contains(cur[k]) {
                                        let t = choose|t: int|
                                            0 <= t < i && #[trigger] ws.take(i as int)[t]
                                                == cur[k];
                                        assert(ws.take(i + 1)[t] == cur[k]);
                                    }
                                    if ws.take(i + 1).contains(cur[k]) {
                                        let t = choose|t: int|
                                            0 <= t < i + 1 && #[trigger] ws.take(i + 1)[t]
                                                == cur[k];
                                        if t < i {
                                            assert(ws.take(i as int)[t] == cur[k]);
                                        }
                                    }
                                }
                            }
                        }
                    }
                },
            }
        }
        proof {
            assert(ws.take(n as int) =~= ws);
            assert(docs0 =~= docs0.drop_last().push(doc@));
            assert(!has_doc(docs0.drop_last(), doc@.id)) by {
                if has_doc(docs0.drop_last(), doc@.id) {
                    let t = choose|t: int|
                        0 <= t < docs0.drop_last().len() && (#[trigger] docs0.drop_last()[t]).id
                            == doc@.id;
                    assert(ids_of(docs0)[t] == docs0[t].id);
                    assert(ids_of(docs0)[docs0.len() - 1] == docs0[docs0.len() - 1].id);
                }
            }
            assert forall|k: int| 0 <= k < self.pd@.words.len() implies (#[trigger] self.wm@[
            k]).docs == postings_of(docs0, self.pd@.words[k]) by {
                lemma_postings_push(docs0.drop_last(), doc@, self.pd@.words[k]);
            }
            // the appended document's own words are covered as well
            assert forall|j: int, w: Seq<char>|
                0 <= j < docs0.len() && #[trigger] docs0[j].words.contains(
                    w,
                ) implies self.pd@.words.contains(w) by {
                if j < docs0.len() - 1 {
                    assert(docs0.drop_last()[j].words.contains(w));
                } else {
                    assert(ws.contains(w));
                    lemma_extend_corpus(corpus0, ws);
                }
            }
            assert(self.wf());
        }
    }

    /// Insert the document or update the stored document with the same id,
    /// keeping the distinct-word list, the posting sets, and the document
    /// index consistent.  An update re-indexes only the word-set delta
    /// against the previously stored snapshot.
    pub fn upsert_doc(&mut self, doc: Doc)
        requires
            old(self).wf(),
        ensures
            final(self).wf(),
            final(self).pd@ == upsert_spec(old(self).pd@, doc@),
    {
        let ghost pd0 = old(self).pd@;
        let ghost dv = doc@;
        let pre_doc = self.dm.get_doc(doc.id.clone());
        match pre_doc {
            None => {
                proof {
                    assert(!has_doc(pd0.docs, dv.id)) by {
                        if has_doc(pd0.docs, dv.id) {
                            let j = choose|j: int|
                                0 <= j < pd0.docs.len() && (#[trigger] pd0.docs[j]).id == dv.id;
                            assert(self.dm@[j].id == dv.id);
                        }
                    }
                }
                let _i = self.pd.append_doc(doc.clone());
                self.dm.set_doc(doc.clone());
                proof {
                    assert(self.dm@ =~= pd0.docs.push(dv));
                    assert(self.pd@.docs == pd0.docs.push(dv));
                    assert(ids_of(self.pd@.docs) =~= ids_of(pd0.docs).push(dv.id));
                    assert forall|a: int, b: int|
                        0 <= a < ids_of(self.pd@.docs).len() && 0 <= b < ids_of(
                            self.pd@.docs,
                        ).len() && a != b implies ids_of(self.pd@.docs)[a] != ids_of(
                        self.pd@.docs,
                    )[b] by {
                        let ids2 = ids_of(self.pd@.docs);
                        let ids1 = ids_of(pd0.docs);
                        if a < ids1.len() && b < ids1.len() {
                        } else if a < ids1.len() {
                            if ids1[a] == dv.id {
                                assert(pd0.docs[a].id == dv.id);
                            }
                        } else if b < ids1.len() {
                            if ids1[b] == dv.id {
                                assert(pd0.docs[b].id == dv.id);
                            }
                        }
                    }
                    assert(self.pd@.docs.drop_last() =~= pd0.docs);
                    assert(self.pd@.docs.last() == dv);
                    assert(self.reindex_pre(dv));
                }
                self.re_index_words(doc);
                proof {
                    assert(self.pd@ =~= upsert_spec(pd0, dv));
                }
            },
            Some(pre) => {
                proof {
                    assert(has_doc(pd0.docs, dv.id)) by {
                        let j = choose|j: int|
                            0 <= j < self.dm@.len() && #[trigger] self.dm@[j] == pre@;
                        assert(pd0.docs[j].id == dv.id);
                    }
                }
                let ghost k0 = doc_index_of(pd0.docs, dv.id);
                proof {
                    assert(0 <= k0 < pd0.docs.len() && pd0.docs[k0].id == dv.id);
                    assert forall|j: int|
                        0 <= j < pd0.docs.len() && (#[trigger] pd0.docs[j]).id == dv.id implies j
                        == k0 by {
                        assert(ids_of(pd0.docs)[j] == pd0.docs[j].id);
                        assert(ids_of(pd0.docs)[k0] == pd0.docs[k0].id);
                    }
                    assert(pd0.docs[choose|j: int|
                        0 <= j < self.dm@.len() && #[trigger] self.dm@[j] == pre@] == pre@);
                    assert(pre@ == pd0.docs[k0]);
                }
                let ghost wsold = pre@.words;
                let ghost wsnew = dv.words;
                let (incr, decr) = Doc::words_diff(&pre.words, &doc.words);
                let ghost a_seq = incr.deep_view();
                let ghost r_seq = decr.deep_view();
                proof {
                    lemma_distinct_absent_no_duplicates(wsnew, wsold);
                    lemma_distinct_absent_no_duplicates(wsold, wsnew);
                    assert forall|w: Seq<char>| #[trigger]
                        a_seq.contains(w) <==> (wsnew.contains(w) && !wsold.contains(w)) by {
                        lemma_distinct_absent_contains(wsnew, wsold, w);
                    }
                    assert forall|w: Seq<char>| #[trigger]
                        r_seq.contains(w) <==> (wsold.contains(w) && !wsnew.contains(w)) by {
                        lemma_distinct_absent_contains(wsold, wsnew, w);
                    }
                    assert forall|w: Seq<char>| wsold.contains(w) implies pd0.words.contains(
                        w,
                    ) by {
                        assert(pd0.docs[k0].words.contains(w));
                    }
                }
                let n1 = incr.len();
                for t in 0..n1
                    invariant
                        n1 == incr.len(),
                        dv == doc@,
                        wsnew == dv.words,
                        incr.deep_view() == a_seq,
                        a_seq.no_duplicates(),
                        forall|w: Seq<char>| #[trigger]
                            a_seq.contains(w) <==> (wsnew.contains(w) && !wsold.contains(w)),
                        store_inv(pd0),
                        0 <= k0 < pd0.docs.len(),
                        pd0.docs[k0].id == dv.id,
                        pd0.docs[k0].words == wsold,
                        self.pd@.docs == pd0.docs,
                        self.dm@ == pd0.docs,
                        self.pd@.doc_count == pd0.docs.len(),
                        self.pd@.words == pd0.words + distinct_absent(
                            a_seq.take(t as int),
                            pd0.words,
                        ),
                        self.pd@.words.no_duplicates(),
                        self.pd@.word_count == self.pd@.words.len(),
                        all_indexed(pd0.docs, self.pd@.words),
                        self.wm.inv(),
                        self.wm@.len() == self.pd@.words.len(),
                        forall|k: int|
                            0 <= k < self.pd@.words.len() ==> (#[trigger] self.wm@[k]).value
                                == self.pd@.words[k],
                        forall|k: int|
                            0 <= k < self.pd@.words.len() ==> (#[trigger] self.wm@[k]).index == k,
                        forall|k: int|
                            0 <= k < self.pd@.words.len() ==> (#[trigger] self.wm@[k]).docs == (
                            if a_seq.take(t as int).contains(self.pd@.words[k]) {
                                postings_of(pd0.docs, self.pd@.words[k]).insert(dv.id)
                            } else {
                                postings_of(pd0.docs, self.pd@.words[k])
                            }),
                        self.pd@.updated == (pd0.updated || distinct_absent(
                            a_seq.take(t as int),
                            pd0.words,
                        ).len() > 0),
                {
                    let ghost wv = a_seq[t as int];
                    let ghost cur = self.pd@.words;
                    let ghost da_pre = distinct_absent(a_seq.take(t as int), pd0.words);
                    proof {
                        assert(incr.deep_view()[t as int] == incr@[t as int]@);
                        assert(a_seq.take(t + 1).drop_last() =~= a_seq.take(t as int));
                        assert(a_seq.take(t + 1).last() == wv);
                        assert(a_seq.take(t + 1).contains(wv)) by {
                            assert(a_seq.take(t + 1)[t as int] == wv);
                        }
                        assert(!a_seq.take(t as int).contains(wv)) by {
                            if a_seq.take(t as int).contains(wv) {
                                let u = choose|u: int|
                                    0 <= u < t && #[trigger] a_seq.take(t as int)[u] == wv;
                                assert(a_seq[u] == a_seq[t as int]);
                            }
                        }
                    }
                    match self.wm.get_word(incr[t].clone()) {
                        None => {
                            proof {
                                assert(!cur.contains(wv)) by {
                                    if cur.contains(wv) {
                                        let k = choose|k: int| 0 <= k < cur.len() && cur[k] == wv;
                                        assert(self.wm@[k].value == wv);
                                    }
                                }
                                assert(!pd0.words.contains(wv)) by {
                                    if pd0.words.contains(wv) {
                                        let k = choose|k: int|
                                            0 <= k < pd0.words.len() && pd0.words[k] == wv;
                                        assert(cur[k] == wv);
                                    }
                                }
                                assert(!da_pre.contains(wv)) by {
                                    if da_pre.contains(wv) {
                                        let k = choose|k: int|
                                            0 <= k < da_pre.len() && da_pre[k] == wv;
                                        assert(cur[pd0.words.len() + k] == wv);
                                    }
                                }
                                assert(distinct_absent(a_seq.take(t + 1), pd0.words)
                                    == da_pre.push(wv));
                            }
                            let mut p = DocSet::new();
                            p.append(doc.id.clone());
                            let ghost pre_wm = self.wm@;
                            let idx = self.pd.append_word(incr[t].clone());
                            proof {
                                assert(self.pd@.words =~= cur.push(wv));
                                assert(self.pd@.words =~= pd0.words + distinct_absent(
                                    a_seq.take(t + 1),
                                    pd0.words,
                                ));
                                assert forall|u: int|
                                    0 <= u < pre_wm.len() implies (#[trigger] pre_wm[u]).value
                                    != wv by {
                                    assert(pre_wm[u].value == cur[u]);
                                }
                            }
                            self.wm.set_word(
                                Word { value: incr[t].clone(), index: idx, doc_set: p },
                            );
                            proof {
                                assert(self.wm@ == pre_wm.push(
                                    WordView { value: wv, index: idx as int, docs: p@ },
                                ));
                                assert(p@ =~= Set::<Seq<char>>::empty().insert(dv.id));
                                assert(postings_of(pd0.docs, wv) =~= Set::<Seq<char>>::empty())
                                    by {
                                    if exists|id: Seq<char>|
                                        postings_of(pd0.docs, wv).contains(id) {
                                        let id = choose|id: Seq<char>|
                                            postings_of(pd0.docs, wv).contains(id);
                                        let j = choose|j: int|
                                            0 <= j < pd0.docs.len() && (#[trigger] pd0.docs[
                                            j]).id == id && pd0.docs[j].words.contains(wv);
                                        assert(cur.contains(wv));
                                    }
                                }
                                assert forall|a: int, b: int|
                                    0 <= a < self.pd@.words.len() && 0 <= b
                                        < self.pd@.words.len() && a != b implies self.pd@.words[a]
                                    != self.pd@.words[b] by {
                                    if a < cur.len() && b < cur.len() {
                                    } else if a < cur.len() {
                                        if cur[a] == wv {
                                            assert(cur.contains(wv));
                                        }
                                    } else if b < cur.len() {
                                        if cur[b] == wv {
                                            assert(cur.contains(wv));
                                        }
                                    }
                                }
                                assert forall|k: int| 0 <= k < self.pd@.words.len() implies (
                                #[trigger] self.wm@[k]).docs == (
                                if a_seq.take(t + 1).contains(self.pd@.words[k]) {
                                    postings_of(pd0.docs, self.pd@.words[k]).insert(dv.id)
                                } else {
                                    postings_of(pd0.docs, self.pd@.words[k])
                                }) by {
                                    if k < cur.len() {
                                        assert(self.wm@[k] == pre_wm[k]);
                                        assert(self.pd@.words[k] == cur[k]);
                                        assert(cur[k] != wv) by {
                                            if cur[k] == wv {
                                                assert(cur.contains(wv));
                                            }
                                        }
                                        assert(a_seq.take(t + 1).contains(cur[k]) == a_seq.take(
                                            t as int,
                                        ).contains(cur[k])) by {
                                            if a_seq.take(t as int).contains(cur[k]) {
                                                let u = choose|u: int|
                                                    0 <= u < t && #[trigger] a_seq.take(
                                                        t as int,
                                                    )[u] == cur[k];
                                                assert(a_seq.take(t + 1)[u] == cur[k]);
                                            }
                                            if a_seq.take(t + 1).contains(cur[k]) {
                                                let u = choose|u: int|
                                                    0 <= u < t + 1 && #[trigger] a_seq.take(
                                                        t + 1,
                                                    )[u] == cur[k];
                                                if u < t {
                                                    assert(a_seq.take(t as int)[u] == cur[k]);
                                                }
                                            }
                                        }
                                    } else {
                                        assert(self.wm@[k] == WordView {
                                            value: wv,
                                            index: idx as int,
                                            docs: p@,
                                        });
                                    }
                                }
                                assert forall|j: int, w: Seq<char>|
                                    0 <= j < pd0.docs.len() && #[trigger] pd0.docs[
                                j].words.contains(w) implies self.pd@.words.contains(w) by {
                                    assert(cur.contains(w));
                                    let u = choose|u: int| 0 <= u < cur.len() && cur[u] == w;
                                    assert(self.pd@.words[u] == w);
                                }
                            }
                        },
                        Some(mut r) => {
                            proof {
                                self.lemma_entry_index(r@);
                            }
                            let ghost kk = word_index(cur, wv);
                            let ghost pre_wm = self.wm@;
                            r.add_doc(doc.id.clone());
                            proof {
                                assert forall|u: int|
                                    0 <= u < pre_wm.len() && (#[trigger] pre_wm[u]).value
                                        == r@.value implies u == kk by {
                                    assert(pre_wm[u].value == cur[u]);
                                    lemma_word_index(cur, wv);
                                }
                            }
                            self.wm.set_word(r);
                            proof {
                                assert(self.wm@ == pre_wm.update(kk, r@));
                                assert(cur.contains(wv));
                                assert(distinct_absent(a_seq.take(t + 1), pd0.words)
                                    == da_pre) by {
                                    if !pd0.words.contains(wv) {
                                        let u = choose|u: int| 0 <= u < cur.len() && cur[u] == wv;
                                        if u < pd0.words.len() {
                                            assert(pd0.words[u] == wv);
                                            assert(pd0.words.contains(wv));
                                        } else {
                                            assert(da_pre[u - pd0.words.len()] == wv);
                                            assert(da_pre.contains(wv));
                                        }
                                    }
                                }
                                assert forall|k: int| 0 <= k < self.pd@.words.len() implies (
                                #[trigger] self.wm@[k]).docs == (
                                if a_seq.take(t + 1).contains(self.pd@.words[k]) {
                                    postings_of(pd0.docs, self.pd@.words[k]).insert(dv.id)
                                } else {
                                    postings_of(pd0.docs, self.pd@.words[k])
                                }) by {
                                    if k == kk {
                                        assert(r@.docs == postings_of(pd0.docs, wv).insert(
                                            dv.id,
                                        ));
                                    } else {
                                        assert(self.wm@[k] == pre_wm[k]);
                                        assert(self.pd@.words[k] != wv) by {
                                            lemma_word_index(cur, wv);
                                        }
                                        assert(a_seq.take(t + 1).contains(cur[k]) == a_seq.take(
                                            t as int,
                                        ).contains(cur[k])) by {
                                            if a_seq.take(t as int).contains(cur[k]) {
                                                let u = choose|u: int|
                                                    0 <= u < t && #[trigger] a_seq.take(
                                                        t as int,
                                                    )[u] == cur[k];
                                                assert(a_seq.take(t + 1)[u] == cur[k]);
                                            }
                                            if a_seq.take(t + 1).contains(cur[k]) {
                                                let u = choose|u: int|
                                                    0 <= u < t + 1 && #[trigger] a_seq.take(
                                                        t + 1,
                                                    )[u] == cur[k];
                                                if u < t {
                                                    assert(a_seq.take(t as int)[u] == cur[k]);
                                                }
                                            }
                                        }
                                    }
                                }
                            }
                        },
                    }
                }
                let ghost words1 = self.pd@.words;
                proof {
                    assert(a_seq.take(n1 as int) =~= a_seq);
                    lemma_distinct_absent_chain(wsnew, wsold, pd0.words);
                    assert(words1 == pd0.words + distinct_absent(wsnew, pd0.words));
                }
                let n2 = decr.len();
                for u in 0..n2
                    invariant
                        n2 == decr.len(),
                        dv == doc@,
                        wsnew == dv.words,
                        words1 == pd0.words + distinct_absent(wsnew, pd0.words),
                        decr.deep_view() == r_seq,
                        r_seq.no_duplicates(),
                        forall|w: Seq<char>| #[trigger]
                            a_seq.contains(w) <==> (wsnew.contains(w) && !wsold.contains(w)),
                        forall|w: Seq<char>| #[trigger]
                            r_seq.contains(w) <==> (wsold.contains(w) && !wsnew.contains(w)),
                        store_inv(pd0),
                        0 <= k0 < pd0.docs.len(),
                        pd0.docs[k0].id == dv.id,
                        pd0.docs[k0].words == wsold,
                        forall|w: Seq<char>| wsold.contains(w) ==> pd0.words.contains(w),
                        self.pd@.docs == pd0.docs,
                        self.dm@ == pd0.docs,
                        self.pd@.doc_count == pd0.docs.len(),
                        self.pd@.words == words1,
                        self.pd@.words.no_duplicates(),
                        self.pd@.word_count == self.pd@.words.len(),
                        all_indexed(pd0.docs, self.pd@.words),
                        self.wm.inv(),
                        self.wm@.len() == self.pd@.words.len(),
                        forall|k: int|
                            0 <= k < self.pd@.words.len() ==> (#[trigger] self.wm@[k]).value
                                == self.pd@.words[k],
                        forall|k: int|
                            0 <= k < self.pd@.words.len() ==> (#[trigger] self.wm@[k]).index == k,
                        forall|k: int|
                            0 <= k < self.pd@.words.len() ==> (#[trigger] self.wm@[k]).docs == (
                            if r_seq.take(u as int).contains(self.pd@.words[k]) {
                                (if a_seq.contains(self.pd@.words[k]) {
                                    postings_of(pd0.docs, self.pd@.words[k]).insert(dv.id)
                                } else {
                                    postings_of(pd0.docs, self.pd@.words[k])
                                }).remove(dv.id)
                            } else {
                                (if a_seq.contains(self.pd@.words[k]) {
                                    postings_of(pd0.docs, self.pd@.words[k]).insert(dv.id)
                                } else {
                                    postings_of(pd0.docs, self.pd@.words[k])
                                })
                            }),
                        self.pd@.updated == (pd0.updated || distinct_absent(
                            wsnew,
                            pd0.words,
                        ).len() > 0),
                {
                    let ghost wv = r_seq[u as int];
                    let ghost cur = self.pd@.words;
                    proof {
                        assert(decr.deep_view()[u as int] == decr@[u as int]@);
                        assert(r_seq.take(u + 1).drop_last() =~= r_seq.take(u as int));
                        assert(r_seq.take(u + 1).last() == wv);
                        assert(r_seq.take(u + 1).contains(wv)) by {
                            assert(r_seq.take(u + 1)[u as int] == wv);
                        }
                        assert(!r_seq.take(u as int).contains(wv)) by {
                            if r_seq.take(u as int).contains(wv) {
                                let t2 = choose|t2: int|
                                    0 <= t2 < u && #[trigger] r_seq.take(u as int)[t2] == wv;
                                assert(r_seq[t2] == r_seq[u as int]);
                            }
                        }
                        assert(r_seq.contains(wv));
                        assert(wsold.contains(wv) && !wsnew.contains(wv));
                        assert(!a_seq.contains(wv));
                    }
                    match self.wm.get_word(decr[u].clone()) {
                        Some(mut r) => {
                            proof {
                                self.lemma_entry_index(r@);
                            }
                            let ghost kk = word_index(cur, wv);
                            let ghost pre_wm = self.wm@;
                            r.del_doc(doc.id.clone());
                            proof {
                                assert forall|t2: int|
                                    0 <= t2 < pre_wm.len() && (#[trigger] pre_wm[t2]).value
                                        == r@.value implies t2 == kk by {
                                    assert(pre_wm[t2].value == cur[t2]);
                                    lemma_word_index(cur, wv);
                                }
                            }
                            self.wm.set_word(r);
                            proof {
                                assert(self.wm@ == pre_wm.update(kk, r@));
                                assert forall|k: int| 0 <= k < self.pd@.words.len() implies (
                                #[trigger] self.wm@[k]).docs == (
                                if r_seq.take(u + 1).contains(self.pd@.words[k]) {
                                    (if a_seq.contains(self.pd@.words[k]) {
                                        postings_of(pd0.docs, self.pd@.words[k]).insert(dv.id)
                                    } else {
                                        postings_of(pd0.docs, self.pd@.words[k])
                                    }).remove(dv.id)
                                } else {
                                    (if a_seq.contains(self.pd@.words[k]) {
                                        postings_of(pd0.docs, self.pd@.words[k]).insert(dv.id)
                                    } else {
                                        postings_of(pd0.docs, self.pd@.words[k])
                                    })
                                }) by {
                                    if k == kk {
                                        assert(r@.docs == postings_of(pd0.docs, wv).remove(
                                            dv.id,
                                        ));
                                    } else {
                                        assert(self.wm@[k] == pre_wm[k]);
                                        assert(self.pd@.words[k] != wv) by {
                                            lemma_word_index(cur, wv);
                                        }
                                        assert(r_seq.take(u + 1).contains(cur[k]) == r_seq.take(
                                            u as int,
                                        ).contains(cur[k])) by {
                                            if r_seq.take(u as int).contains(cur[k]) {
                                                let t2 = choose|t2: int|
                                                    0 <= t2 < u && #[trigger] r_seq.take(
                                                        u as int,
                                                    )[t2] == cur[k];
                                                assert(r_seq.take(u + 1)[t2] == cur[k]);
                                            }
                                            if r_seq.take(u + 1).contains(cur[k]) {
                                                let t2 = choose|t2: int|
                                                    0 <= t2 < u + 1 && #[trigger] r_seq.take(
                                                        u + 1,
                                                    )[t2] == cur[k];
                                                if t2 < u {
                                                    assert(r_seq.take(u as int)[t2] == cur[k]);
                                                }
                                            }
                                        }
                                    }
                                }
                            }
                        },
                        None => {
                            // a word that was previously stored for this id
                            // is necessarily registered; the defensive no-op
                            // branch is unreachable
                            proof {
                                assert(pd0.words.contains(wv));
                                assert(cur.contains(wv)) by {
                                    let k = choose|k: int|
                                        0 <= k < pd0.words.len() && pd0.words[k] == wv;
                                    assert(cur[k] == wv);
                                }
                                let k = choose|k: int| 0 <= k < cur.len() && cur[k] == wv;
                                assert(self.wm@[k].value == wv);
                                assert(false);
                            }
                        },
                    }
                }
                proof {
                    assert(r_seq.take(n2 as int) =~= r_seq);
                }
                let pos = find_doc_position(&self.pd.docs, &doc.id);
                match pos {
                    Some(kpos) => {
                        proof {
                            assert(self.pd@.docs[kpos as int].id == dv.id);
                            assert(kpos as int == k0) by {
                                assert(ids_of(pd0.docs)[kpos as int] == pd0.docs[kpos as int].id);
                                assert(ids_of(pd0.docs)[k0] == pd0.docs[k0].id);
                            }
                        }
                        let ghost pre_docs = self.pd@.docs;
                        self.pd.docs.set(kpos, doc.clone());
                        self.pd.updated = true;
                        proof {
                            assert(self.pd@.docs =~= pre_docs.update(k0, dv));
                        }
                        self.dm.set_doc(doc.clone());
                        proof {
                            let docs2 = pd0.docs.update(k0, dv);
                            assert(self.pd@.docs == docs2);
                            // the document index keeps mirroring the store
                            assert forall|j: int|
                                0 <= j < pd0.docs.len() && (#[trigger] pd0.docs[j]).id
                                    == dv.id implies j == k0 by {
                                assert(ids_of(pd0.docs)[j] == pd0.docs[j].id);
                                assert(ids_of(pd0.docs)[k0] == pd0.docs[k0].id);
                            }
                            let kd = choose|kd: int|
                                0 <= kd < pd0.docs.len() && (#[trigger] pd0.docs[kd]).id == dv.id
                                    && self.dm@ == pd0.docs.update(kd, dv);
                            assert(self.dm@ == docs2);
                            // ids are untouched by the in-place update
                            assert(ids_of(docs2) =~= ids_of(pd0.docs));
                            // the new snapshot's words are all registered
                            assert forall|j: int, w: Seq<char>|
                                0 <= j < docs2.len() && #[trigger] docs2[j].words.contains(
                                    w,
                                ) implies words1.contains(w) by {
                                if j == k0 {
                                    assert(wsnew.contains(w));
                                    lemma_extend_corpus(pd0.words, wsnew);
                                } else {
                                    assert(pd0.docs[j].words.contains(w));
                                }
                            }
                            // each posting set now matches the updated store
                            assert forall|k: int| 0 <= k < words1.len() implies (
                            #[trigger] self.wm@[k]).docs == postings_of(docs2, words1[k]) by {
                                let w = words1[k];
                                lemma_postings_update(pd0.docs, k0, dv, w);
                                if a_seq.contains(w) {
                                    assert(!r_seq.contains(w));
                                    assert(wsnew.contains(w));
                                } else if r_seq.contains(w) {
                                    assert(!wsnew.contains(w));
                                } else {
                                    if wsnew.contains(w) {
                                        assert(wsold.contains(w));
                                        assert(postings_of(pd0.docs, w).contains(dv.id)) by {
                                            assert(pd0.docs[k0].id == dv.id && pd0.docs[
                                            k0].words.contains(w));
                                        }
                                        assert(postings_of(pd0.docs, w).insert(dv.id)
                                            =~= postings_of(pd0.docs, w));
                                    } else {
                                        assert(!wsold.contains(w));
                                        assert(!postings_of(pd0.docs, w).contains(dv.id)) by {
                                            if postings_of(pd0.docs, w).contains(dv.id) {
                                                let j = choose|j: int|
                                                    0 <= j < pd0.docs.len() && (
                                                    #[trigger] pd0.docs[j]).id == dv.id
                                                        && pd0.docs[j].words.contains(w);
                                            }
                                        }
                                        assert(postings_of(pd0.docs, w).remove(dv.id)
                                            =~= postings_of(pd0.docs, w));
                                    }
                                }
                            }
                            assert(self.pd@ =~= upsert_spec(pd0, dv));
                            assert(self.wf());
                        }
                    },
                    None => {
                        proof {
                            assert(self.pd@.docs[k0].id == dv.id);
                            assert(false);
                        }
                    },
                }
            },
        }
    }

    /// Upsert each document of the batch, in the given order.
    pub fn upsert_docs(&mut self, docs: Vec<Doc>)
        requires
            old(self).wf(),
        ensures
            final(self).wf(),
            final(self).pd@ == upsert_all_spec(old(self).pd@, docs.deep_view()),
    {
        let n = docs.len();
        for i in 0..n
            invariant
                n == docs.len(),
                self.wf(),
                self.pd@ == upsert_all_spec(old(self).pd@, docs.deep_view().take(i as int)),
        {
            self.upsert_doc(docs[i].clone());
            proof {
                assert(docs.deep_view().take(i + 1).drop_last() =~= docs.deep_view().take(
                    i as int,
                ));
                assert(docs.deep_view().take(i + 1).last() == docs.deep_view()[i as int]);
            }
        }
        proof {
            assert(docs.deep_view().take(n as int) =~= docs.deep_view());
        }
    }
}

impl TFIDF {
    /// Term frequency of `word` in `doc`, as the exact ratio of its
    /// occurrence count to the document's total word count.  On an empty
    /// document the result is the undefined ratio 0/0 (the host may render
    /// it as NaN, as a floating-point division would).
    pub fn tf(&self, doc: Doc, word: String) -> (r: Ratio)
        ensures
            r.num == count_occ(doc@.words, word@),
            r.den == doc@.words.len(),
    {
        let c = count_word(&doc.words, &word);
        Ratio { num: c as u128, den: doc.words.len() as u128 }
    }

    /// The TF of each word position of `doc`, repeats included, in the
    /// document's own order: the result has one entry per word position.
    pub fn tf_vector(&self, doc: Doc) -> (r: Vec<Ratio>)
        ensures
            r@.len() == doc@.words.len(),
            forall|i: int|
                0 <= i < r@.len() ==> (#[trigger] r@[i]).num == count_occ(
                    doc@.words,
                    doc@.words[i],
                ) && r@[i].den == doc@.words.len(),
    {
        let mut result: Vec<Ratio> = Vec::new();
        let n = doc.words.len();
        for i in 0..n
            invariant
                n == doc.words.len(),
                result@.len() == i,
                forall|j: int|
                    0 <= j < i ==> (#[trigger] result@[j]).num == count_occ(
                        doc@.words,
                        doc@.words[j],
                    ) && result@[j].den == doc@.words.len(),
        {
            proof {
                assert(doc.words@[i as int]@ == doc@.words[i as int]);
            }
            let c = count_word(&doc.words, &doc.words[i]);
            result.push(Ratio { num: c as u128, den: n as u128 });
        }
        result
    }

    /// Inverse document frequency of a word: absent when the word was never
    /// indexed, otherwise the exact ratio behind the engine's formula
    /// `log2(doc_count) / postings_size + 1`, kept as
    /// `(log2(doc_count) + postings_size) / postings_size`.  A word whose
    /// posting set is empty yields a zero denominator (the undefined
    /// quotient the formula produces there).
    pub fn idf(&self, w: String) -> (r: Option<Ratio>)
        requires
            self.wf(),
        ensures
            match r {
                Some(rt) => self.pd@.words.contains(w@) && rt == idf_spec(self.pd@, w@),
                None => !self.pd@.words.contains(w@),
            },
    {
        let ghost wv = w@;
        match self.wm.get_word(w) {
            None => {
                proof {
                    if self.pd@.words.contains(wv) {
                        let k = choose|k: int|
                            0 <= k < self.pd@.words.len() && self.pd@.words[k] == wv;
                        assert(self.wm@[k].value == wv);
                    }
                }
                None
            },
            Some(entry) => {
                proof {
                    self.lemma_entry_index(entry@);
                    lemma_log2_le(self.pd@.docs.len() as nat);
                }
                let df = entry.doc_count();
                let l = ilog2(self.pd.docs.len() as u64);
                Some(Ratio { num: l as u128 + df as u128, den: df as u128 })
            },
        }
    }

    /// The IDF of each word position of `doc`, in order; absent as soon as
    /// any word of the document was never indexed.
    pub fn idf_vector(&self, doc: Doc) -> (r: Option<Vec<Ratio>>)
        requires
            self.wf(),
        ensures
            match r {
                Some(v) => v@.len() == doc@.words.len() && (forall|i: int|
                    0 <= i < v@.len() ==> self.pd@.words.contains(#[trigger] doc@.words[i]))
                    && (forall|i: int|
                    0 <= i < v@.len() ==> (#[trigger] v@[i]) == idf_spec(
                        self.pd@,
                        doc@.words[i],
                    )),
                None => exists|i: int|
                    0 <= i < doc@.words.len() && !self.pd@.words.contains(
                        #[trigger] doc@.words[i],
                    ),
            },
    {
        let mut result: Vec<Ratio> = Vec::with_capacity(doc.words.len());
        let n = doc.words.len();
        for i in 0..n
            invariant
                self.wf(),
                n == doc.words.len(),
                result@.len() == i,
                forall|j: int| 0 <= j < i ==> self.pd@.words.contains(#[trigger] doc@.words[j]),
                forall|j: int|
                    0 <= j < i ==> (#[trigger] result@[j]) == idf_spec(self.pd@, doc@.words[j]),
        {
            proof {
                assert(doc.words@[i as int]@ == doc@.words[i as int]);
            }
            match self.idf(doc.words[i].clone()) {
                Some(rt) => {
                    result.push(rt);
                },
                None => {
                    return None;
                },
            }
        }
        Some(result)
    }

    /// Element-wise products over the shorter vector's positions.
    fn dot_product_in(&self, x: Vec<Ratio>, y: Vec<Ratio>) -> (r: Vec<Ratio>)
        requires
            y@.len() <= x@.len(),
            forall|i: int|
                0 <= i < y@.len() ==> (#[trigger] x@[i]).num * y@[i].num <= u128::MAX && x@[
                i].den * y@[i].den <= u128::MAX,
        ensures
            r@.len() == y@.len(),
            forall|i: int|
                0 <= i < y@.len() ==> (#[trigger] r@[i]).num == x@[i].num * y@[i].num && r@[i].den
                    == x@[i].den * y@[i].den,
    {
        let mut result: Vec<Ratio> = Vec::with_capacity(y.len());
        let n = y.len();
        for k in 0..n
            invariant
                n == y@.len(),
                y@.len() <= x@.len(),
                forall|i: int|
                    0 <= i < y@.len() ==> (#[trigger] x@[i]).num * y@[i].num <= u128::MAX && x@[
                    i].den * y@[i].den <= u128::MAX,
                result@.len() == k,
                forall|i: int|
                    0 <= i < k ==> (#[trigger] result@[i]).num == x@[i].num * y@[i].num
                        && result@[i].den == x@[i].den * y@[i].den,
        {
            result.push(Ratio { num: x[k].num * y[k].num, den: x[k].den * y[k].den });
        }
        result
    }

    /// Element-wise product of two weight vectors, aligned from position
    /// zero and truncated to the shorter vector's length (a recoverable
    /// stance on mismatched lengths, rather than an out-of-range failure).
    pub fn dot_product(&self, a: Vec<Ratio>, b: Vec<Ratio>) -> (r: Vec<Ratio>)
        requires
            forall|i: int|
                0 <= i < a@.len() && i < b@.len() ==> (#[trigger] a@[i]).num * b@[i].num
                    <= u128::MAX && a@[i].den * b@[i].den <= u128::MAX,
        ensures
            r@.len() == if a@.len() <= b@.len() {
                a@.len()
            } else {
                b@.len()
            },
            forall|i: int|
                0 <= i < r@.len() ==> (#[trigger] r@[i]).num == a@[i].num * b@[i].num && r@[i].den
                    == a@[i].den * b@[i].den,
    {
        let ghost av = a@;
        let ghost bv = b@;
        if a.len() > b.len() {
            self.dot_product_in(a, b)
        } else {
            proof {
                assert forall|i: int| 0 <= i < av.len() implies (#[trigger] bv[i]).num * av[i].num
                    <= u128::MAX && bv[i].den * av[i].den <= u128::MAX by {
                    assert(av[i].num * bv[i].num <= u128::MAX);
                    assert(av[i].den * bv[i].den <= u128::MAX);
                    assert(bv[i].num * av[i].num == av[i].num * bv[i].num) by (nonlinear_arith);
                    assert(bv[i].den * av[i].den == av[i].den * bv[i].den) by (nonlinear_arith);
                }
            }
            let r = self.dot_product_in(b, a);
            proof {
                assert forall|i: int| 0 <= i < r@.len() implies (#[trigger] r@[i]).num == av[i].num
                    * bv[i].num && r@[i].den == av[i].den * bv[i].den by {
                    assert(r@[i].num == bv[i].num * av[i].num);
                    assert(r@[i].den == bv[i].den * av[i].den);
                    assert(bv[i].num * av[i].num == av[i].num * bv[i].num) by (nonlinear_arith);
                    assert(bv[i].den * av[i].den == av[i].den * bv[i].den) by (nonlinear_arith);
                }
            }
            r
        }
    }

    /// Upsert the document, then pair each word position's TF×IDF weight
    /// with that word's permanent term index.  After the upsert every word
    /// is indexed, so the only failure left is a product that does not fit
    /// the weight type, reported as `ScoringUnavailable`.
    pub fn get_doc_vector(&mut self, doc: Doc) -> (r: Result<Vec<TermWeight>, EngineError>)
        requires
            old(self).wf(),
        ensures
            final(self).wf(),
            final(self).pd@ == upsert_spec(old(self).pd@, doc@),
            match r {
                Ok(v) => v@.len() == doc@.words.len() && forall|i: int|
                    0 <= i < v@.len() ==> ((#[trigger] v@[i]).term_index == word_index(
                        final(self).pd@.words,
                        doc@.words[i],
                    ) && v@[i].weight.num == tf_spec(doc@, i).num * idf_spec(
                        final(self).pd@,
                        doc@.words[i],
                    ).num && v@[i].weight.den == tf_spec(doc@, i).den * idf_spec(
                        final(self).pd@,
                        doc@.words[i],
                    ).den),
                Err(e) => e == EngineError::ScoringUnavailable && exists|i: int|
                    0 <= i < doc@.words.len() && ((#[trigger] tf_spec(doc@, i)).num * idf_spec(
                        final(self).pd@,
                        doc@.words[i],
                    ).num > u128::MAX || tf_spec(doc@, i).den * idf_spec(
                        final(self).pd@,
                        doc@.words[i],
                    ).den > u128::MAX),
            },
    {
        let ghost pd0 = old(self).pd@;
        self.upsert_doc(doc.clone());
        proof {
            lemma_extend_corpus(pd0.words, doc@.words);
        }
        let tfv = self.tf_vector(doc.clone());
        let idv_opt = self.idf_vector(doc.clone());
        let idv = match idv_opt {
            Some(v) => v,
            None => {
                proof {
                    assert(false);
                }
                return Err(EngineError::ScoringUnavailable);
            },
        };
        let mut out: Vec<TermWeight> = Vec::new();
        let n = tfv.len();
        for i in 0..n
            invariant
                self.wf(),
                self.pd@ == upsert_spec(old(self).pd@, doc@),
                n == tfv@.len(),
                tfv@.len() == doc@.words.len(),
                idv@.len() == doc@.words.len(),
                forall|j: int|
                    0 <= j < tfv@.len() ==> (#[trigger] tfv@[j]).num == count_occ(
                        doc@.words,
                        doc@.words[j],
                    ) && tfv@[j].den == doc@.words.len(),
                forall|j: int|
                    0 <= j < idv@.len() ==> (#[trigger] idv@[j]) == idf_spec(
                        self.pd@,
                        doc@.words[j],
                    ),
                forall|j: int|
                    0 <= j < idv@.len() ==> self.pd@.words.contains(#[trigger] doc@.words[j]),
                out@.len() == i,
                forall|j: int|
                    0 <= j < i ==> ((#[trigger] out@[j]).term_index == word_index(
                        self.pd@.words,
                        doc@.words[j],
                    ) && out@[j].weight.num == tf_spec(doc@, j).num * idf_spec(
                        self.pd@,
                        doc@.words[j],
                    ).num && out@[j].weight.den == tf_spec(doc@, j).den * idf_spec(
                        self.pd@,
                        doc@.words[j],
                    ).den),
        {
            match mul_ratio(tfv[i], idv[i]) {
                Some(prod) => {
                    proof {
                        assert(doc.words@[i as int]@ == doc@.words[i as int]);
                    }
                    match self.wm.get_word(doc.words[i].clone()) {
                        Some(entry) => {
                            proof {
                                self.lemma_entry_index(entry@);
                            }
                            let ti = entry.get_index();
                            out.push(TermWeight { term_index: ti, weight: prod });
                        },
                        None => {
                            proof {
                                let k = choose|k: int|
                                    0 <= k < self.pd@.words.len() && self.pd@.words[k]
                                        == doc@.words[i as int];
                                assert(self.wm@[k].value == doc@.words[i as int]);
                                assert(false);
                            }
                            return Err(EngineError::ScoringUnavailable);
                        },
                    }
                },
                None => {
                    proof {
                        assert(tf_spec(doc@, i as int).num == tfv@[i as int].num);
                        assert(tf_spec(doc@, i as int).den == tfv@[i as int].den);
                        assert(idf_spec(self.pd@, doc@.words[i as int]) == idv@[i as int]);
                    }
                    return Err(EngineError::ScoringUnavailable);
                },
            }
        }
        Ok(out)
    }
}

/// A word's permanent term index paired with its TF×IDF weight.
#[derive(Clone, Copy, PartialEq, Eq, Structural, Debug)]
pub struct TermWeight {
    pub term_index: usize,
    pub weight: Ratio,
}

/// The TF ratio of the word at position `i` of the document.
pub open spec fn tf_spec(d: DocView, i: int) -> Ratio {
    Ratio { num: count_occ(d.words, d.words[i]) as u128, den: d.words.len() as u128 }
}

/// The IDF ratio of a word under a given store, as the engine's formula
/// `log2(doc_count) / postings_size + 1` over one denominator.
pub open spec fn idf_spec(pd: PdView, w: Seq<char>) -> Ratio {
    Ratio {
        num: (log2(pd.docs.len() as nat) + postings_of(pd.docs, w).len()) as u128,
        den: postings_of(pd.docs, w).len() as u128,
    }
}

/// Occurrences of `w` among the elements of `ws`.
fn count_word(ws: &Vec<String>, w: &String) -> (c: usize)
    ensures
        c as nat == count_occ(ws.deep_view(), w@),
{
    let n = ws.len();
    let mut c: usize = 0;
    for i in 0..n
        invariant
            n == ws.len(),
            c as nat == count_occ(ws.deep_view().take(i as int), w@),
            c <= i,
    {
        proof {
            assert(ws.deep_view().take(i + 1).drop_last() =~= ws.deep_view().take(i as int));
            assert(ws.deep_view().take(i + 1).last() == ws.deep_view()[i as int]);
            assert(ws@[i as int]@ == ws.deep_view()[i as int]);
        }
        if ws[i] == *w {
            c = c + 1;
        }
    }
    proof {
        assert(ws.deep_view().take(n as int) =~= ws.deep_view());
    }
    c
}

/// The position in `docs` of the first document carrying the given id.
fn find_doc_position(docs: &Vec<Doc>, id: &String) -> (r: Option<usize>)
    ensures
        match r {
            Some(i) => i < docs.len() && docs.deep_view()[i as int].id == id@,
            None => forall|k: int|
                0 <= k < docs.deep_view().len() ==> (#[trigger] docs.deep_view()[k]).id != id@,
        },
{
    let n = docs.len();
    for i in 0..n
        invariant
            n == docs.len(),
            forall|k: int| 0 <= k < i ==> (#[trigger] docs.deep_view()[k]).id != id@,
    {
        if docs[i].id == *id {
            return Some(i);
        }
    }
    None
}

} // verus!
