//! The authoritative corpus store and its mathematical model.
//!
//! `PersistentData` is the unit of persistence: the append-only document and
//! distinct-word arrays, their counts, and the dirty flag.  Everything else
//! the engine keeps (term entries, posting sets, the id index) is derived
//! from it.  This module also defines the model-level predicates — the store
//! invariant, the posting sets a store induces, and the upsert transition —
//! that the engine's contracts are stated over.

use vstd::prelude::*;

use crate::doc::{Doc, DocView};
use crate::seqs::distinct_absent;

verus! {

/// The persisted corpus: documents, distinct words, counts, dirty flag.
pub struct PersistentData {
    pub updated: bool,
    pub doc_count: usize,
    pub word_count: usize,
    pub docs: Vec<Doc>,
    pub words: Vec<String>,
}

/// The mathematical shape of the persisted corpus.
#[verifier::ext_equal]
pub struct PdView {
    pub updated: bool,
    pub doc_count: int,
    pub word_count: int,
    pub docs: Seq<DocView>,
    pub words: Seq<Seq<char>>,
}

impl View for PersistentData {
    type V = PdView;

    open spec fn view(&self) -> PdView {
        PdView {
            updated: self.updated,
            doc_count: self.doc_count as int,
            word_count: self.word_count as int,
            docs: self.docs.deep_view(),
            words: self.words.deep_view(),
        }
    }
}

/// The id of each document, in storage order.
pub open spec fn ids_of(docs: Seq<DocView>) -> Seq<Seq<char>> {
    docs.map_values(|d: DocView| d.id)
}

/// Whether some stored document carries the given id.
pub open spec fn has_doc(docs: Seq<DocView>, id: Seq<char>) -> bool {
    exists|j: int| 0 <= j < docs.len() && (#[trigger] docs[j]).id == id
}

/// The position of the document carrying the given id.
pub open spec fn doc_index_of(docs: Seq<DocView>, id: Seq<char>) -> int {
    choose|j: int| 0 <= j < docs.len() && (#[trigger] docs[j]).id == id
}

/// The posting set a store induces: the ids of the documents whose stored
/// word sequence mentions `w`.
pub open spec fn postings_of(docs: Seq<DocView>, w: Seq<char>) -> Set<Seq<char>> {
    Set::new(
        |id: Seq<char>|
            exists|j: int|
                0 <= j < docs.len() && (#[trigger] docs[j]).id == id && docs[j].words.contains(w),
    )
}

/// Every word of every stored document stands in the distinct-word list.
pub open spec fn all_indexed(docs: Seq<DocView>, words: Seq<Seq<char>>) -> bool {
    forall|j: int, w: Seq<char>|
        0 <= j < docs.len() && #[trigger] docs[j].words.contains(w) ==> words.contains(w)
}

/// The store invariant: counts match the arrays, the distinct-word list and
/// the id column are duplicate-free, and every stored word is registered.
pub open spec fn store_inv(pd: PdView) -> bool {
    &&& pd.doc_count == pd.docs.len()
    &&& pd.word_count == pd.words.len()
    &&& pd.words.no_duplicates()
    &&& ids_of(pd.docs).no_duplicates()
    &&& all_indexed(pd.docs, pd.words)
}

/// The upsert transition on the store: the document replaces its stored
/// snapshot (or is appended if its id is new), the distinct-word list grows
/// by the document's fresh words in first-occurrence order, counts follow,
/// and the store is dirty.
pub open spec fn upsert_spec(pd: PdView, d: DocView) -> PdView {
    let words2 = pd.words + distinct_absent(d.words, pd.words);
    let docs2 = if has_doc(pd.docs, d.id) {
        pd.docs.update(doc_index_of(pd.docs, d.id), d)
    } else {
        pd.docs.push(d)
    };
    PdView {
        updated: true,
        doc_count: docs2.len() as int,
        word_count: words2.len() as int,
        docs: docs2,
        words: words2,
    }
}

/// What a pair of loaded snapshots must satisfy before it is installed: the
/// primary blob's arrays obey the store invariant and the secondary blob's
/// counts agree with them.
pub open spec fn snapshot_ok(pd: PdView, fd: PdView) -> bool {
    &&& pd.words.no_duplicates()
    &&& ids_of(pd.docs).no_duplicates()
    &&& all_indexed(pd.docs, pd.words)
    &&& fd.doc_count == pd.docs.len()
    &&& fd.word_count == pd.words.len()
}

/// The upsert transition folded over a batch, in order.
pub open spec fn upsert_all_spec(pd: PdView, ds: Seq<DocView>) -> PdView
    decreases ds.len(),
{
    if ds.len() == 0 {
        pd
    } else {
        upsert_spec(upsert_all_spec(pd, ds.drop_last()), ds.last())
    }
}

/// Appending a document with a fresh id adds it to exactly the posting sets
/// of the words it contains.
pub proof fn lemma_postings_push(docs: Seq<DocView>, d: DocView, w: Seq<char>)
    requires
        !has_doc(docs, d.id),
    ensures
        postings_of(docs.push(d), w) == if d.words.contains(w) {
            postings_of(docs, w).insert(d.id)
        } else {
            postings_of(docs, w)
        },
{
    let post = docs.push(d);
    assert forall|id: Seq<char>| postings_of(post, w).contains(id) implies postings_of(
        docs,
        w,
    ).contains(id) || (id == d.id && d.words.contains(w)) by {
        let j = choose|j: int| 0 <= j < post.len() && (#[trigger] post[j]).id == id
            && post[j].words.contains(w);
        if j < docs.len() {
            assert(docs[j].id == id && docs[j].words.contains(w));
        } else {
            assert(post[j] == d);
        }
    }
    assert forall|id: Seq<char>| postings_of(docs, w).contains(id) implies postings_of(
        post,
        w,
    ).contains(id) by {
        let j = choose|j: int| 0 <= j < docs.len() && (#[trigger] docs[j]).id == id
            && docs[j].words.contains(w);
        assert(post[j].id == id && post[j].words.contains(w));
    }
    if d.words.contains(w) {
        assert(post[docs.len() as int] == d);
        assert(postings_of(post, w).contains(d.id));
        assert(postings_of(post, w) =~= postings_of(docs, w).insert(d.id));
    } else {
        assert forall|id: Seq<char>| postings_of(post, w).contains(id) implies postings_of(
            docs,
            w,
        ).contains(id) by {
            if id == d.id && d.words.contains(w) {
            }
        }
        assert(postings_of(post, w) =~= postings_of(docs, w));
    }
}

/// Replacing the stored document of an existing id inserts that id into the
/// posting sets of the new words and removes it from all others.
pub proof fn lemma_postings_update(docs: Seq<DocView>, k: int, d: DocView, w: Seq<char>)
    requires
        0 <= k < docs.len(),
        docs[k].id == d.id,
        ids_of(docs).no_duplicates(),
    ensures
        postings_of(docs.update(k, d), w) == if d.words.contains(w) {
            postings_of(docs, w).insert(d.id)
        } else {
            postings_of(docs, w).remove(d.id)
        },
{
    let post = docs.update(k, d);
    assert forall|j: int| 0 <= j < docs.len() && j != k implies (#[trigger] docs[j]).id
        != d.id by {
        assert(ids_of(docs)[j] == docs[j].id);
        assert(ids_of(docs)[k] == docs[k].id);
    }
    assert forall|id: Seq<char>| #[trigger]
        postings_of(post, w).contains(id) <==> (if d.words.contains(w) {
            postings_of(docs, w).insert(d.id)
        } else {
            postings_of(docs, w).remove(d.id)
        }).contains(id) by {
        if postings_of(post, w).contains(id) {
            let j = choose|j: int| 0 <= j < post.len() && (#[trigger] post[j]).id == id
                && post[j].words.contains(w);
            if j == k {
                assert(post[j] == d);
            } else {
                assert(post[j] == docs[j]);
                assert(docs[j].id != d.id);
                assert(postings_of(docs, w).contains(id));
            }
        }
        if id == d.id {
            if d.words.contains(w) {
                assert(post[k] == d);
                assert(postings_of(post, w).contains(id));
            } else {
                if postings_of(post, w).contains(id) {
                    let j = choose|j: int| 0 <= j < post.len() && (#[trigger] post[j]).id == id
                        && post[j].words.contains(w);
                    assert(j != k ==> post[j].id != d.id);
                    assert(false);
                }
            }
        } else {
            if postings_of(docs, w).contains(id) {
                let j = choose|j: int| 0 <= j < docs.len() && (#[trigger] docs[j]).id == id
                    && docs[j].words.contains(w);
                assert(j != k);
                assert(post[j] == docs[j]);
                assert(postings_of(post, w).contains(id));
            }
        }
    }
    if d.words.contains(w) {
        assert(postings_of(post, w) =~= postings_of(docs, w).insert(d.id));
    } else {
        assert(postings_of(post, w) =~= postings_of(docs, w).remove(d.id));
    }
}

impl Default for PersistentData {
    /// An empty, clean store.
    fn default() -> (r: Self)
        ensures
            r@.updated == false,
            r@.doc_count == 0,
            r@.word_count == 0,
            r@.docs == Seq::<DocView>::empty(),
            r@.words == Seq::<Seq<char>>::empty(),
            store_inv(r@),
    {
        let r = PersistentData {
            updated: false,
            doc_count: 0,
            word_count: 0,
            docs: Vec::new(),
            words: Vec::new(),
        };
        proof {
            assert(r@.docs =~= Seq::<DocView>::empty());
            assert(r@.words =~= Seq::<Seq<char>>::empty());
            assert(ids_of(r@.docs) =~= Seq::<Seq<char>>::empty());
        }
        r
    }
}

impl PersistentData {
    /// Append a word the caller has checked to be absent, mark the store
    /// dirty, and return the word's new permanent index.
    pub fn append_word(&mut self, s: String) -> (r: usize)
        ensures
            final(self)@.words == old(self)@.words.push(s@),
            final(self)@.docs == old(self)@.docs,
            final(self)@.updated == true,
            final(self)@.word_count == old(self)@.words.len() + 1,
            final(self)@.doc_count == old(self)@.doc_count,
            r as int == old(self)@.words.len(),
    {
        self.words.push(s);
        self.updated = true;
        self.word_count = self.words.len();
        proof {
            assert(self@.words =~= old(self)@.words.push(self.words@.last()@));
        }
        self.word_count - 1
    }

    /// Append a document, mark the store dirty, and return its position.
    pub fn append_doc(&mut self, doc: Doc) -> (r: usize)
        ensures
            final(self)@.docs == old(self)@.docs.push(doc@),
            final(self)@.words == old(self)@.words,
            final(self)@.updated == true,
            final(self)@.doc_count == old(self)@.docs.len() + 1,
            final(self)@.word_count == old(self)@.word_count,
            r as int == old(self)@.docs.len(),
    {
        let ghost dv = doc@;
        self.docs.push(doc);
        self.updated = true;
        self.doc_count = self.docs.len();
        proof {
            assert(self@.docs =~= old(self)@.docs.push(dv));
        }
        self.doc_count - 1
    }
}

} // verus!
