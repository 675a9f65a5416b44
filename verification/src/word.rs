//! Term entries and the word → entry index.
//!
//! A `Word` pairs a term with its permanent numeric index (its position in
//! the corpus distinct-word list at creation time, never reassigned) and the
//! posting set of the documents currently containing it.  `WordMap` keys the
//! entries by term; entries are copied out, mutated, and written back.

use vstd::prelude::*;

use crate::posting::DocSet;

verus! {

/// A term entry: the word itself, its permanent index, and its postings.
pub struct Word {
    pub value: String,
    pub index: usize,
    pub doc_set: DocSet,
}

/// The mathematical shape of a term entry.
#[verifier::ext_equal]
pub struct WordView {
    pub value: Seq<char>,
    pub index: int,
    pub docs: Set<Seq<char>>,
}

impl View for Word {
    type V = WordView;

    open spec fn view(&self) -> WordView {
        WordView { value: self.value@, index: self.index as int, docs: self.doc_set@ }
    }
}

impl DeepView for Word {
    type V = WordView;

    open spec fn deep_view(&self) -> WordView {
        self@
    }
}

impl Word {
    /// The posting set's vector holds no duplicate ids.
    pub open spec fn inv(&self) -> bool {
        self.doc_set.inv()
    }

    /// Copy of the entry with the same contents.
    pub fn clone_word(&self) -> (r: Word)
        ensures
            r@ == self@,
            r.inv() == self.inv(),
    {
        Word { value: self.value.clone(), index: self.index, doc_set: self.doc_set.clone_set() }
    }

    /// The term's permanent index.
    pub fn get_index(&self) -> (r: usize)
        ensures
            r as int == self@.index,
    {
        self.index
    }

    /// Record that the given document now contains this term.
    pub fn add_doc(&mut self, doc_id: String)
        requires
            old(self).inv(),
        ensures
            final(self).inv(),
            final(self)@.value == old(self)@.value,
            final(self)@.index == old(self)@.index,
            final(self)@.docs == old(self)@.docs.insert(doc_id@),
    {
        self.doc_set.append(doc_id)
    }

    /// Record that the given document no longer contains this term.
    pub fn del_doc(&mut self, doc_id: String)
        requires
            old(self).inv(),
        ensures
            final(self).inv(),
            final(self)@.value == old(self)@.value,
            final(self)@.index == old(self)@.index,
            final(self)@.docs == old(self)@.docs.remove(doc_id@),
    {
        self.doc_set.del(doc_id)
    }

    /// How many documents currently contain this term.
    pub fn doc_count(&self) -> (r: usize)
        requires
            self.inv(),
        ensures
            r == self@.docs.len(),
    {
        self.doc_set.count()
    }
}

/// The word → term-entry index, stored in index (= insertion) order.
pub struct WordMap {
    pub words: Vec<Word>,
}

impl View for WordMap {
    type V = Seq<WordView>;

    open spec fn view(&self) -> Seq<WordView> {
        self.words.deep_view()
    }
}

impl WordMap {
    /// Every stored entry satisfies its own invariant.
    pub open spec fn inv(&self) -> bool {
        forall|k: int| 0 <= k < self.words.len() ==> (#[trigger] self.words@[k]).inv()
    }

    /// An empty index.
    pub fn new() -> (r: WordMap)
        ensures
            r.inv(),
            r@ == Seq::<WordView>::empty(),
    {
        let r = WordMap { words: Vec::new() };
        proof {
            assert(r@ =~= Seq::<WordView>::empty());
        }
        r
    }

    /// Insert the entry, or replace the entry that holds the same word.
    pub fn set_word(&mut self, w: Word)
        requires
            old(self).inv(),
            w.inv(),
        ensures
            final(self).inv(),
            if exists|k: int| 0 <= k < old(self)@.len() && (#[trigger] old(self)@[k]).value
                == w@.value {
                exists|k: int|
                    0 <= k < old(self)@.len() && (#[trigger] old(self)@[k]).value == w@.value
                        && final(self)@ == old(self)@.update(k, w@)
            } else {
                final(self)@ == old(self)@.push(w@)
            },
    {
        let n = self.words.len();
        for k in 0..n
            invariant
                n == self.words.len(),
                self.words == old(self).words,
                old(self).inv(),
                w.inv(),
                forall|j: int| 0 <= j < k ==> (#[trigger] old(self)@[j]).value != w@.value,
        {
            if self.words[k].value == w.value {
                proof {
                    assert(old(self)@[k as int].value == w@.value);
                }
                self.words.set(k, w);
                proof {
                    assert(self@ =~= old(self)@.update(k as int, w@));
                }
                return ;
            }
        }
        self.words.push(w);
        proof {
            assert(self@ =~= old(self)@.push(w@));
        }
    }

    /// Look up the entry for a word; `None` means the word was never seen.
    /// The returned entry is a copy — mutations must be written back.
    pub fn get_word(&self, s: String) -> (r: Option<Word>)
        requires
            self.inv(),
        ensures
            match r {
                Some(w) => w.inv() && w@.value == s@ && self@.contains(w@),
                None => forall|k: int| 0 <= k < self@.len() ==> (#[trigger] self@[k]).value != s@,
            },
    {
        let n = self.words.len();
        for k in 0..n
            invariant
                n == self.words.len(),
                self.inv(),
                forall|j: int| 0 <= j < k ==> (#[trigger] self@[j]).value != s@,
        {
            if self.words[k].value == s {
                let w = self.words[k].clone_word();
                proof {
                    assert(self@[k as int] == w@);
                    assert(self@.contains(w@));
                }
                return Some(w);
            }
        }
        None
    }
}

} // verus!
