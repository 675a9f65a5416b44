//! Documents: a stable string id and an ordered, already-tokenized word
//! sequence in which repeats are meaningful (they drive term frequency).

use vstd::prelude::*;

use crate::seqs::distinct_absent;

verus! {

/// A document handed to the engine: an external string key and its raw word
/// sequence.
pub struct Doc {
    pub id: String,
    pub words: Vec<String>,
}

/// The mathematical shape of a document.
#[verifier::ext_equal]
pub struct DocView {
    pub id: Seq<char>,
    pub words: Seq<Seq<char>>,
}

impl View for Doc {
    type V = DocView;

    open spec fn view(&self) -> DocView {
        DocView { id: self.id@, words: self.words.deep_view() }
    }
}

impl DeepView for Doc {
    type V = DocView;

    open spec fn deep_view(&self) -> DocView {
        self@
    }
}

impl Clone for Doc {
    fn clone(&self) -> (r: Self)
        ensures
            r@ == self@,
    {
        let r = Doc { id: self.id.clone(), words: clone_words(&self.words) };
        proof {
            assert(r@.words =~= self@.words);
        }
        r
    }
}

/// A copy of a word vector whose view is unchanged.
pub fn clone_words(ws: &Vec<String>) -> (r: Vec<String>)
    ensures
        r.deep_view() == ws.deep_view(),
{
    let r = ws.clone();
    proof {
        assert(r.deep_view() =~= ws.deep_view());
    }
    r
}

/// A copy of a document vector whose view is unchanged.
pub fn clone_docs(ds: &Vec<Doc>) -> (r: Vec<Doc>)
    ensures
        r.deep_view() == ds.deep_view(),
{
    let r = ds.clone();
    proof {
        assert forall|i: int| 0 <= i < r.len() implies r.deep_view()[i] == ds.deep_view()[i] by {
            assert(cloned::<Doc>(ds[i], r@[i]));
        }
        assert(r.deep_view() =~= ds.deep_view());
    }
    r
}

/// Whether some element of `ws` has the view `w@`.
pub fn contains_word(ws: &Vec<String>, w: &String) -> (r: bool)
    ensures
        r == ws.deep_view().contains(w@),
{
    let n = ws.len();
    for i in 0..n
        invariant
            n == ws.len(),
            forall|j: int| 0 <= j < i ==> ws.deep_view()[j] != w@,
    {
        if ws[i] == *w {
            proof {
                assert(ws.deep_view()[i as int] == w@);
            }
            return true;
        }
    }
    false
}

/// The first occurrences, in order, of the words of `ws` that are absent
/// from `excl`.
pub fn distinct_absent_words(ws: &Vec<String>, excl: &Vec<String>) -> (r: Vec<String>)
    ensures
        r.deep_view() == distinct_absent(ws.deep_view(), excl.deep_view()),
{
    let mut out: Vec<String> = Vec::new();
    let n = ws.len();
    for i in 0..n
        invariant
            n == ws.len(),
            out.deep_view() == distinct_absent(ws.deep_view().take(i as int), excl.deep_view()),
    {
        let ghost pre = ws.deep_view().take(i as int);
        proof {
            assert(ws.deep_view().take(i + 1).drop_last() =~= pre);
            assert(ws.deep_view().take(i + 1).last() == ws.deep_view()[i as int]);
        }
        if !contains_word(excl, &ws[i]) && !contains_word(&out, &ws[i]) {
            out.push(ws[i].clone());
            proof {
                assert(out.deep_view() =~= distinct_absent(
                    ws.deep_view().take(i + 1),
                    excl.deep_view(),
                ));
            }
        } else {
            proof {
                assert(out.deep_view() =~= distinct_absent(
                    ws.deep_view().take(i + 1),
                    excl.deep_view(),
                ));
            }
        }
    }
    proof {
        assert(ws.deep_view().take(n as int) =~= ws.deep_view());
    }
    out
}

impl Doc {
    /// The word-set delta of an update, with set semantics over distinct
    /// words: the first component lists the words of `new_words` missing from
    /// `old_words` (they gain this document), the second the words of
    /// `old_words` missing from `new_words` (they lose it).  Words in both
    /// lists, and mere repetition changes, are untouched.
    pub fn words_diff(old_words: &Vec<String>, new_words: &Vec<String>) -> (r: (
        Vec<String>,
        Vec<String>,
    ))
        ensures
            r.0.deep_view() == distinct_absent(new_words.deep_view(), old_words.deep_view()),
            r.1.deep_view() == distinct_absent(old_words.deep_view(), new_words.deep_view()),
    {
        (
            distinct_absent_words(new_words, old_words),
            distinct_absent_words(old_words, new_words),
        )
    }
}

} // verus!
