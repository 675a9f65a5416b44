//! Spec-level helpers over word sequences.
//!
//! Words are modelled as `Seq<char>`; a document's word list and the corpus
//! distinct-word list are `Seq<Seq<char>>`.  The central helper is
//! `distinct_absent`, the first-occurrence subsequence of a word list that
//! avoids an exclusion list: it models both the set-diff of an update and the
//! distinct-word registration order of an upsert.

use vstd::prelude::*;

verus! {

/// The first occurrences, in order, of the words of `ws` that are absent
/// from `excl` (each listed word exactly once).
pub open spec fn distinct_absent(ws: Seq<Seq<char>>, excl: Seq<Seq<char>>) -> Seq<Seq<char>>
    decreases ws.len(),
{
    if ws.len() == 0 {
        Seq::empty()
    } else {
        let pre = distinct_absent(ws.drop_last(), excl);
        if excl.contains(ws.last()) || pre.contains(ws.last()) {
            pre
        } else {
            pre.push(ws.last())
        }
    }
}

/// A word is listed by `distinct_absent(ws, excl)` exactly when it occurs in
/// `ws` and not in `excl`.
pub proof fn lemma_distinct_absent_contains(ws: Seq<Seq<char>>, excl: Seq<Seq<char>>, w: Seq<char>)
    ensures
        distinct_absent(ws, excl).contains(w) <==> (ws.contains(w) && !excl.contains(w)),
    decreases ws.len(),
{
    if ws.len() == 0 {
        assert(!ws.contains(w));
    } else {
        lemma_distinct_absent_contains(ws.drop_last(), excl, w);
        let pre = distinct_absent(ws.drop_last(), excl);
        if ws.drop_last().contains(w) {
            let i = choose|i: int| 0 <= i < ws.drop_last().len() && ws.drop_last()[i] == w;
            assert(ws[i] == w);
        }
        if ws.contains(w) {
            let i = choose|i: int| 0 <= i < ws.len() && ws[i] == w;
            if i < ws.len() - 1 {
                assert(ws.drop_last()[i] == w);
            } else {
                assert(ws.last() == w);
            }
        }
        if !(excl.contains(ws.last()) || pre.contains(ws.last())) {
            assert(pre.push(ws.last()).last() == ws.last());
            assert forall|x: Seq<char>| pre.contains(x) implies pre.push(ws.last()).contains(
                x,
            ) by {
                let i = choose|i: int| 0 <= i < pre.len() && pre[i] == x;
                assert(pre.push(ws.last())[i] == x);
            }
            assert forall|x: Seq<char>| pre.push(ws.last()).contains(x) implies pre.contains(x)
                || x == ws.last() by {
                let i = choose|i: int| 0 <= i < pre.push(ws.last()).len() && pre.push(
                    ws.last(),
                )[i] == x;
                if i < pre.len() {
                    assert(pre[i] == x);
                }
            }
        }
    }
}

/// `distinct_absent` never lists a word twice.
pub proof fn lemma_distinct_absent_no_duplicates(ws: Seq<Seq<char>>, excl: Seq<Seq<char>>)
    ensures
        distinct_absent(ws, excl).no_duplicates(),
    decreases ws.len(),
{
    if ws.len() > 0 {
        lemma_distinct_absent_no_duplicates(ws.drop_last(), excl);
        let pre = distinct_absent(ws.drop_last(), excl);
        if !(excl.contains(ws.last()) || pre.contains(ws.last())) {
            assert forall|i: int, j: int|
                0 <= i < pre.push(ws.last()).len() && 0 <= j < pre.push(ws.last()).len() && i
                    != j implies pre.push(ws.last())[i] != pre.push(ws.last())[j] by {
                if i < pre.len() && j < pre.len() {
                } else if i < pre.len() {
                    assert(pre.contains(pre[i]) == false || true);
                    if pre.push(ws.last())[i] == ws.last() {
                        assert(pre[i] == ws.last());
                        assert(pre.contains(ws.last()));
                    }
                } else if j < pre.len() {
                    if pre.push(ws.last())[j] == ws.last() {
                        assert(pre[j] == ws.last());
                        assert(pre.contains(ws.last()));
                    }
                }
            }
        }
    }
}

/// When every word of `ws` stands in `excl`, nothing is listed.
pub proof fn lemma_distinct_absent_empty(ws: Seq<Seq<char>>, excl: Seq<Seq<char>>)
    requires
        forall|w: Seq<char>| ws.contains(w) ==> excl.contains(w),
    ensures
        distinct_absent(ws, excl) == Seq::<Seq<char>>::empty(),
    decreases ws.len(),
{
    if ws.len() == 0 {
        assert(distinct_absent(ws, excl) =~= Seq::<Seq<char>>::empty());
    } else {
        assert forall|w: Seq<char>| ws.drop_last().contains(w) implies excl.contains(w) by {
            let i = choose|i: int| 0 <= i < ws.drop_last().len() && ws.drop_last()[i] == w;
            assert(ws[i] == w);
        }
        lemma_distinct_absent_empty(ws.drop_last(), excl);
        assert(ws.contains(ws.last()));
    }
}

/// Diffing first against a document's old words and then against a corpus
/// that already holds all of those old words lists the same fresh words as
/// diffing against the corpus alone.
pub proof fn lemma_distinct_absent_chain(
    ws: Seq<Seq<char>>,
    old_ws: Seq<Seq<char>>,
    corpus: Seq<Seq<char>>,
)
    requires
        forall|w: Seq<char>| old_ws.contains(w) ==> corpus.contains(w),
    ensures
        distinct_absent(distinct_absent(ws, old_ws), corpus) == distinct_absent(ws, corpus),
    decreases ws.len(),
{
    if ws.len() == 0 {
    } else {
        lemma_distinct_absent_chain(ws.drop_last(), old_ws, corpus);
        let w = ws.last();
        let pre1 = distinct_absent(ws.drop_last(), old_ws);
        let lhs_pre = distinct_absent(pre1, corpus);
        let rhs_pre = distinct_absent(ws.drop_last(), corpus);
        if old_ws.contains(w) {
            assert(corpus.contains(w));
            assert(distinct_absent(ws, old_ws) == pre1);
            lemma_distinct_absent_contains(ws.drop_last(), corpus, w);
        } else if pre1.contains(w) {
            assert(distinct_absent(ws, old_ws) == pre1);
            lemma_distinct_absent_contains(ws.drop_last(), old_ws, w);
            if !corpus.contains(w) {
                lemma_distinct_absent_contains(ws.drop_last(), corpus, w);
                assert(rhs_pre.contains(w));
            }
        } else {
            assert(distinct_absent(ws, old_ws) == pre1.push(w));
            assert(pre1.push(w).drop_last() =~= pre1);
            assert(pre1.push(w).last() == w);
            lemma_distinct_absent_contains(pre1, corpus, w);
            lemma_distinct_absent_contains(ws.drop_last(), old_ws, w);
            lemma_distinct_absent_contains(ws.drop_last(), corpus, w);
        }
    }
}

/// Appending the fresh words of `ws` keeps the corpus duplicate-free, keeps
/// the old corpus a prefix, and yields a corpus holding exactly the old
/// words and the words of `ws`.
pub proof fn lemma_extend_corpus(corpus: Seq<Seq<char>>, ws: Seq<Seq<char>>)
    requires
        corpus.no_duplicates(),
    ensures
        (corpus + distinct_absent(ws, corpus)).no_duplicates(),
        corpus.is_prefix_of(corpus + distinct_absent(ws, corpus)),
        forall|w: Seq<char>|
            #[trigger] (corpus + distinct_absent(ws, corpus)).contains(w) <==> (corpus.contains(w)
                || ws.contains(w)),
{
    lemma_distinct_absent_no_duplicates(ws, corpus);
    let d = distinct_absent(ws, corpus);
    let c2 = corpus + d;
    assert forall|i: int, j: int|
        0 <= i < c2.len() && 0 <= j < c2.len() && i != j implies c2[i] != c2[j] by {
        if i < corpus.len() && j < corpus.len() {
        } else if i < corpus.len() {
            let jd = j - corpus.len();
            assert(c2[j] == d[jd]);
            assert(d.contains(d[jd]));
            lemma_distinct_absent_contains(ws, corpus, d[jd]);
            assert(corpus.contains(c2[i]));
        } else if j < corpus.len() {
            let id = i - corpus.len();
            assert(c2[i] == d[id]);
            assert(d.contains(d[id]));
            lemma_distinct_absent_contains(ws, corpus, d[id]);
            assert(corpus.contains(c2[j]));
        } else {
            assert(c2[i] == d[i - corpus.len()] && c2[j] == d[j - corpus.len()]);
        }
    }
    assert(c2.subrange(0, corpus.len() as int) =~= corpus);
    assert forall|w: Seq<char>| #[trigger]
        c2.contains(w) <==> (corpus.contains(w) || ws.contains(w)) by {
        if c2.contains(w) {
            let i = choose|i: int| 0 <= i < c2.len() && c2[i] == w;
            if i < corpus.len() {
                assert(corpus[i] == w);
            } else {
                assert(d[i - corpus.len()] == w);
                assert(d.contains(w));
                lemma_distinct_absent_contains(ws, corpus, w);
            }
        }
        if corpus.contains(w) {
            let i = choose|i: int| 0 <= i < corpus.len() && corpus[i] == w;
            assert(c2[i] == w);
        }
        if ws.contains(w) && !corpus.contains(w) {
            lemma_distinct_absent_contains(ws, corpus, w);
            let i = choose|i: int| 0 <= i < d.len() && d[i] == w;
            assert(c2[corpus.len() + i] == w);
        }
    }
}

/// How many times the word `w` occurs in `ws`.
pub open spec fn count_occ(ws: Seq<Seq<char>>, w: Seq<char>) -> nat
    decreases ws.len(),
{
    if ws.len() == 0 {
        0
    } else {
        count_occ(ws.drop_last(), w) + (if ws.last() == w {
            1nat
        } else {
            0nat
        })
    }
}

/// The position a word holds in a duplicate-free word list.
pub open spec fn word_index(ws: Seq<Seq<char>>, w: Seq<char>) -> int {
    choose|k: int| 0 <= k < ws.len() && ws[k] == w
}

/// In a duplicate-free list, `word_index` is the one position holding `w`.
pub proof fn lemma_word_index(ws: Seq<Seq<char>>, w: Seq<char>)
    requires
        ws.no_duplicates(),
        ws.contains(w),
    ensures
        0 <= word_index(ws, w) < ws.len(),
        ws[word_index(ws, w)] == w,
        forall|k: int| 0 <= k < ws.len() && ws[k] == w ==> k == word_index(ws, w),
{
    let i = choose|i: int| 0 <= i < ws.len() && ws[i] == w;
    assert(0 <= word_index(ws, w) < ws.len() && ws[word_index(ws, w)] == w);
}

/// Extending a duplicate-free word list never moves an assigned position.
pub proof fn lemma_word_index_stable(pre: Seq<Seq<char>>, post: Seq<Seq<char>>, w: Seq<char>)
    requires
        post.no_duplicates(),
        pre.is_prefix_of(post),
        pre.contains(w),
    ensures
        post.contains(w),
        word_index(post, w) == word_index(pre, w),
{
    assert(pre.no_duplicates());
    lemma_word_index(pre, w);
    let i = word_index(pre, w);
    assert(post[i] == pre[i]);
    assert(post.contains(w));
    lemma_word_index(post, w);
}

} // verus!
