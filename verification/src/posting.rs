//! Posting sets: the set of document ids currently containing a given word.
//! Membership only — repetition inside a document never shows up here.

use vstd::prelude::*;

use crate::doc::contains_word;

verus! {

/// A set of document ids, stored as a duplicate-free vector.
pub struct DocSet {
    pub ids: Vec<String>,
}

impl View for DocSet {
    type V = Set<Seq<char>>;

    open spec fn view(&self) -> Set<Seq<char>> {
        self.ids.deep_view().to_set()
    }
}

impl DocSet {
    /// The stored vector holds each id at most once, so its length is the
    /// cardinality of the set it represents.
    pub open spec fn inv(&self) -> bool {
        self.ids.deep_view().no_duplicates()
    }

    /// An empty posting set.
    pub fn new() -> (r: DocSet)
        ensures
            r.inv(),
            r@ == Set::<Seq<char>>::empty(),
    {
        let r = DocSet { ids: Vec::new() };
        proof {
            assert(r@ =~= Set::<Seq<char>>::empty());
        }
        r
    }

    /// Copy of the posting set with the same contents.
    pub fn clone_set(&self) -> (r: DocSet)
        ensures
            r@ == self@,
            r.inv() == self.inv(),
    {
        let ids = self.ids.clone();
        proof {
            assert(ids.deep_view() =~= self.ids.deep_view());
        }
        DocSet { ids }
    }

    /// Insert a document id; already-present ids are left alone.
    pub fn append(&mut self, id: String)
        requires
            old(self).inv(),
        ensures
            final(self).inv(),
            final(self)@ == old(self)@.insert(id@),
    {
        if !contains_word(&self.ids, &id) {
            let ghost pre = self.ids.deep_view();
            self.ids.push(id);
            proof {
                assert(self.ids.deep_view() =~= pre.push(id@));
                assert forall|i: int, j: int|
                    0 <= i < pre.push(id@).len() && 0 <= j < pre.push(id@).len() && i
                        != j implies pre.push(id@)[i] != pre.push(id@)[j] by {
                    if i < pre.len() && j < pre.len() {
                    } else if i < pre.len() {
                        if pre[i] == id@ {
                            assert(pre.contains(id@));
                        }
                    } else if j < pre.len() {
                        if pre[j] == id@ {
                            assert(pre.contains(id@));
                        }
                    }
                }
                assert forall|x: Seq<char>| pre.push(id@).contains(x) implies pre.contains(x) || x
                    == id@ by {
                    let i = choose|i: int| 0 <= i < pre.push(id@).len() && pre.push(id@)[i] == x;
                    if i < pre.len() {
                        assert(pre[i] == x);
                    }
                }
                assert forall|x: Seq<char>| pre.contains(x) implies pre.push(id@).contains(x) by {
                    let i = choose|i: int| 0 <= i < pre.len() && pre[i] == x;
                    assert(pre.push(id@)[i] == x);
                }
                assert(pre.push(id@).contains(id@)) by {
                    assert(pre.push(id@)[pre.len() as int] == id@);
                }
                assert(self@ =~= old(self)@.insert(id@));
            }
        } else {
            proof {
                assert(self@ =~= old(self)@.insert(id@));
            }
        }
    }

    /// Remove a document id; absent ids are a no-op.
    pub fn del(&mut self, id: String)
        requires
            old(self).inv(),
        ensures
            final(self).inv(),
            final(self)@ == old(self)@.remove(id@),
    {
        let n = self.ids.len();
        for i in 0..n
            invariant
                n == self.ids.len(),
                self.ids == old(self).ids,
                old(self).inv(),
                forall|j: int| 0 <= j < i ==> self.ids.deep_view()[j] != id@,
        {
            if self.ids[i] == id {
                let ghost pre = self.ids.deep_view();
                proof {
                    assert(pre[i as int] == id@);
                }
                self.ids.remove(i);
                proof {
                    let post = self.ids.deep_view();
                    assert(post =~= pre.remove(i as int));
                    pre.remove_ensures(i as int);
                    assert forall|x: Seq<char>| post.contains(x) implies pre.contains(x) && x
                        != id@ by {
                        let j = choose|j: int| 0 <= j < post.len() && post[j] == x;
                        let pj: int = if j < i {
                            j
                        } else {
                            j + 1
                        };
                        assert(pre[pj] == x);
                        assert(pre.contains(x));
                        assert(pj != i);
                        assert(pre[pj] != pre[i as int]);
                    }
                    assert forall|x: Seq<char>| pre.contains(x) && x != id@ implies post.contains(
                        x,
                    ) by {
                        let j = choose|j: int| 0 <= j < pre.len() && pre[j] == x;
                        assert(j != i);
                        if j < i {
                            assert(post[j] == x);
                        } else {
                            assert(post[j - 1] == x);
                        }
                        assert(post.contains(x));
                    }
                    assert forall|a: int, b: int|
                        0 <= a < post.len() && 0 <= b < post.len() && a != b implies post[a]
                        != post[b] by {
                        let pa: int = if a < i {
                            a
                        } else {
                            a + 1
                        };
                        let pb: int = if b < i {
                            b
                        } else {
                            b + 1
                        };
                        assert(post[a] == pre[pa] && post[b] == pre[pb]);
                        assert(pa != pb);
                        assert(pre[pa] != pre[pb]);
                    }
                    assert(self@ =~= old(self)@.remove(id@));
                }
                return ;
            }
        }
        proof {
            assert(!self.ids.deep_view().contains(id@));
            assert(self@ =~= old(self)@.remove(id@));
        }
    }

    /// Whether the given document id is present.
    pub fn exits(&self, id: String) -> (r: bool)
        ensures
            r == self@.contains(id@),
    {
        contains_word(&self.ids, &id)
    }

    /// How many documents currently contain the word.
    pub fn count(&self) -> (r: usize)
        requires
            self.inv(),
        ensures
            r == self@.len(),
    {
        proof {
            self.ids.deep_view().unique_seq_to_set();
        }
        self.ids.len()
    }
}

} // verus!
