//! The document id → last-stored-snapshot index, used to diff an update
//! against what was previously stored for the same id.

use vstd::prelude::*;

use crate::doc::{Doc, DocView};

verus! {

/// The id → document index, stored in insertion order.
pub struct DocMap {
    pub docs: Vec<Doc>,
}

impl View for DocMap {
    type V = Seq<DocView>;

    open spec fn view(&self) -> Seq<DocView> {
        self.docs.deep_view()
    }
}

impl DocMap {
    /// An empty index.
    pub fn new() -> (r: DocMap)
        ensures
            r@ == Seq::<DocView>::empty(),
    {
        let r = DocMap { docs: Vec::new() };
        proof {
            assert(r@ =~= Seq::<DocView>::empty());
        }
        r
    }

    /// Insert the document, or replace the stored document with the same id.
    pub fn set_doc(&mut self, d: Doc)
        ensures
            if exists|k: int| 0 <= k < old(self)@.len() && (#[trigger] old(self)@[k]).id
                == d@.id {
                exists|k: int|
                    0 <= k < old(self)@.len() && (#[trigger] old(self)@[k]).id == d@.id
                        && final(self)@ == old(self)@.update(k, d@)
            } else {
                final(self)@ == old(self)@.push(d@)
            },
    {
        let n = self.docs.len();
        for k in 0..n
            invariant
                n == self.docs.len(),
                self.docs == old(self).docs,
                forall|j: int| 0 <= j < k ==> (#[trigger] old(self)@[j]).id != d@.id,
        {
            if self.docs[k].id == d.id {
                proof {
                    assert(old(self)@[k as int].id == d@.id);
                }
                self.docs.set(k, d);
                proof {
                    assert(self@ =~= old(self)@.update(k as int, d@));
                }
                return ;
            }
        }
        self.docs.push(d);
        proof {
            assert(self@ =~= old(self)@.push(d@));
        }
    }

    /// Look up the stored snapshot for an id; the result is a copy.
    pub fn get_doc(&self, id: String) -> (r: Option<Doc>)
        ensures
            match r {
                Some(d) => d@.id == id@ && self@.contains(d@),
                None => forall|k: int| 0 <= k < self@.len() ==> (#[trigger] self@[k]).id != id@,
            },
    {
        let n = self.docs.len();
        for k in 0..n
            invariant
                n == self.docs.len(),
                forall|j: int| 0 <= j < k ==> (#[trigger] self@[j]).id != id@,
        {
            if self.docs[k].id == id {
                let d = self.docs[k].clone();
                proof {
                    assert(self@[k as int] == d@);
                    assert(self@.contains(d@));
                }
                return Some(d);
            }
        }
        None
    }
}

} // verus!
