//! The staging area: what the next commit will add and remove.
use vstd::prelude::*;
use vstd::string::StringExecFns;
use crate::strmap::{StrMap, PairSeq, lemma_mop_dom};
use crate::codec::{
    enc_staging, sp_staging, encode_staging_area, decode_staging_text, lemma_staging_rt,
    valid_pairs,
};
use crate::error::GitError;

verus! {

/// No path may be staged for addition and for removal at once.
pub open spec fn pairs_disjoint(a: PairSeq, b: PairSeq) -> bool {
    forall|i: int, j: int|
        0 <= i < a.len() && 0 <= j < b.len() ==> (#[trigger] a[i]).0 != (#[trigger] b[j]).0
}

/// The two pending sets: `staged` maps a path to the identifier of the
/// content to be added; `deleted` holds the paths to stop tracking.
#[derive(Debug, PartialEq, Eq)]
pub struct StagingArea {
    pub staged: StrMap,
    pub deleted: StrMap,
}

impl StagingArea {
    /// Both tables sorted, and no path in both at once.
    pub open spec fn wf(self) -> bool {
        self.staged.wf() && self.deleted.wf() && self.staged@.dom().disjoint(self.deleted@.dom())
    }

    pub fn new() -> (r: Self)
        ensures
            r.wf(),
            r.staged@ == Map::<Seq<char>, Seq<char>>::empty(),
            r.deleted@ == Map::<Seq<char>, Seq<char>>::empty(),
            r.staged.pair_seq().len() == 0,
            r.deleted.pair_seq().len() == 0,
    {
        let r = StagingArea { staged: StrMap::new(), deleted: StrMap::new() };
        proof {
            assert(r.staged@.dom().disjoint(r.deleted@.dom()));
        }
        r
    }

    /// Stages `path` for addition with the given content identifier; any
    /// pending removal of the same path is cancelled.
    pub fn add(&mut self, path: String, hash: String)
        requires
            old(self).wf(),
        ensures
            final(self).wf(),
            final(self).staged@ == old(self).staged@.insert(path@, hash@),
            final(self).deleted@ == old(self).deleted@.remove(path@),
    {
        self.staged.insert(path.clone(), hash);
        self.deleted.remove(&path);
        proof {
            assert(self.staged@.dom().disjoint(self.deleted@.dom())) by {
                assert forall|p: Seq<char>|
                    self.staged@.dom().contains(p) implies !self.deleted@.dom().contains(p) by {
                    if p != path@ {
                        assert(old(self).staged@.dom().contains(p));
                    }
                }
            }
        }
    }

    /// Empties both sets; run after a successful commit.
    pub fn clear(&mut self)
        ensures
            final(self).wf(),
            final(self).staged@ == Map::<Seq<char>, Seq<char>>::empty(),
            final(self).deleted@ == Map::<Seq<char>, Seq<char>>::empty(),
            final(self).staged.pair_seq().len() == 0,
            final(self).deleted.pair_seq().len() == 0,
    {
        self.staged = StrMap::new();
        self.deleted = StrMap::new();
        proof {
            assert(self.staged@.dom().disjoint(self.deleted@.dom()));
        }
    }

    /// The canonical persisted text of this staging area.
    pub fn encode(&self) -> (r: String)
        ensures
            r@ == enc_staging(self.staged.pair_seq(), self.deleted.pair_seq()),
    {
        encode_staging_area(&self.staged, &self.deleted)
    }

    /// Reads a staging area back from its persisted text. Empty text stands
    /// for a fresh, empty staging area; anything else must be a canonical
    /// record whose two sets share no path.
    pub fn decode(text: &str) -> (r: Result<StagingArea, GitError>)
        ensures
            match r {
                Ok(a) => a.wf() && (if text@.len() == 0 {
                    a.staged.pair_seq().len() == 0 && a.deleted.pair_seq().len() == 0
                } else {
                    sp_staging(text@) == Some((a.staged.pair_seq(), a.deleted.pair_seq()))
                }),
                Err(e) => text@.len() != 0 && (match sp_staging(text@) {
                    Some(t) => !pairs_disjoint(t.0, t.1),
                    None => true,
                }) && e is SerdeOpError,
            },
    {
        let n = text.unicode_len();
        if n == 0 {
            return Ok(StagingArea::new());
        }
        match decode_staging_text(text) {
            None => Err(
                GitError::SerdeOpError(String::from_str("the index record cannot be read")),
            ),
            Some(two) => {
                let staged = two.0;
                let deleted = two.1;
                let ghost st = staged.pair_seq();
                let ghost dl = deleted.pair_seq();
                proof {
                    lemma_mop_dom(st);
                    lemma_mop_dom(dl);
                }
                let count = staged.len();
                let mut i: usize = 0;
                while i < count
                    invariant
                        count == st.len(),
                        i <= count,
                        staged.wf(),
                        deleted.wf(),
                        st == staged.pair_seq(),
                        dl == deleted.pair_seq(),
                        text@.len() != 0,
                        sp_staging(text@) == Some((st, dl)),
                        forall|j: int| 0 <= j < i ==> !deleted@.dom().contains((#[trigger] st[j]).0),
                        forall|k: Seq<char>|
                            #[trigger] deleted@.dom().contains(k) <==> (exists|m: int|
                                0 <= m < dl.len() && (#[trigger] dl[m]).0 == k),
                    decreases count - i,
                {
                    if deleted.contains_key(staged.key_at(i)) {
                        proof {
                            let k = st[i as int].0;
                            let m = choose|m: int| 0 <= m < dl.len() && (#[trigger] dl[m]).0 == k;
                            assert(!pairs_disjoint(st, dl));
                        }
                        return Err(
                            GitError::SerdeOpError(
                                String::from_str("a path is both staged and deleted"),
                            ),
                        );
                    }
                    i = i + 1;
                }
                proof {
                    assert(pairs_disjoint(st, dl)) by {
                        assert forall|a: int, b: int|
                            0 <= a < st.len() && 0 <= b < dl.len() implies (#[trigger] st[a]).0 != (
                        #[trigger] dl[b]).0 by {
                            assert(!deleted@.dom().contains(st[a].0));
                        }
                    }
                    assert(map_dom_disjoint(staged@, deleted@)) by {
                        lemma_mop_dom(st);
                        assert forall|p: Seq<char>|
                            staged@.dom().contains(p) implies !deleted@.dom().contains(p) by {
                            let a = choose|a: int| 0 <= a < st.len() && (#[trigger] st[a]).0 == p;
                            if deleted@.dom().contains(p) {
                                let b = choose|b: int|
                                    0 <= b < dl.len() && (#[trigger] dl[b]).0 == p;
                            }
                        }
                    }
                }
                Ok(StagingArea { staged, deleted })
            },
        }
    }

    /// Mutual exclusion: in a well-formed staging area no path is staged
    /// for addition and for removal at the same time.
    pub proof fn lemma_mutual_exclusion(self, path: Seq<char>)
        requires
            self.wf(),
        ensures
            !(self.staged@.dom().contains(path) && self.deleted@.dom().contains(path)),
    {
    }

    /// Staging idempotence: staging the same path with the same identifier
    /// a second time changes nothing.
    pub proof fn lemma_add_idempotent(
        staged: Map<Seq<char>, Seq<char>>,
        deleted: Map<Seq<char>, Seq<char>>,
        path: Seq<char>,
        hash: Seq<char>,
    )
        ensures
            staged.insert(path, hash).insert(path, hash) == staged.insert(path, hash),
            deleted.remove(path).remove(path) == deleted.remove(path),
    {
        assert(staged.insert(path, hash).insert(path, hash) =~= staged.insert(path, hash));
        assert(deleted.remove(path).remove(path) =~= deleted.remove(path));
    }

    /// Round trip: the canonical text of a well-formed staging area decodes
    /// back to exactly its two tables.
    pub proof fn lemma_round_trip(self)
        requires
            self.wf(),
            valid_pairs(self.staged.pair_seq()),
            valid_pairs(self.deleted.pair_seq()),
        ensures
            sp_staging(enc_staging(self.staged.pair_seq(), self.deleted.pair_seq())) == Some(
                (self.staged.pair_seq(), self.deleted.pair_seq()),
            ),
    {
        lemma_staging_rt(self.staged.pair_seq(), self.deleted.pair_seq());
    }
}

/// The doms of two maps share no key.
pub open spec fn map_dom_disjoint(
    a: Map<Seq<char>, Seq<char>>,
    b: Map<Seq<char>, Seq<char>>,
) -> bool {
    a.dom().disjoint(b.dom())
}

} // verus!
