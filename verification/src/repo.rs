//! The repository: staging, committing, branching, and reporting.
//!
//! A `GitRepository` value holds the state one command works on: the
//! current commit and its identifier, the staging area, the active branch
//! and the branch table. Reading that state from disk and writing it back
//! is the caller's side; everything that decides or computes is here.
use vstd::prelude::*;
use vstd::string::StringExecFns;
use crate::strmap::StrMap;
use crate::staging::StagingArea;
use crate::commit::{Commit, CommitMeta, commit_id, sha1};
use crate::digest::{sha1_hex_of, crypto_string};
use crate::clock::current_timestamp;
use crate::error::GitError;

verus! {

/// A message is blank when it holds nothing but spaces, tabs and line
/// breaks; committing with such a message is refused.
pub open spec fn is_blank(s: Seq<char>) -> bool {
    forall|i: int|
        0 <= i < s.len() ==> (#[trigger] s[i] == ' ' || s[i] == '\t' || s[i] == '\n' || s[i]
            == '\r')
}

/// The staging area applied to a list of (path, content) pairs in order:
/// each path is staged for addition under its content's digest, and any
/// pending removal of it is cancelled.
pub open spec fn stage_all(
    staged: Map<Seq<char>, Seq<char>>,
    deleted: Map<Seq<char>, Seq<char>>,
    files: Seq<(Seq<char>, Seq<char>)>,
) -> (Map<Seq<char>, Seq<char>>, Map<Seq<char>, Seq<char>>)
    decreases files.len(),
{
    if files.len() == 0 {
        (staged, deleted)
    } else {
        stage_all(
            staged.insert(files[0].0, sha1_hex_of(files[0].1)),
            deleted.remove(files[0].0),
            files.drop_first(),
        )
    }
}

/// The staging area after removal requests for a list of paths, stopping
/// at the first path that is neither staged nor tracked; the flag says
/// whether every path was accepted.
pub open spec fn remove_all(
    staged: Map<Seq<char>, Seq<char>>,
    deleted: Map<Seq<char>, Seq<char>>,
    snapshot: Map<Seq<char>, Seq<char>>,
    paths: Seq<Seq<char>>,
) -> (Map<Seq<char>, Seq<char>>, Map<Seq<char>, Seq<char>>, bool)
    decreases paths.len(),
{
    if paths.len() == 0 {
        (staged, deleted, true)
    } else if staged.dom().contains(paths[0]) {
        remove_all(staged.remove(paths[0]), deleted, snapshot, paths.drop_first())
    } else if snapshot.dom().contains(paths[0]) {
        remove_all(staged, deleted.insert(paths[0], Seq::<char>::empty()), snapshot,
            paths.drop_first())
    } else {
        (staged, deleted, false)
    }
}

/// The state one repository command works on.
#[derive(Debug)]
pub struct GitRepository {
    /// Pending additions and removals.
    pub staging_area: StagingArea,
    /// The commit the active branch points at; `Commit::new()` before the
    /// first commit exists.
    pub commit: Commit,
    /// The identifier of that commit; empty before the first commit.
    pub commit_sha1: String,
    /// The name of the active branch.
    pub branch: String,
    /// Every branch name bound to the identifier of the commit it points
    /// at.
    pub branches: StrMap,
}

impl GitRepository {
    pub open spec fn wf(self) -> bool {
        self.staging_area.wf() && self.commit.wf() && self.branches.wf()
    }

    /// A fresh in-memory state: on branch `main`, nothing staged, no
    /// commit yet.
    pub fn new() -> (r: Self)
        ensures
            r.wf(),
            r.branch@ == "main"@,
            r.commit_sha1@ == Seq::<char>::empty(),
            r.staging_area.staged@ == Map::<Seq<char>, Seq<char>>::empty(),
            r.staging_area.deleted@ == Map::<Seq<char>, Seq<char>>::empty(),
            r.branches@ == Map::<Seq<char>, Seq<char>>::empty(),
            r.commit.blobs@ == Map::<Seq<char>, Seq<char>>::empty(),
            r.commit.parent@ == Seq::<char>::empty(),
    {
        GitRepository {
            staging_area: StagingArea::new(),
            commit: Commit::new(),
            commit_sha1: String::new(),
            branch: String::from_str("main"),
            branches: StrMap::new(),
        }
    }

    /// Creates the root commit and points the active branch at it: the
    /// in-memory half of repository initialization.
    pub fn init(&mut self) -> (r: Result<(), GitError>)
        requires
            old(self).wf(),
        ensures
            r is Ok,
            final(self).wf(),
            final(self).commit.meta.message@ == "initial commit"@,
            final(self).commit.blobs@ == Map::<Seq<char>, Seq<char>>::empty(),
            final(self).commit.parent@ == Seq::<char>::empty(),
            final(self).commit_sha1@ == commit_id(final(self).commit),
            final(self).branches@ == old(self).branches@.insert(
                old(self).branch@,
                commit_id(final(self).commit),
            ),
            final(self).branch == old(self).branch,
            final(self).staging_area == old(self).staging_area,
    {
        self.init_commit()
    }

    /// Builds the root commit, computes its identifier, and binds the
    /// active branch to it.
    pub fn init_commit(&mut self) -> (r: Result<(), GitError>)
        requires
            old(self).wf(),
        ensures
            r is Ok,
            final(self).wf(),
            final(self).commit.meta.message@ == "initial commit"@,
            final(self).commit.blobs@ == Map::<Seq<char>, Seq<char>>::empty(),
            final(self).commit.parent@ == Seq::<char>::empty(),
            final(self).commit_sha1@ == commit_id(final(self).commit),
            final(self).branches@ == old(self).branches@.insert(
                old(self).branch@,
                commit_id(final(self).commit),
            ),
            final(self).branch == old(self).branch,
            final(self).staging_area == old(self).staging_area,
    {
        self.commit = Commit::init_commit();
        match sha1(&self.commit) {
            Ok(h) => {
                self.commit_sha1 = h;
            },
            Err(e) => {
                return Err(e);
            },
        }
        self.branches.insert(self.branch.clone(), self.commit_sha1.clone());
        Ok(())
    }

    /// Stages one file for addition: the content's digest becomes its
    /// staged identifier, which the caller stores the content under.
    pub fn add_file(&mut self, path: String, content: &str) -> (hash: String)
        requires
            old(self).wf(),
        ensures
            final(self).wf(),
            hash@ == sha1_hex_of(content@),
            final(self).staging_area.staged@ == old(self).staging_area.staged@.insert(
                path@,
                sha1_hex_of(content@),
            ),
            final(self).staging_area.deleted@ == old(self).staging_area.deleted@.remove(path@),
            final(self).commit == old(self).commit,
            final(self).commit_sha1 == old(self).commit_sha1,
            final(self).branch == old(self).branch,
            final(self).branches == old(self).branches,
    {
        let hash = crypto_string(content);
        self.staging_area.add(path, hash.clone());
        hash
    }

    /// Stages every (path, content) pair in order.
    pub fn add(&mut self, files: &Vec<(String, String)>) -> (r: Result<(), GitError>)
        requires
            old(self).wf(),
        ensures
            r is Ok,
            final(self).wf(),
            (final(self).staging_area.staged@, final(self).staging_area.deleted@) == stage_all(
                old(self).staging_area.staged@,
                old(self).staging_area.deleted@,
                files.deep_view(),
            ),
            final(self).commit == old(self).commit,
            final(self).commit_sha1 == old(self).commit_sha1,
            final(self).branch == old(self).branch,
            final(self).branches == old(self).branches,
    {
        let ghost fs = files.deep_view();
        let mut i: usize = 0;
        proof {
            assert(fs.skip(0) =~= fs);
        }
        while i < files.len()
            invariant
                i <= fs.len(),
                fs == files.deep_view(),
                fs.len() == files@.len(),
                self.wf(),
                stage_all(
                    old(self).staging_area.staged@,
                    old(self).staging_area.deleted@,
                    fs,
                ) == stage_all(
                    self.staging_area.staged@,
                    self.staging_area.deleted@,
                    fs.skip(i as int),
                ),
                self.commit == old(self).commit,
                self.commit_sha1 == old(self).commit_sha1,
                self.branch == old(self).branch,
                self.branches == old(self).branches,
            decreases fs.len() - i,
        {
            let ghost rem = fs.skip(i as int);
            proof {
                assert(rem.len() > 0);
                assert(rem[0] == fs[i as int]);
                assert(fs[i as int] == (files@[i as int].0@, files@[i as int].1@));
                assert(rem.drop_first() =~= fs.skip(i as int + 1));
            }
            let path = files[i].0.clone();
            let _hash = self.add_file(path, files[i].1.as_str());
            i = i + 1;
        }
        proof {
            assert(fs.skip(fs.len() as int) =~= Seq::<(Seq<char>, Seq<char>)>::empty());
        }
        Ok(())
    }

    /// One removal request: unstage the path if it is staged for addition;
    /// otherwise, if it is tracked in the current commit, stage it for
    /// removal; otherwise there is no reason to remove it.
    pub fn remove_file(&mut self, path: &String) -> (r: Result<(), GitError>)
        requires
            old(self).wf(),
        ensures
            final(self).wf(),
            final(self).commit == old(self).commit,
            final(self).commit_sha1 == old(self).commit_sha1,
            final(self).branch == old(self).branch,
            final(self).branches == old(self).branches,
            ({
                let st0 = old(self).staging_area.staged@;
                let dl0 = old(self).staging_area.deleted@;
                let tr0 = old(self).commit.blobs@;
                let st1 = final(self).staging_area.staged@;
                let dl1 = final(self).staging_area.deleted@;
                &&& (st0.dom().contains(path@) ==> r is Ok && st1 == st0.remove(path@) && dl1
                    == dl0)
                &&& (!st0.dom().contains(path@) && tr0.dom().contains(path@) ==> r is Ok && st1
                    == st0 && dl1 == dl0.insert(path@, Seq::<char>::empty()))
                &&& (!st0.dom().contains(path@) && !tr0.dom().contains(path@) ==> r == Result::<
                    (),
                    GitError,
                >::Err(GitError::StagedRemoveNoReasonError) && *final(self) == *old(self))
            }),
    {
        if self.staging_area.staged.contains_key(path) {
            self.staging_area.staged.remove(path);
            proof {
                assert(self.staging_area.staged@.dom().disjoint(self.staging_area.deleted@.dom()))
                    by {
                    assert forall|p: Seq<char>|
                        self.staging_area.staged@.dom().contains(
                            p,
                        ) implies !self.staging_area.deleted@.dom().contains(p) by {
                        assert(old(self).staging_area.staged@.dom().contains(p));
                    }
                }
            }
            Ok(())
        } else if self.commit.blobs.contains_key(path) {
            self.staging_area.deleted.insert(path.clone(), String::new());
            proof {
                assert(self.staging_area.staged@.dom().disjoint(self.staging_area.deleted@.dom()))
                    by {
                    assert forall|p: Seq<char>|
                        self.staging_area.staged@.dom().contains(
                            p,
                        ) implies !self.staging_area.deleted@.dom().contains(p) by {
                        if p != path@ {
                            assert(old(self).staging_area.deleted@.dom().contains(p)
                                == self.staging_area.deleted@.dom().contains(p));
                        }
                    }
                }
            }
            Ok(())
        } else {
            Err(GitError::StagedRemoveNoReasonError)
        }
    }

    /// Removal requests for every path in order; the first path that is
    /// neither staged nor tracked stops the run with an error, the requests
    /// before it staying applied.
    pub fn remove(&mut self, paths: &Vec<String>) -> (r: Result<(), GitError>)
        requires
            old(self).wf(),
        ensures
            final(self).wf(),
            final(self).commit == old(self).commit,
            final(self).commit_sha1 == old(self).commit_sha1,
            final(self).branch == old(self).branch,
            final(self).branches == old(self).branches,
            ({
                let t = remove_all(
                    old(self).staging_area.staged@,
                    old(self).staging_area.deleted@,
                    old(self).commit.blobs@,
                    paths.deep_view(),
                );
                final(self).staging_area.staged@ == t.0 && final(self).staging_area.deleted@
                    == t.1 && (r is Ok <==> t.2) && (r is Err ==> r == Result::<
                    (),
                    GitError,
                >::Err(GitError::StagedRemoveNoReasonError))
            }),
    {
        let ghost ps = paths.deep_view();
        let ghost snapshot = old(self).commit.blobs@;
        let mut i: usize = 0;
        proof {
            assert(ps.skip(0) =~= ps);
        }
        while i < paths.len()
            invariant
                i <= ps.len(),
                ps == paths.deep_view(),
                ps.len() == paths@.len(),
                self.wf(),
                snapshot == self.commit.blobs@,
                remove_all(
                    old(self).staging_area.staged@,
                    old(self).staging_area.deleted@,
                    snapshot,
                    ps,
                ) == remove_all(
                    self.staging_area.staged@,
                    self.staging_area.deleted@,
                    snapshot,
                    ps.skip(i as int),
                ),
                self.commit == old(self).commit,
                self.commit_sha1 == old(self).commit_sha1,
                self.branch == old(self).branch,
                self.branches == old(self).branches,
            decreases ps.len() - i,
        {
            let ghost rem = ps.skip(i as int);
            proof {
                assert(rem.len() > 0);
                assert(rem[0] == ps[i as int]);
                assert(ps[i as int] == paths@[i as int]@);
                assert(rem.drop_first() =~= ps.skip(i as int + 1));
            }
            match self.remove_file(&paths[i]) {
                Ok(_) => {},
                Err(e) => {
                    return Err(e);
                },
            }
            i = i + 1;
        }
        proof {
            assert(ps.skip(ps.len() as int) =~= Seq::<Seq<char>>::empty());
        }
        Ok(())
    }

    /// The next snapshot: the parent's snapshot with every staged addition
    /// upserted and every staged removal deleted — never a partial diff.
    pub fn generate_commit_blobs(old_blobs: &StrMap, adding_staged: &StagingArea) -> (r: Result<
        StrMap,
        GitError,
    >)
        requires
            old_blobs.wf(),
            adding_staged.wf(),
        ensures
            r is Ok,
            r matches Ok(m) ==> m.wf() && m@ == old_blobs@.union_prefer_right(
                adding_staged.staged@,
            ).remove_keys(adding_staged.deleted@.dom()),
    {
        let ghost st = adding_staged.staged.pair_seq();
        let ghost dl = adding_staged.deleted.pair_seq();
        let mut new_blobs = old_blobs.duplicate();
        let mut i: usize = 0;
        proof {
            assert(st.take(0) =~= Seq::<(Seq<char>, Seq<char>)>::empty());
            assert(new_blobs@ =~= old_blobs@.union_prefer_right(
                crate::strmap::map_of_pairs(st.take(0)),
            ));
        }
        while i < adding_staged.staged.len()
            invariant
                i <= st.len(),
                st == adding_staged.staged.pair_seq(),
                adding_staged.staged.wf(),
                new_blobs.wf(),
                new_blobs@ == old_blobs@.union_prefer_right(
                    crate::strmap::map_of_pairs(st.take(i as int)),
                ),
            decreases st.len() - i,
        {
            let k = adding_staged.staged.key_at(i).clone();
            let v = adding_staged.staged.val_at(i).clone();
            new_blobs.insert(k, v);
            proof {
                assert(st.take(i as int + 1).drop_last() =~= st.take(i as int));
                assert(st.take(i as int + 1).last() == st[i as int]);
                assert(crate::strmap::map_of_pairs(st.take(i as int + 1))
                    == crate::strmap::map_of_pairs(st.take(i as int)).insert(
                    st[i as int].0,
                    st[i as int].1,
                ));
                assert(new_blobs@ =~= old_blobs@.union_prefer_right(
                    crate::strmap::map_of_pairs(st.take(i as int + 1)),
                ));
            }
            i = i + 1;
        }
        let ghost merged = new_blobs@;
        proof {
            assert(st.take(st.len() as int) =~= st);
            assert(merged == old_blobs@.union_prefer_right(adding_staged.staged@));
            crate::strmap::lemma_mop_dom(dl);
        }
        let mut j: usize = 0;
        while j < adding_staged.deleted.len()
            invariant
                j <= dl.len(),
                dl == adding_staged.deleted.pair_seq(),
                adding_staged.deleted.wf(),
                new_blobs.wf(),
                forall|k: Seq<char>|
                    #[trigger] new_blobs@.dom().contains(k) <==> (merged.dom().contains(k) && !(
                    exists|m: int| 0 <= m < j && (#[trigger] dl[m]).0 == k)),
                forall|k: Seq<char>|
                    new_blobs@.dom().contains(k) ==> #[trigger] new_blobs@[k] == merged[k],
            decreases dl.len() - j,
        {
            let key = adding_staged.deleted.key_at(j);
            new_blobs.remove(key);
            proof {
                assert forall|k: Seq<char>| #[trigger]
                    new_blobs@.dom().contains(k) <==> (merged.dom().contains(k) && !(exists|m: int|
                    0 <= m < j + 1 && (#[trigger] dl[m]).0 == k)) by {
                    if k != dl[j as int].0 {
                        if exists|m: int| 0 <= m < j + 1 && (#[trigger] dl[m]).0 == k {
                            let m = choose|m: int| 0 <= m < j + 1 && (#[trigger] dl[m]).0 == k;
                            assert(0 <= m < j && dl[m].0 == k);
                        }
                    }
                }
            }
            j = j + 1;
        }
        proof {
            assert(new_blobs@ =~= old_blobs@.union_prefer_right(
                adding_staged.staged@,
            ).remove_keys(adding_staged.deleted@.dom())) by {
                assert forall|k: Seq<char>|
                    #[trigger] adding_staged.deleted@.dom().contains(k) <==> (exists|m: int|
                        0 <= m < dl.len() && (#[trigger] dl[m]).0 == k) by {}
            }
        }
        Ok(new_blobs)
    }

    /// Builds and adopts the next commit from the staging area: refused
    /// with a blank message or with nothing staged; on success the staging
    /// area is emptied, the active branch advances, and the paths that were
    /// staged for removal are handed back for the caller to delete from
    /// the working directory.
    pub fn commit(&mut self, msg: &str) -> (r: Result<Vec<String>, GitError>)
        requires
            old(self).wf(),
        ensures
            final(self).wf(),
            final(self).branch == old(self).branch,
            match r {
                Ok(removed) => {
                    &&& !is_blank(msg@)
                    &&& !(old(self).staging_area.staged@ == Map::<Seq<char>, Seq<char>>::empty()
                        && old(self).staging_area.deleted@ == Map::<Seq<char>, Seq<char>>::empty())
                    &&& removed.deep_view() == old(self).staging_area.deleted.key_seq()
                    &&& final(self).commit.blobs@ == old(self).commit.blobs@.union_prefer_right(
                        old(self).staging_area.staged@,
                    ).remove_keys(old(self).staging_area.deleted@.dom())
                    &&& final(self).commit.meta.message@ == msg@
                    &&& final(self).commit.parent@ == old(self).commit_sha1@
                    &&& final(self).commit_sha1@ == commit_id(final(self).commit)
                    &&& final(self).staging_area.staged@ == Map::<Seq<char>, Seq<char>>::empty()
                    &&& final(self).staging_area.deleted@ == Map::<Seq<char>, Seq<char>>::empty()
                    &&& final(self).branches@ == old(self).branches@.insert(
                        old(self).branch@,
                        commit_id(final(self).commit),
                    )
                },
                Err(e) => {
                    &&& *final(self) == *old(self)
                    &&& (e == GitError::EmptyMessageError <==> is_blank(msg@))
                    &&& (e == GitError::NothingToCommitError <==> !is_blank(msg@))
                    &&& (is_blank(msg@) || (old(self).staging_area.staged@ == Map::<
                        Seq<char>,
                        Seq<char>,
                    >::empty() && old(self).staging_area.deleted@ == Map::<
                        Seq<char>,
                        Seq<char>,
                    >::empty()))
                },
            },
    {
        if is_blank_exec(msg) {
            return Err(GitError::EmptyMessageError);
        }
        proof {
            old(self).staging_area.staged.lemma_empty_map();
            old(self).staging_area.deleted.lemma_empty_map();
        }
        if self.staging_area.staged.is_empty() && self.staging_area.deleted.is_empty() {
            return Err(GitError::NothingToCommitError);
        }
        let blobs = match Self::generate_commit_blobs(&self.commit.blobs, &self.staging_area) {
            Ok(b) => b,
            Err(e) => {
                return Err(e);
            },
        };
        // gather the paths staged for removal before clearing
        let ghost dl = self.staging_area.deleted.pair_seq();
        let mut removed: Vec<String> = Vec::new();
        let mut i: usize = 0;
        while i < self.staging_area.deleted.len()
            invariant
                i <= dl.len(),
                dl == self.staging_area.deleted.pair_seq(),
                removed@.len() == i,
                forall|m: int| 0 <= m < i ==> (#[trigger] removed@[m])@ == dl[m].0,
            decreases dl.len() - i,
        {
            removed.push(self.staging_area.deleted.key_at(i).clone());
            i = i + 1;
        }
        proof {
            assert(removed.deep_view() =~= old(self).staging_area.deleted.key_seq());
        }
        let ts = current_timestamp();
        self.commit = Commit {
            meta: CommitMeta { message: msg.to_owned(), date_time: ts },
            blobs,
            parent: self.commit_sha1.clone(),
        };
        match sha1(&self.commit) {
            Ok(h) => {
                self.commit_sha1 = h;
            },
            Err(e) => {
                return Err(e);
            },
        }
        self.staging_area.clear();
        self.branches.insert(self.branch.clone(), self.commit_sha1.clone());
        Ok(removed)
    }

    /// Creates a branch bound to the current commit; the active branch does
    /// not change. Refused when the name is already taken.
    pub fn branch(&mut self, name: &str) -> (r: Result<(), GitError>)
        requires
            old(self).wf(),
        ensures
            final(self).wf(),
            final(self).staging_area == old(self).staging_area,
            final(self).commit == old(self).commit,
            final(self).commit_sha1 == old(self).commit_sha1,
            final(self).branch == old(self).branch,
            (r is Ok <==> !old(self).branches@.dom().contains(name@)),
            r is Ok ==> final(self).branches@ == old(self).branches@.insert(
                name@,
                old(self).commit_sha1@,
            ),
            r is Err ==> *final(self) == *old(self) && (r matches Err(e) ==> e is BranchError),
    {
        let owned = String::from_str(name);
        if self.branches.contains_key(&owned) {
            let mut m = String::from_str("branch ");
            m.append(name);
            m.append(" already exists");
            Err(GitError::BranchError(m))
        } else {
            self.branches.insert(owned, self.commit_sha1.clone());
            Ok(())
        }
    }
}

/// The untracked paths: in the working tree but neither tracked by the
/// current commit nor staged for addition.
pub open spec fn untracked_lines(
    ws: crate::strmap::PairSeq,
    snapshot: Map<Seq<char>, Seq<char>>,
    staged: Map<Seq<char>, Seq<char>>,
) -> Seq<Seq<char>>
    decreases ws.len(),
{
    if ws.len() == 0 {
        Seq::<Seq<char>>::empty()
    } else {
        (if !snapshot.dom().contains(ws[0].0) && !staged.dom().contains(ws[0].0) {
            seq![ws[0].0]
        } else {
            Seq::<Seq<char>>::empty()
        }) + untracked_lines(ws.drop_first(), snapshot, staged)
    }
}

/// Tracked paths whose working copy changed and which are not staged.
pub open spec fn modified_tracked_lines(
    ws: crate::strmap::PairSeq,
    snapshot: Map<Seq<char>, Seq<char>>,
    staged: Map<Seq<char>, Seq<char>>,
) -> Seq<Seq<char>>
    decreases ws.len(),
{
    if ws.len() == 0 {
        Seq::<Seq<char>>::empty()
    } else {
        (if snapshot.dom().contains(ws[0].0) && snapshot[ws[0].0] != ws[0].1
            && !staged.dom().contains(ws[0].0) {
            seq![ws[0].0 + " (modified)"@]
        } else {
            Seq::<Seq<char>>::empty()
        }) + modified_tracked_lines(ws.drop_first(), snapshot, staged)
    }
}

/// Paths staged for addition whose working copy differs from what was
/// staged.
pub open spec fn staged_modified_lines(
    ws: crate::strmap::PairSeq,
    staged: Map<Seq<char>, Seq<char>>,
) -> Seq<Seq<char>>
    decreases ws.len(),
{
    if ws.len() == 0 {
        Seq::<Seq<char>>::empty()
    } else {
        (if staged.dom().contains(ws[0].0) && staged[ws[0].0] != ws[0].1 {
            seq![ws[0].0 + " (modified)"@]
        } else {
            Seq::<Seq<char>>::empty()
        }) + staged_modified_lines(ws.drop_first(), staged)
    }
}

/// Paths staged for addition that are gone from the working tree.
pub open spec fn staged_deleted_lines(
    st: crate::strmap::PairSeq,
    working: Map<Seq<char>, Seq<char>>,
) -> Seq<Seq<char>>
    decreases st.len(),
{
    if st.len() == 0 {
        Seq::<Seq<char>>::empty()
    } else {
        (if !working.dom().contains(st[0].0) {
            seq![st[0].0 + " (deleted)"@]
        } else {
            Seq::<Seq<char>>::empty()
        }) + staged_deleted_lines(st.drop_first(), working)
    }
}

/// Tracked paths gone from the working tree and not staged for removal.
pub open spec fn missing_tracked_lines(
    snap: crate::strmap::PairSeq,
    working: Map<Seq<char>, Seq<char>>,
    deleted: Map<Seq<char>, Seq<char>>,
) -> Seq<Seq<char>>
    decreases snap.len(),
{
    if snap.len() == 0 {
        Seq::<Seq<char>>::empty()
    } else {
        (if !working.dom().contains(snap[0].0) && !deleted.dom().contains(snap[0].0) {
            seq![snap[0].0 + " (deleted)"@]
        } else {
            Seq::<Seq<char>>::empty()
        }) + missing_tracked_lines(snap.drop_first(), working, deleted)
    }
}

/// Lines rendered under a header: each preceded by a line break.
pub open spec fn joined_lines(lines: Seq<Seq<char>>) -> Seq<char>
    decreases lines.len(),
{
    if lines.len() == 0 {
        Seq::<char>::empty()
    } else {
        seq!['\n'] + lines[0] + joined_lines(lines.drop_first())
    }
}

/// The branch names other than the active one, in their stored order.
pub open spec fn other_branch_lines(keys: Seq<Seq<char>>, active: Seq<char>) -> Seq<Seq<char>>
    decreases keys.len(),
{
    if keys.len() == 0 {
        Seq::<Seq<char>>::empty()
    } else {
        (if keys[0] != active {
            seq![keys[0]]
        } else {
            Seq::<Seq<char>>::empty()
        }) + other_branch_lines(keys.drop_first(), active)
    }
}

/// What each status section renders.
pub open spec fn branch_status_text(r: GitRepository) -> Seq<char> {
    "=== Branches ===\n*"@ + r.branch@ + joined_lines(
        other_branch_lines(r.branches.key_seq(), r.branch@),
    )
}

pub open spec fn staged_status_text(r: GitRepository) -> Seq<char> {
    "=== Staged Files ==="@ + joined_lines(r.staging_area.staged.key_seq())
}

pub open spec fn removal_status_text(r: GitRepository) -> Seq<char> {
    "=== Removed Files ==="@ + joined_lines(r.staging_area.deleted.key_seq())
}

pub open spec fn modified_status_text(r: GitRepository, ws: crate::strmap::PairSeq) -> Seq<char> {
    "=== Modifications Not Staged For Commit ==="@ + joined_lines(
        modified_tracked_lines(ws, r.commit.blobs@, r.staging_area.staged@) + staged_modified_lines(
            ws,
            r.staging_area.staged@,
        ) + staged_deleted_lines(r.staging_area.staged.pair_seq(), crate::strmap::map_of_pairs(ws))
            + missing_tracked_lines(
            r.commit.blobs.pair_seq(),
            crate::strmap::map_of_pairs(ws),
            r.staging_area.deleted@,
        ),
    )
}

pub open spec fn untracked_status_text(r: GitRepository, ws: crate::strmap::PairSeq) -> Seq<char> {
    "=== Untracked Files ==="@ + joined_lines(
        untracked_lines(ws, r.commit.blobs@, r.staging_area.staged@),
    )
}

/// The whole status report: the five sections separated by blank lines.
pub open spec fn status_text(r: GitRepository, ws: crate::strmap::PairSeq) -> Seq<char> {
    branch_status_text(r) + "\n\n"@ + staged_status_text(r) + "\n\n"@ + removal_status_text(r)
        + "\n\n"@ + modified_status_text(r, ws) + "\n\n"@ + untracked_status_text(r, ws)
}

/// The log rendering of a parent chain, newest first.
pub open spec fn log_text(chain: Seq<Commit>) -> Seq<char> {
    if chain.len() == 0 {
        Seq::<char>::empty()
    } else {
        crate::commit::commit_display(chain[0]) + "\n\n"@ + log_tail(chain.drop_first())
    }
}

pub open spec fn log_tail(chain: Seq<Commit>) -> Seq<char>
    decreases chain.len(),
{
    if chain.len() == 0 {
        Seq::<char>::empty()
    } else {
        seq!['\n'] + crate::commit::commit_display(chain[0]) + "\n\n"@ + log_tail(
            chain.drop_first(),
        )
    }
}

/// Appends `joined_lines` of the given lines to `out`.
fn append_lines(out: &mut String, lines: &Vec<String>)
    ensures
        final(out)@ == old(out)@ + joined_lines(lines.deep_view()),
{
    let ghost ls = lines.deep_view();
    let mut i: usize = 0;
    proof {
        assert(ls.skip(0) =~= ls);
    }
    while i < lines.len()
        invariant
            i <= ls.len(),
            ls == lines.deep_view(),
            ls.len() == lines@.len(),
            old(out)@ + joined_lines(ls) == out@ + joined_lines(ls.skip(i as int)),
        decreases ls.len() - i,
    {
        let ghost pre = out@;
        let ghost rem = ls.skip(i as int);
        proof {
            assert(rem.len() > 0);
            assert(rem[0] == ls[i as int]);
            assert(ls[i as int] == lines@[i as int]@);
            assert(rem.drop_first() =~= ls.skip(i as int + 1));
        }
        out.push('\n');
        out.append(lines[i].as_str());
        proof {
            assert(pre + joined_lines(rem) =~= out@ + joined_lines(ls.skip(i as int + 1)));
        }
        i = i + 1;
    }
    proof {
        assert(ls.skip(ls.len() as int) =~= Seq::<Seq<char>>::empty());
        assert(out@ + joined_lines(ls.skip(ls.len() as int)) =~= out@);
    }
}

/// Appends `joined_lines` of a table's keys to `out`.
fn append_key_lines(out: &mut String, m: &StrMap)
    ensures
        final(out)@ == old(out)@ + joined_lines(m.key_seq()),
{
    let ghost ks = m.key_seq();
    let mut i: usize = 0;
    proof {
        assert(ks.skip(0) =~= ks);
    }
    while i < m.len()
        invariant
            i <= ks.len(),
            ks == m.key_seq(),
            ks.len() == m.pair_seq().len(),
            old(out)@ + joined_lines(ks) == out@ + joined_lines(ks.skip(i as int)),
        decreases ks.len() - i,
    {
        let ghost pre = out@;
        let ghost rem = ks.skip(i as int);
        proof {
            assert(rem.len() > 0);
            assert(rem[0] == ks[i as int]);
            assert(rem.drop_first() =~= ks.skip(i as int + 1));
        }
        out.push('\n');
        out.append(m.key_at(i).as_str());
        proof {
            assert(pre + joined_lines(rem) =~= out@ + joined_lines(ks.skip(i as int + 1)));
        }
        i = i + 1;
    }
    proof {
        assert(ks.skip(ks.len() as int) =~= Seq::<Seq<char>>::empty());
        assert(out@ + joined_lines(ks.skip(ks.len() as int)) =~= out@);
    }
}

impl GitRepository {
    /// The working-tree paths that are neither tracked nor staged.
    pub fn untracked_file(file_sha1_map: &StrMap, commit: &StrMap, staged: &StrMap) -> (r: Vec<
        String,
    >)
        requires
            commit.wf(),
            staged.wf(),
        ensures
            r.deep_view() == untracked_lines(file_sha1_map.pair_seq(), commit@, staged@),
    {
        let ghost ws = file_sha1_map.pair_seq();
        let mut out: Vec<String> = Vec::new();
        let mut i: usize = 0;
        proof {
            assert(ws.skip(0) =~= ws);
            assert(out.deep_view() + untracked_lines(ws, commit@, staged@) =~= untracked_lines(
                ws,
                commit@,
                staged@,
            ));
        }
        while i < file_sha1_map.len()
            invariant
                i <= ws.len(),
                ws == file_sha1_map.pair_seq(),
                commit.wf(),
                staged.wf(),
                untracked_lines(ws, commit@, staged@) == out.deep_view() + untracked_lines(
                    ws.skip(i as int),
                    commit@,
                    staged@,
                ),
            decreases ws.len() - i,
        {
            let ghost pre = out.deep_view();
            let ghost rem = ws.skip(i as int);
            proof {
                assert(rem.len() > 0);
                assert(rem[0] == ws[i as int]);
                assert(rem.drop_first() =~= ws.skip(i as int + 1));
            }
            let k = file_sha1_map.key_at(i);
            if !commit.contains_key(k) && !staged.contains_key(k) {
                out.push(k.clone());
                proof {
                    assert(out.deep_view() =~= pre.push(ws[i as int].0));
                }
            }
            proof {
                assert(pre + untracked_lines(rem, commit@, staged@) =~= out.deep_view()
                    + untracked_lines(ws.skip(i as int + 1), commit@, staged@));
            }
            i = i + 1;
        }
        proof {
            assert(ws.skip(ws.len() as int) =~= Seq::<(Seq<char>, Seq<char>)>::empty());
            assert(out.deep_view() + untracked_lines(
                ws.skip(ws.len() as int),
                commit@,
                staged@,
            ) =~= out.deep_view());
        }
        out
    }

    /// Tracked paths whose working copy changed and which are not staged,
    /// each marked `(modified)`.
    pub fn committed_file_modified_not_stage(
        file_sha1_map: &StrMap,
        commit: &StrMap,
        staged: &StrMap,
    ) -> (r: Vec<String>)
        requires
            commit.wf(),
            staged.wf(),
        ensures
            r.deep_view() == modified_tracked_lines(file_sha1_map.pair_seq(), commit@, staged@),
    {
        let ghost ws = file_sha1_map.pair_seq();
        let mut out: Vec<String> = Vec::new();
        let mut i: usize = 0;
        proof {
            assert(ws.skip(0) =~= ws);
            assert(out.deep_view() + modified_tracked_lines(ws, commit@, staged@)
                =~= modified_tracked_lines(ws, commit@, staged@));
        }
        while i < file_sha1_map.len()
            invariant
                i <= ws.len(),
                ws == file_sha1_map.pair_seq(),
                commit.wf(),
                staged.wf(),
                modified_tracked_lines(ws, commit@, staged@) == out.deep_view()
                    + modified_tracked_lines(ws.skip(i as int), commit@, staged@),
            decreases ws.len() - i,
        {
            let ghost pre = out.deep_view();
            let ghost rem = ws.skip(i as int);
            proof {
                assert(rem.len() > 0);
                assert(rem[0] == ws[i as int]);
                assert(rem.drop_first() =~= ws.skip(i as int + 1));
            }
            let k = file_sha1_map.key_at(i);
            let hit = match commit.get(k) {
                Some(v) => !crate::lexord::str_eq(v.as_str(), file_sha1_map.val_at(i).as_str())
                    && !staged.contains_key(k),
                None => false,
            };
            if hit {
                let mut line = k.clone();
                line.append(" (modified)");
                out.push(line);
                proof {
                    assert(out.deep_view() =~= pre.push(ws[i as int].0 + " (modified)"@));
                }
            }
            proof {
                assert(pre + modified_tracked_lines(rem, commit@, staged@) =~= out.deep_view()
                    + modified_tracked_lines(ws.skip(i as int + 1), commit@, staged@));
            }
            i = i + 1;
        }
        proof {
            assert(ws.skip(ws.len() as int) =~= Seq::<(Seq<char>, Seq<char>)>::empty());
            assert(out.deep_view() + modified_tracked_lines(
                ws.skip(ws.len() as int),
                commit@,
                staged@,
            ) =~= out.deep_view());
        }
        out
    }

    /// Paths staged for addition whose working copy no longer matches what
    /// was staged, each marked `(modified)`.
    pub fn staged_for_addition_but_with_different_contents(
        file_sha1_map: &StrMap,
        staged: &StrMap,
    ) -> (r: Vec<String>)
        requires
            staged.wf(),
        ensures
            r.deep_view() == staged_modified_lines(file_sha1_map.pair_seq(), staged@),
    {
        let ghost ws = file_sha1_map.pair_seq();
        let mut out: Vec<String> = Vec::new();
        let mut i: usize = 0;
        proof {
            assert(ws.skip(0) =~= ws);
            assert(out.deep_view() + staged_modified_lines(ws, staged@) =~= staged_modified_lines(
                ws,
                staged@,
            ));
        }
        while i < file_sha1_map.len()
            invariant
                i <= ws.len(),
                ws == file_sha1_map.pair_seq(),
                staged.wf(),
                staged_modified_lines(ws, staged@) == out.deep_view() + staged_modified_lines(
                    ws.skip(i as int),
                    staged@,
                ),
            decreases ws.len() - i,
        {
            let ghost pre = out.deep_view();
            let ghost rem = ws.skip(i as int);
            proof {
                assert(rem.len() > 0);
                assert(rem[0] == ws[i as int]);
                assert(rem.drop_first() =~= ws.skip(i as int + 1));
            }
            let k = file_sha1_map.key_at(i);
            let hit = match staged.get(k) {
                Some(v) => !crate::lexord::str_eq(v.as_str(), file_sha1_map.val_at(i).as_str()),
                None => false,
            };
            if hit {
                let mut line = k.clone();
                line.append(" (modified)");
                out.push(line);
                proof {
                    assert(out.deep_view() =~= pre.push(ws[i as int].0 + " (modified)"@));
                }
            }
            proof {
                assert(pre + staged_modified_lines(rem, staged@) =~= out.deep_view()
                    + staged_modified_lines(ws.skip(i as int + 1), staged@));
            }
            i = i + 1;
        }
        proof {
            assert(ws.skip(ws.len() as int) =~= Seq::<(Seq<char>, Seq<char>)>::empty());
            assert(out.deep_view() + staged_modified_lines(ws.skip(ws.len() as int), staged@)
                =~= out.deep_view());
        }
        out
    }

    /// Paths staged for addition that are gone from the working tree, each
    /// marked `(deleted)`.
    pub fn staged_for_addition_but_deleted(file_sha1_map: &StrMap, staged: &StrMap) -> (r: Vec<
        String,
    >)
        requires
            file_sha1_map.wf(),
        ensures
            r.deep_view() == staged_deleted_lines(staged.pair_seq(), file_sha1_map@),
    {
        let ghost st = staged.pair_seq();
        let mut out: Vec<String> = Vec::new();
        let mut i: usize = 0;
        proof {
            assert(st.skip(0) =~= st);
            assert(out.deep_view() + staged_deleted_lines(st, file_sha1_map@)
                =~= staged_deleted_lines(st, file_sha1_map@));
        }
        while i < staged.len()
            invariant
                i <= st.len(),
                st == staged.pair_seq(),
                file_sha1_map.wf(),
                staged_deleted_lines(st, file_sha1_map@) == out.deep_view() + staged_deleted_lines(
                    st.skip(i as int),
                    file_sha1_map@,
                ),
            decreases st.len() - i,
        {
            let ghost pre = out.deep_view();
            let ghost rem = st.skip(i as int);
            proof {
                assert(rem.len() > 0);
                assert(rem[0] == st[i as int]);
                assert(rem.drop_first() =~= st.skip(i as int + 1));
            }
            let k = staged.key_at(i);
            if !file_sha1_map.contains_key(k) {
                let mut line = k.clone();
                line.append(" (deleted)");
                out.push(line);
                proof {
                    assert(out.deep_view() =~= pre.push(st[i as int].0 + " (deleted)"@));
                }
            }
            proof {
                assert(pre + staged_deleted_lines(rem, file_sha1_map@) =~= out.deep_view()
                    + staged_deleted_lines(st.skip(i as int + 1), file_sha1_map@));
            }
            i = i + 1;
        }
        proof {
            assert(st.skip(st.len() as int) =~= Seq::<(Seq<char>, Seq<char>)>::empty());
            assert(out.deep_view() + staged_deleted_lines(st.skip(st.len() as int), file_sha1_map@)
                =~= out.deep_view());
        }
        out
    }

    /// Tracked paths gone from the working tree and not staged for
    /// removal, each marked `(deleted)`.
    pub fn not_staged_for_removal_but_deleted(
        file_sha1_map: &StrMap,
        commit: &StrMap,
        deleted: &StrMap,
    ) -> (r: Vec<String>)
        requires
            file_sha1_map.wf(),
            deleted.wf(),
        ensures
            r.deep_view() == missing_tracked_lines(commit.pair_seq(), file_sha1_map@, deleted@),
    {
        let ghost sn = commit.pair_seq();
        let mut out: Vec<String> = Vec::new();
        let mut i: usize = 0;
        proof {
            assert(sn.skip(0) =~= sn);
            assert(out.deep_view() + missing_tracked_lines(sn, file_sha1_map@, deleted@)
                =~= missing_tracked_lines(sn, file_sha1_map@, deleted@));
        }
        while i < commit.len()
            invariant
                i <= sn.len(),
                sn == commit.pair_seq(),
                file_sha1_map.wf(),
                deleted.wf(),
                missing_tracked_lines(sn, file_sha1_map@, deleted@) == out.deep_view()
                    + missing_tracked_lines(sn.skip(i as int), file_sha1_map@, deleted@),
            decreases sn.len() - i,
        {
            let ghost pre = out.deep_view();
            let ghost rem = sn.skip(i as int);
            proof {
                assert(rem.len() > 0);
                assert(rem[0] == sn[i as int]);
                assert(rem.drop_first() =~= sn.skip(i as int + 1));
            }
            let k = commit.key_at(i);
            if !file_sha1_map.contains_key(k) && !deleted.contains_key(k) {
                let mut line = k.clone();
                line.append(" (deleted)");
                out.push(line);
                proof {
                    assert(out.deep_view() =~= pre.push(sn[i as int].0 + " (deleted)"@));
                }
            }
            proof {
                assert(pre + missing_tracked_lines(rem, file_sha1_map@, deleted@)
                    =~= out.deep_view() + missing_tracked_lines(
                    sn.skip(i as int + 1),
                    file_sha1_map@,
                    deleted@,
                ));
            }
            i = i + 1;
        }
        proof {
            assert(sn.skip(sn.len() as int) =~= Seq::<(Seq<char>, Seq<char>)>::empty());
            assert(out.deep_view() + missing_tracked_lines(
                sn.skip(sn.len() as int),
                file_sha1_map@,
                deleted@,
            ) =~= out.deep_view());
        }
        out
    }

    /// The section listing what is staged for addition.
    pub fn staged_status(&self) -> (r: Result<String, GitError>)
        ensures
            r is Ok,
            r matches Ok(text) ==> text@ == staged_status_text(*self),
    {
        let mut out = String::from_str("=== Staged Files ===");
        append_key_lines(&mut out, &self.staging_area.staged);
        Ok(out)
    }

    /// The section listing what is staged for removal.
    pub fn removal_status(&self) -> (r: Result<String, GitError>)
        ensures
            r is Ok,
            r matches Ok(text) ==> text@ == removal_status_text(*self),
    {
        let mut out = String::from_str("=== Removed Files ===");
        append_key_lines(&mut out, &self.staging_area.deleted);
        Ok(out)
    }

    /// The section listing branches, the active one first with a star.
    pub fn branch_status(&self) -> (r: Result<String, GitError>)
        ensures
            r is Ok,
            r matches Ok(text) ==> text@ == branch_status_text(*self),
    {
        let ghost ks = self.branches.key_seq();
        let mut out = String::from_str("=== Branches ===\n*");
        out.append(self.branch.as_str());
        let mut i: usize = 0;
        proof {
            assert(ks.skip(0) =~= ks);
            assert(branch_status_text(*self) =~= out@ + joined_lines(
                other_branch_lines(ks.skip(0), self.branch@),
            ));
        }
        while i < self.branches.len()
            invariant
                i <= ks.len(),
                ks == self.branches.key_seq(),
                ks.len() == self.branches.pair_seq().len(),
                branch_status_text(*self) == out@ + joined_lines(
                    other_branch_lines(ks.skip(i as int), self.branch@),
                ),
            decreases ks.len() - i,
        {
            let ghost pre = out@;
            let ghost rem = ks.skip(i as int);
            proof {
                assert(rem.len() > 0);
                assert(rem[0] == ks[i as int]);
                assert(rem.drop_first() =~= ks.skip(i as int + 1));
            }
            let k = self.branches.key_at(i);
            if !crate::lexord::str_eq(k.as_str(), self.branch.as_str()) {
                out.push('\n');
                out.append(k.as_str());
            }
            proof {
                let tl = other_branch_lines(ks.skip(i as int + 1), self.branch@);
                if ks[i as int] != self.branch@ {
                    assert(other_branch_lines(rem, self.branch@) == seq![rem[0]] + tl);
                    assert((seq![rem[0]] + tl).len() > 0);
                    assert((seq![rem[0]] + tl)[0] == rem[0]);
                    assert((seq![rem[0]] + tl).drop_first() =~= tl);
                    assert(joined_lines(seq![rem[0]] + tl) == seq!['\n'] + (seq![rem[0]] + tl)[0]
                        + joined_lines((seq![rem[0]] + tl).drop_first()));
                    assert(pre + (seq!['\n'] + rem[0] + joined_lines(tl)) =~= out@ + joined_lines(
                        tl,
                    ));
                } else {
                    assert(other_branch_lines(rem, self.branch@) =~= tl);
                }
            }
            i = i + 1;
        }
        proof {
            assert(ks.skip(ks.len() as int) =~= Seq::<Seq<char>>::empty());
            assert(out@ + joined_lines(
                other_branch_lines(ks.skip(ks.len() as int), self.branch@),
            ) =~= out@);
        }
        Ok(out)
    }

    /// The section listing every kind of unstaged difference between the
    /// working tree, the staging area and the current commit.
    pub fn modified_not_staged(&self, working: &StrMap) -> (r: Result<String, GitError>)
        requires
            self.wf(),
            working.wf(),
        ensures
            r is Ok,
            r matches Ok(text) ==> text@ == modified_status_text(*self, working.pair_seq()),
    {
        let mut lines = Self::committed_file_modified_not_stage(
            working,
            &self.commit.blobs,
            &self.staging_area.staged,
        );
        let mut more = Self::staged_for_addition_but_with_different_contents(
            working,
            &self.staging_area.staged,
        );
        lines.append(&mut more);
        let mut more2 = Self::staged_for_addition_but_deleted(working, &self.staging_area.staged);
        lines.append(&mut more2);
        let mut more3 = Self::not_staged_for_removal_but_deleted(
            working,
            &self.commit.blobs,
            &self.staging_area.deleted,
        );
        lines.append(&mut more3);
        let ghost ws = working.pair_seq();
        proof {
            assert(lines.deep_view() =~= modified_tracked_lines(
                ws,
                self.commit.blobs@,
                self.staging_area.staged@,
            ) + staged_modified_lines(ws, self.staging_area.staged@) + staged_deleted_lines(
                self.staging_area.staged.pair_seq(),
                working@,
            ) + missing_tracked_lines(
                self.commit.blobs.pair_seq(),
                working@,
                self.staging_area.deleted@,
            ));
        }
        let mut out = String::from_str("=== Modifications Not Staged For Commit ===");
        append_lines(&mut out, &lines);
        Ok(out)
    }

    /// The section listing untracked working-tree paths.
    pub fn untrack_status(&self, working: &StrMap) -> (r: Result<String, GitError>)
        requires
            self.wf(),
            working.wf(),
        ensures
            r is Ok,
            r matches Ok(text) ==> text@ == untracked_status_text(*self, working.pair_seq()),
    {
        let lines = Self::untracked_file(working, &self.commit.blobs, &self.staging_area.staged);
        let mut out = String::from_str("=== Untracked Files ===");
        append_lines(&mut out, &lines);
        Ok(out)
    }

    /// The whole status report over a freshly scanned working tree,
    /// `working` mapping each working path to its content's digest.
    pub fn status(&self, working: &StrMap) -> (r: Result<String, GitError>)
        requires
            self.wf(),
            working.wf(),
        ensures
            r is Ok,
            r matches Ok(text) ==> text@ == status_text(*self, working.pair_seq()),
    {
        let mut out = match self.branch_status() {
            Ok(t) => t,
            Err(e) => {
                return Err(e);
            },
        };
        out.append("\n\n");
        let s1 = match self.staged_status() {
            Ok(t) => t,
            Err(e) => {
                return Err(e);
            },
        };
        out.append(s1.as_str());
        out.append("\n\n");
        let s2 = match self.removal_status() {
            Ok(t) => t,
            Err(e) => {
                return Err(e);
            },
        };
        out.append(s2.as_str());
        out.append("\n\n");
        let s3 = match self.modified_not_staged(working) {
            Ok(t) => t,
            Err(e) => {
                return Err(e);
            },
        };
        out.append(s3.as_str());
        out.append("\n\n");
        let s4 = match self.untrack_status(working) {
            Ok(t) => t,
            Err(e) => {
                return Err(e);
            },
        };
        out.append(s4.as_str());
        proof {
            assert(out@ =~= status_text(*self, working.pair_seq()));
        }
        Ok(out)
    }

    /// The log report over a loaded parent chain, newest commit first.
    pub fn log(&self, chain: &Vec<Commit>) -> (r: Result<String, GitError>)
        ensures
            r is Ok,
            r matches Ok(text) ==> text@ == log_text(chain@),
    {
        let mut out = String::new();
        if chain.len() == 0 {
            proof {
                assert(out@ =~= log_text(chain@));
            }
            return Ok(out);
        }
        let first = chain[0].to_text();
        out.append(first.as_str());
        out.append("\n\n");
        let ghost cs = chain@;
        let mut i: usize = 1;
        proof {
            assert(cs.drop_first() =~= cs.skip(1));
            assert(log_text(cs) =~= out@ + log_tail(cs.skip(1)));
        }
        while i < chain.len()
            invariant
                1 <= i <= cs.len(),
                cs == chain@,
                log_text(cs) == out@ + log_tail(cs.skip(i as int)),
            decreases cs.len() - i,
        {
            let ghost pre = out@;
            let ghost rem = cs.skip(i as int);
            proof {
                assert(rem.len() > 0);
                assert(rem[0] == cs[i as int]);
                assert(rem.drop_first() =~= cs.skip(i as int + 1));
            }
            out.push('\n');
            let t = chain[i].to_text();
            out.append(t.as_str());
            out.append("\n\n");
            proof {
                assert(pre + log_tail(rem) =~= out@ + log_tail(cs.skip(i as int + 1)));
            }
            i = i + 1;
        }
        proof {
            assert(cs.skip(cs.len() as int) =~= Seq::<Commit>::empty());
            assert(out@ + log_tail(cs.skip(cs.len() as int)) =~= out@);
        }
        Ok(out)
    }
}

/// Decides `is_blank` on a string slice.
pub fn is_blank_exec(s: &str) -> (r: bool)
    ensures
        r == is_blank(s@),
{
    let n = s.unicode_len();
    let mut i: usize = 0;
    while i < n
        invariant
            n == s@.len(),
            i <= n,
            forall|j: int|
                0 <= j < i ==> (#[trigger] s@[j] == ' ' || s@[j] == '\t' || s@[j] == '\n' || s@[j]
                    == '\r'),
        decreases n - i,
    {
        let c = s.get_char(i);
        if !(c == ' ' || c == '\t' || c == '\n' || c == '\r') {
            return false;
        }
        i = i + 1;
    }
    true
}

} // verus!
