//! Immutable commit records and their content identifiers.
use vstd::prelude::*;
use vstd::string::StringExecFns;
use crate::strmap::StrMap;
use crate::codec::{enc_commit, sp_commit, encode_commit_parts, decode_commit_text, valid_pairs,
    valid_chars, lemma_commit_rt};
use crate::digest::{sha1_hex_of, crypto_string};
use crate::clock::{current_timestamp, timestamp_text, format_timestamp};
use crate::error::GitError;

verus! {

/// A commit's message and creation time.
#[derive(Debug, PartialEq, Eq)]
pub struct CommitMeta {
    pub message: String,
    pub date_time: i64,
}

/// One snapshot of the tree: a complete `path -> blob identifier` mapping,
/// a message, a timestamp, and the identifier of the parent commit (empty
/// for the root).
#[derive(Debug, PartialEq, Eq)]
pub struct Commit {
    pub meta: CommitMeta,
    pub blobs: StrMap,
    pub parent: String,
}

/// What a commit's canonical text is, over its parts.
pub open spec fn commit_encoding(c: Commit) -> Seq<char> {
    enc_commit(c.meta.message@, c.meta.date_time as int, c.blobs.pair_seq(), c.parent@)
}

/// A commit's identifier: the digest of its canonical text.
pub open spec fn commit_id(c: Commit) -> Seq<char> {
    sha1_hex_of(commit_encoding(c))
}

impl Commit {
    /// The snapshot table is sorted.
    pub open spec fn wf(self) -> bool {
        self.blobs.wf()
    }

    /// The empty commit: blank message, epoch timestamp, nothing tracked,
    /// no parent. Stands for "no commit yet".
    pub fn new() -> (r: Self)
        ensures
            r.wf(),
            r.meta.message@ == Seq::<char>::empty(),
            r.meta.date_time == 0,
            r.blobs@ == Map::<Seq<char>, Seq<char>>::empty(),
            r.blobs.pair_seq().len() == 0,
            r.parent@ == Seq::<char>::empty(),
    {
        Commit {
            meta: CommitMeta { message: String::new(), date_time: 0i64 },
            blobs: StrMap::new(),
            parent: String::new(),
        }
    }

    /// The root commit a fresh repository starts from, stamped with the
    /// current time.
    pub fn init_commit() -> (r: Self)
        ensures
            r.wf(),
            r.meta.message@ == "initial commit"@,
            r.blobs@ == Map::<Seq<char>, Seq<char>>::empty(),
            r.blobs.pair_seq().len() == 0,
            r.parent@ == Seq::<char>::empty(),
    {
        Commit {
            meta: CommitMeta {
                message: String::from_str("initial commit"),
                date_time: current_timestamp(),
            },
            blobs: StrMap::new(),
            parent: String::new(),
        }
    }

    /// The canonical persisted text of this commit.
    pub fn encode(&self) -> (r: String)
        ensures
            r@ == commit_encoding(*self),
    {
        encode_commit_parts(
            self.meta.message.as_str(),
            self.meta.date_time,
            &self.blobs,
            self.parent.as_str(),
        )
    }

    /// Reads a commit back from its persisted text, which must be a
    /// canonical record.
    pub fn decode(text: &str) -> (r: Result<Commit, GitError>)
        ensures
            match r {
                Ok(c) => c.wf() && sp_commit(text@) == Some(
                    (c.meta.message@, c.meta.date_time as int, c.blobs.pair_seq(), c.parent@),
                ),
                Err(e) => sp_commit(text@) is None && e is SerdeOpError,
            },
    {
        match decode_commit_text(text) {
            None => Err(
                GitError::SerdeOpError(String::from_str("the commit record cannot be read")),
            ),
            Some(parts) => Ok(
                Commit {
                    meta: CommitMeta { message: parts.0, date_time: parts.1 },
                    blobs: parts.2,
                    parent: parts.3,
                },
            ),
        }
    }

    /// The log rendering of this commit: a separator, its identifier, its
    /// date, and its message.
    pub fn to_text(&self) -> (r: String)
        ensures
            r@ == commit_display(*self),
    {
        let mut out = String::from_str("===\ncommit ");
        let id = sha1(self);
        match id {
            Ok(h) => out.append(h.as_str()),
            Err(_) => (),
        }
        out.append("\nDate: ");
        let date = format_timestamp(self.meta.date_time);
        out.append(date.as_str());
        out.push('\n');
        out.append(self.meta.message.as_str());
        out.push('\n');
        proof {
            assert(out@ =~= commit_display(*self));
        }
        out
    }

    /// Round trip: the canonical text of a commit decodes back to exactly
    /// its parts.
    pub proof fn lemma_round_trip(self)
        requires
            self.wf(),
            valid_chars(self.meta.message@),
            valid_chars(self.parent@),
            valid_pairs(self.blobs.pair_seq()),
        ensures
            sp_commit(commit_encoding(self)) == Some(
                (self.meta.message@, self.meta.date_time as int, self.blobs.pair_seq(),
                self.parent@),
            ),
    {
        lemma_commit_rt(
            self.meta.message@,
            self.meta.date_time as int,
            self.blobs.pair_seq(),
            self.parent@,
        );
    }
}

/// What `to_text` renders, over the commit's parts.
pub open spec fn commit_display(c: Commit) -> Seq<char> {
    "===\ncommit "@ + commit_id(c) + "\nDate: "@ + timestamp_text(c.meta.date_time) + seq!['\n']
        + c.meta.message@ + seq!['\n']
}

/// The identifier of a commit: the digest of its canonical serialization.
pub fn sha1(value: &Commit) -> (r: Result<String, GitError>)
    ensures
        r is Ok,
        r matches Ok(h) ==> h@ == commit_id(*value),
{
    let text = value.encode();
    Ok(crypto_string(text.as_str()))
}

} // verus!
