//! Content identifiers.
//!
//! Every stored object is addressed by the SHA-1 digest of its content,
//! written as forty lower-case hexadecimal digits.
use vstd::prelude::*;
use crypto::digest::Digest;

verus! {

/// The SHA-1 digest of a character sequence in lower-case hexadecimal.
/// Named only: the digest is a function of the content alone, computed by
/// an outside library, and far too long to state here.
pub uninterp spec fn sha1_hex_of(s: Seq<char>) -> Seq<char>;

/// Relies on `crypto::sha1::Sha1` (package rust-crypto): `input_str` feeds
/// the whole string and `result_str` returns the digest in lower-case
/// hexadecimal. The result depends on the input characters alone.
#[verifier::external_body]
pub fn crypto_string(content: &str) -> (r: String)
    ensures
        r@ == sha1_hex_of(content@),
{
    let mut hasher = crypto::sha1::Sha1::new();
    hasher.input_str(content);
    hasher.result_str()
}

/// The identifier under which content is stored: its digest.
pub fn put_blob_id(content: &str) -> (r: String)
    ensures
        r@ == sha1_hex_of(content@),
{
    crypto_string(content)
}

/// Content addressing is deterministic: one content, one identifier, and
/// storing the same content twice leaves a store holding a single copy.
pub proof fn lemma_content_addressing_deterministic(
    store: Map<Seq<char>, Seq<char>>,
    content: Seq<char>,
)
    ensures
        store.insert(sha1_hex_of(content), content).insert(sha1_hex_of(content), content)
            == store.insert(sha1_hex_of(content), content),
{
    assert(store.insert(sha1_hex_of(content), content).insert(sha1_hex_of(content), content)
        =~= store.insert(sha1_hex_of(content), content));
}

} // verus!
