//! SHA-256 identities for chunks and files.
//!
//! A chunk or file identity is the lowercase hex form of the SHA-256 digest
//! of its raw bytes.  The digest itself comes from the `sha2` crate; its
//! value is only named here, never restated.

use vstd::prelude::*;
use crate::hexenc::{hex_of, to_hex};
use sha2::Digest;

verus! {

/// The SHA-256 digest of a byte string.  The digest depends on the bytes
/// alone; its value is not restated here.
pub uninterp spec fn sha256_of(data: Seq<u8>) -> Seq<u8>;

/// The lowercase hex form of the SHA-256 digest: the identity under which
/// a chunk or file is recorded.
pub open spec fn sha256_hex_of(data: Seq<u8>) -> Seq<u8> {
    hex_of(sha256_of(data))
}

/// Relies on sha2::Sha256::digest: the one-shot SHA-256 digest of `data`,
/// 32 bytes long.
#[verifier::external_body]
fn sha256_digest(data: &[u8]) -> (out: Vec<u8>)
    ensures
        out@ == sha256_of(data@),
        out@.len() == 32,
{
    sha2::Sha256::digest(data).to_vec()
}

/// An incrementally fed SHA-256 hasher.
#[verifier::external_type_specification]
#[verifier::external_body]
pub struct ExSha256(sha2::Sha256);

/// The bytes a hasher has absorbed so far, oldest first.
pub uninterp spec fn absorbed(hasher: sha2::Sha256) -> Seq<u8>;

/// Relies on sha2::Sha256::new: a fresh hasher has absorbed nothing.
#[verifier::external_body]
fn sha256_new() -> (out: sha2::Sha256)
    ensures
        absorbed(out) == Seq::<u8>::empty(),
{
    sha2::Sha256::new()
}

/// Relies on sha2::Sha256::update: feeding bytes appends them to what the
/// hasher has absorbed.
#[verifier::external_body]
fn sha256_update(hasher: &mut sha2::Sha256, data: &[u8])
    ensures
        absorbed(*final(hasher)) == absorbed(*old(hasher)) + data@,
{
    hasher.update(data);
}

/// Relies on sha2::Sha256::finalize: the digest of everything the hasher
/// absorbed, equal to the one-shot digest of the same bytes.
#[verifier::external_body]
fn sha256_finalize(hasher: sha2::Sha256) -> (out: Vec<u8>)
    ensures
        out@ == sha256_of(absorbed(hasher)),
        out@.len() == 32,
{
    hasher.finalize().to_vec()
}

/// The SHA-256 identity of `data` in lowercase hex: 64 ASCII digits.
pub fn hash_hex(data: &[u8]) -> (out: Vec<u8>)
    ensures
        out@ == sha256_hex_of(data@),
        out@.len() == 64,
{
    let digest = sha256_digest(data);
    to_hex(digest.as_slice())
}

/// A running SHA-256 over a byte stream fed piece by piece, tracking the
/// stream it has seen.
pub struct StreamHasher {
    inner: sha2::Sha256,
    seen: Ghost<Seq<u8>>,
}

impl StreamHasher {
    /// Everything fed to the hasher so far.
    pub closed spec fn stream(&self) -> Seq<u8> {
        self.seen@
    }

    pub closed spec fn wf(&self) -> bool {
        absorbed(self.inner) == self.seen@
    }

    pub fn new() -> (out: StreamHasher)
        ensures
            out.wf(),
            out.stream() == Seq::<u8>::empty(),
    {
        StreamHasher { inner: sha256_new(), seen: Ghost(Seq::empty()) }
    }

    pub fn update(&mut self, data: &[u8])
        requires
            old(self).wf(),
        ensures
            final(self).wf(),
            final(self).stream() == old(self).stream() + data@,
    {
        sha256_update(&mut self.inner, data);
        self.seen = Ghost(self.seen@ + data@);
    }

    /// The hex SHA-256 identity of the whole stream fed so far.
    pub fn finish(self) -> (out: Vec<u8>)
        requires
            self.wf(),
        ensures
            out@ == sha256_hex_of(self.stream()),
            out@.len() == 64,
    {
        let digest = sha256_finalize(self.inner);
        to_hex(digest.as_slice())
    }
}

} // verus!
