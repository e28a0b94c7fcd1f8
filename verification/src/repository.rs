//! The repository layout and the decode pipeline of every blob class.
//!
//! All paths sit under a caller-chosen `key`:
//! `key/chunks/<h[0..2]>/<h[2..]>` for chunk blobs,
//! `key/backups/<hash>` for manifests, `key/indexes/chunks` for the chunk
//! index, `key/indexes/backups` for the summaries, and
//! `key/indexes/pending_<hash>` for in-progress journals.
//!
//! Every blob goes through the codec both ways.  An absent or empty index
//! or summaries blob stands for an empty collection, never an error; an
//! absent manifest is an error.

use vstd::prelude::*;
use crate::codec::{
    decode_read_bytes, decompress_bytes, compress_bytes, encode_write_bytes, is_encrypted_spec,
    BlobClass, CodecError, zstd_of, sealed_frame_for,
};
use crate::indexes::ChunkIndexMap;
use crate::metadata::{
    Backup, BackupSummary, PendingBackup, backup_wf, summaries_wf, pending_wf, backup_eq,
    summaries_eq, pending_eq,
};
use crate::records::{encode_summaries, encode_backup, encode_pending, enc_summaries, enc_backup,
    enc_pending, decode_summaries, decode_backup, decode_pending};

verus! {

/// What a write without a password produces for a record serialized as
/// `plain`: the zstd frame of `plain` at some level, which is never empty
/// and never begins with the encryption magic.  The writers below promise
/// exactly this of their output, and the readers invert any blob of this
/// shape.
pub open spec fn stored_plain(blob: Seq<u8>, plain: Seq<u8>, level: int) -> bool {
    &&& blob == zstd_of(plain, level)
    &&& blob.len() >= 4
    &&& !is_encrypted_spec(blob)
}

/// What a write under a password produces for a record serialized as
/// `plain`: an encrypted frame sealing the zstd frame of `plain`.
pub open spec fn stored_sealed(blob: Seq<u8>, password: Seq<u8>, plain: Seq<u8>, level: int) -> bool {
    sealed_frame_for(blob, password, zstd_of(plain, level))
}

/// `key "/chunks/" h[0..2] "/" h[2..]`: where the chunk with hash `h` lives.
pub open spec fn chunk_path_spec(key: Seq<u8>, hash: Seq<u8>) -> Seq<u8> {
    key + seq![0x2fu8, 0x63u8, 0x68u8, 0x75u8, 0x6eu8, 0x6bu8, 0x73u8, 0x2fu8] + hash.take(2)
        + seq![0x2fu8] + hash.skip(2)
}

/// Builds the storage path of the chunk with hash `hash`.
pub fn chunk_path(key: &[u8], hash: &[u8]) -> (out: Vec<u8>)
    requires
        hash@.len() > 2,
    ensures
        out@ == chunk_path_spec(key@, hash@),
{
    let mid: [u8; 8] = [0x2fu8, 0x63u8, 0x68u8, 0x75u8, 0x6eu8, 0x6bu8, 0x73u8, 0x2fu8];
    let mut out = vstd::slice::slice_to_vec(key);
    out.extend_from_slice(mid.as_slice());
    out.extend_from_slice(vstd::slice::slice_subrange(hash, 0, 2));
    out.push(0x2f);
    out.extend_from_slice(vstd::slice::slice_subrange(hash, 2, hash.len()));
    proof {
        assert(out@ =~= chunk_path_spec(key@, hash@));
    }
    out
}

/// `key "/backups/" hash`: where a backup manifest lives.
pub open spec fn backup_path_spec(key: Seq<u8>, hash: Seq<u8>) -> Seq<u8> {
    key + seq![0x2fu8, 0x62u8, 0x61u8, 0x63u8, 0x6bu8, 0x75u8, 0x70u8, 0x73u8, 0x2fu8] + hash
}

/// Builds the storage path of a backup manifest.
pub fn backup_path(key: &[u8], hash: &[u8]) -> (out: Vec<u8>)
    ensures
        out@ == backup_path_spec(key@, hash@),
{
    let mid: [u8; 9] = [0x2fu8, 0x62u8, 0x61u8, 0x63u8, 0x6bu8, 0x75u8, 0x70u8, 0x73u8, 0x2fu8];
    let mut out = vstd::slice::slice_to_vec(key);
    out.extend_from_slice(mid.as_slice());
    out.extend_from_slice(hash);
    proof {
        assert(out@ =~= backup_path_spec(key@, hash@));
    }
    out
}

/// `key "/indexes/chunks"`: where the chunk index lives.
pub open spec fn chunk_index_path_spec(key: Seq<u8>) -> Seq<u8> {
    key + seq![
        0x2fu8, 0x69u8, 0x6eu8, 0x64u8, 0x65u8, 0x78u8, 0x65u8, 0x73u8, 0x2fu8, 0x63u8, 0x68u8,
        0x75u8, 0x6eu8, 0x6bu8, 0x73u8,
    ]
}

/// Builds the storage path of the chunk index.
pub fn chunk_index_path(key: &[u8]) -> (out: Vec<u8>)
    ensures
        out@ == chunk_index_path_spec(key@),
{
    let mid: [u8; 15] = [
        0x2fu8, 0x69u8, 0x6eu8, 0x64u8, 0x65u8, 0x78u8, 0x65u8, 0x73u8, 0x2fu8, 0x63u8, 0x68u8,
        0x75u8, 0x6eu8, 0x6bu8, 0x73u8,
    ];
    let mut out = vstd::slice::slice_to_vec(key);
    out.extend_from_slice(mid.as_slice());
    proof {
        assert(out@ =~= chunk_index_path_spec(key@));
    }
    out
}

/// `key "/indexes/backups"`: where the summaries list lives.
pub open spec fn summaries_path_spec(key: Seq<u8>) -> Seq<u8> {
    key + seq![
        0x2fu8, 0x69u8, 0x6eu8, 0x64u8, 0x65u8, 0x78u8, 0x65u8, 0x73u8, 0x2fu8, 0x62u8, 0x61u8,
        0x63u8, 0x6bu8, 0x75u8, 0x70u8, 0x73u8,
    ]
}

/// Builds the storage path of the summaries list.
pub fn summaries_path(key: &[u8]) -> (out: Vec<u8>)
    ensures
        out@ == summaries_path_spec(key@),
{
    let mid: [u8; 16] = [
        0x2fu8, 0x69u8, 0x6eu8, 0x64u8, 0x65u8, 0x78u8, 0x65u8, 0x73u8, 0x2fu8, 0x62u8, 0x61u8,
        0x63u8, 0x6bu8, 0x75u8, 0x70u8, 0x73u8,
    ];
    let mut out = vstd::slice::slice_to_vec(key);
    out.extend_from_slice(mid.as_slice());
    proof {
        assert(out@ =~= summaries_path_spec(key@));
    }
    out
}

/// `key "/indexes/pending_" hash`: where an in-progress journal lives.
pub open spec fn pending_path_spec(key: Seq<u8>, hash: Seq<u8>) -> Seq<u8> {
    key + seq![
        0x2fu8, 0x69u8, 0x6eu8, 0x64u8, 0x65u8, 0x78u8, 0x65u8, 0x73u8, 0x2fu8, 0x70u8, 0x65u8,
        0x6eu8, 0x64u8, 0x69u8, 0x6eu8, 0x67u8, 0x5fu8,
    ] + hash
}

/// Builds the storage path of an in-progress journal.
pub fn pending_path(key: &[u8], hash: &[u8]) -> (out: Vec<u8>)
    ensures
        out@ == pending_path_spec(key@, hash@),
{
    let mid: [u8; 17] = [
        0x2fu8, 0x69u8, 0x6eu8, 0x64u8, 0x65u8, 0x78u8, 0x65u8, 0x73u8, 0x2fu8, 0x70u8, 0x65u8,
        0x6eu8, 0x64u8, 0x69u8, 0x6eu8, 0x67u8, 0x5fu8,
    ];
    let mut out = vstd::slice::slice_to_vec(key);
    out.extend_from_slice(mid.as_slice());
    out.extend_from_slice(hash);
    proof {
        assert(out@ =~= pending_path_spec(key@, hash@));
    }
    out
}

/// `key "/chunks"`: the listing prefix of all chunk blobs.
pub open spec fn chunks_prefix_spec(key: Seq<u8>) -> Seq<u8> {
    key + seq![0x2fu8, 0x63u8, 0x68u8, 0x75u8, 0x6eu8, 0x6bu8, 0x73u8]
}

/// Builds the listing prefix of all chunk blobs.
pub fn chunks_prefix(key: &[u8]) -> (out: Vec<u8>)
    ensures
        out@ == chunks_prefix_spec(key@),
{
    let mid: [u8; 7] = [0x2fu8, 0x63u8, 0x68u8, 0x75u8, 0x6eu8, 0x6bu8, 0x73u8];
    let mut out = vstd::slice::slice_to_vec(key);
    out.extend_from_slice(mid.as_slice());
    proof {
        assert(out@ =~= chunks_prefix_spec(key@));
    }
    out
}

/// `key "/indexes"`: the listing prefix of the index blobs and journals.
pub open spec fn indexes_prefix_spec(key: Seq<u8>) -> Seq<u8> {
    key + seq![0x2fu8, 0x69u8, 0x6eu8, 0x64u8, 0x65u8, 0x78u8, 0x65u8, 0x73u8]
}

/// Builds the listing prefix of the index blobs and journals.
pub fn indexes_prefix(key: &[u8]) -> (out: Vec<u8>)
    ensures
        out@ == indexes_prefix_spec(key@),
{
    let mid: [u8; 8] = [0x2fu8, 0x69u8, 0x6eu8, 0x64u8, 0x65u8, 0x78u8, 0x65u8, 0x73u8];
    let mut out = vstd::slice::slice_to_vec(key);
    out.extend_from_slice(mid.as_slice());
    proof {
        assert(out@ =~= indexes_prefix_spec(key@));
    }
    out
}

/// Interprets the chunk-index blob as read from the store: an absent or
/// empty blob is an empty index, never an error.  The flag reports a
/// plaintext blob read while a password was set, so the caller can warn.
pub fn load_chunk_index(file_bytes: &[u8], password: Option<&[u8]>) -> (out: Result<
    (ChunkIndexMap, bool),
    CodecError,
>)
    ensures
        file_bytes@.len() == 0 ==> (out matches Ok(r) && r.0@ == Map::<Seq<u8>, u32>::empty()
            && r.1 == false),
        out matches Ok(r) ==> r.0.wf(),
        out matches Ok(r) ==> r.1 == (password is Some && file_bytes@.len() > 0
            && !is_encrypted_spec(file_bytes@)),
        is_encrypted_spec(file_bytes@) && password is None ==> out == Err::<
            (ChunkIndexMap, bool),
            CodecError,
        >(CodecError::EncryptedButNoPassword(BlobClass::ChunkIndex)),
        forall|m: ChunkIndexMap, lev: int|
            m.wf() && m.encodable() && #[trigger] stored_plain(file_bytes@, m.enc(), lev) ==> (out
                matches Ok(r) && r.0@ == m@ && r.1 == (password is Some)),
        forall|m: ChunkIndexMap, lev: int|
            (password is Some && m.wf() && m.encodable() && #[trigger] stored_sealed(
                file_bytes@,
                (password->0)@,
                m.enc(),
                lev,
            )) ==> ((out matches Ok(r) && r.0@ == m@ && r.1 == false) || out == Err::<
                (ChunkIndexMap, bool),
                CodecError,
            >(CodecError::KeyDerivation)),
{
    if file_bytes.len() == 0 {
        return Ok((ChunkIndexMap::new(), false));
    }
    let read = match decode_read_bytes(file_bytes, password, BlobClass::ChunkIndex) {
        Ok(r) => r,
        Err(e) => {
            return Err(e);
        },
    };
    let upgraded = password.is_some() && !read.was_encrypted;
    let plain = match decompress_bytes(read.bytes.as_slice()) {
        Ok(p) => p,
        Err(e) => {
            return Err(e);
        },
    };
    match ChunkIndexMap::decode(plain.as_slice()) {
        Some(index) => Ok((index, upgraded)),
        None => Err(CodecError::Serialization),
    }
}

/// Interprets the summaries blob as read from the store: an absent or empty
/// blob is an empty list, never an error.
pub fn list_backup_summaries(file_bytes: &[u8], password: Option<&[u8]>) -> (out: Result<
    Vec<BackupSummary>,
    CodecError,
>)
    ensures
        file_bytes@.len() == 0 ==> (out matches Ok(list) && list@ == Seq::<BackupSummary>::empty()),
        out matches Ok(list) ==> summaries_wf(list@),
        is_encrypted_spec(file_bytes@) && password is None ==> out == Err::<
            Vec<BackupSummary>,
            CodecError,
        >(CodecError::EncryptedButNoPassword(BlobClass::Summaries)),
        forall|l: Seq<BackupSummary>, lev: int|
            summaries_wf(l) && #[trigger] stored_plain(file_bytes@, enc_summaries(l), lev) ==> (out
                matches Ok(r) && summaries_eq(r@, l)),
        forall|l: Seq<BackupSummary>, lev: int|
            (password is Some && summaries_wf(l) && #[trigger] stored_sealed(
                file_bytes@,
                (password->0)@,
                enc_summaries(l),
                lev,
            )) ==> ((out matches Ok(r) && summaries_eq(r@, l)) || out == Err::<
                Vec<BackupSummary>,
                CodecError,
            >(CodecError::KeyDerivation)),
{
    if file_bytes.len() == 0 {
        return Ok(Vec::new());
    }
    let read = match decode_read_bytes(file_bytes, password, BlobClass::Summaries) {
        Ok(r) => r,
        Err(e) => {
            return Err(e);
        },
    };
    let plain = match decompress_bytes(read.bytes.as_slice()) {
        Ok(p) => p,
        Err(e) => {
            return Err(e);
        },
    };
    match decode_summaries(plain.as_slice()) {
        Some(list) => Ok(list),
        None => Err(CodecError::Serialization),
    }
}

/// Interprets a backup-manifest blob as read from the store.  An absent or
/// empty blob is an error: the named backup does not exist.
pub fn load_backup(file_bytes: &[u8], password: Option<&[u8]>) -> (out: Result<Backup, CodecError>)
    ensures
        file_bytes@.len() == 0 ==> out == Err::<Backup, CodecError>(CodecError::NotFound),
        out matches Ok(b) ==> backup_wf(b),
        is_encrypted_spec(file_bytes@) && password is None ==> out == Err::<Backup, CodecError>(
            CodecError::EncryptedButNoPassword(BlobClass::Backup),
        ),
        forall|b: Backup, lev: int|
            backup_wf(b) && #[trigger] stored_plain(file_bytes@, enc_backup(b), lev) ==> (out
                matches Ok(r) && backup_eq(r, b)),
        forall|b: Backup, lev: int|
            (password is Some && backup_wf(b) && #[trigger] stored_sealed(
                file_bytes@,
                (password->0)@,
                enc_backup(b),
                lev,
            )) ==> ((out matches Ok(r) && backup_eq(r, b)) || out == Err::<Backup, CodecError>(
                CodecError::KeyDerivation,
            )),
{
    if file_bytes.len() == 0 {
        return Err(CodecError::NotFound);
    }
    let read = match decode_read_bytes(file_bytes, password, BlobClass::Backup) {
        Ok(r) => r,
        Err(e) => {
            return Err(e);
        },
    };
    let plain = match decompress_bytes(read.bytes.as_slice()) {
        Ok(p) => p,
        Err(e) => {
            return Err(e);
        },
    };
    match decode_backup(plain.as_slice()) {
        Some(b) => Ok(b),
        None => Err(CodecError::Serialization),
    }
}

/// Interprets a pending-journal blob as read from the store.  An absent or
/// empty blob is an error: the journal does not exist.
pub fn load_pending(file_bytes: &[u8], password: Option<&[u8]>) -> (out: Result<
    PendingBackup,
    CodecError,
>)
    ensures
        file_bytes@.len() == 0 ==> out == Err::<PendingBackup, CodecError>(CodecError::NotFound),
        out matches Ok(p) ==> pending_wf(p),
        is_encrypted_spec(file_bytes@) && password is None ==> out == Err::<
            PendingBackup,
            CodecError,
        >(CodecError::EncryptedButNoPassword(BlobClass::Pending)),
        forall|j: PendingBackup, lev: int|
            pending_wf(j) && #[trigger] stored_plain(file_bytes@, enc_pending(j), lev) ==> (out
                matches Ok(r) && pending_eq(r, j)),
        forall|j: PendingBackup, lev: int|
            (password is Some && pending_wf(j) && #[trigger] stored_sealed(
                file_bytes@,
                (password->0)@,
                enc_pending(j),
                lev,
            )) ==> ((out matches Ok(r) && pending_eq(r, j)) || out == Err::<
                PendingBackup,
                CodecError,
            >(CodecError::KeyDerivation)),
{
    if file_bytes.len() == 0 {
        return Err(CodecError::NotFound);
    }
    let read = match decode_read_bytes(file_bytes, password, BlobClass::Pending) {
        Ok(r) => r,
        Err(e) => {
            return Err(e);
        },
    };
    let plain = match decompress_bytes(read.bytes.as_slice()) {
        Ok(p) => p,
        Err(e) => {
            return Err(e);
        },
    };
    match decode_pending(plain.as_slice()) {
        Some(p) => Ok(p),
        None => Err(CodecError::Serialization),
    }
}

/// Records a fresh backup at the front of the summaries list: the list is
/// chronological, newest first.
pub fn prepend_summary(summaries: &mut Vec<BackupSummary>, summary: BackupSummary)
    ensures
        final(summaries)@ == old(summaries)@.insert(0, summary),
{
    summaries.insert(0, summary);
}

/// Serializes, compresses and (with a password) encrypts the chunk index,
/// ready to be written whole.
pub fn persist_chunk_index(index: &ChunkIndexMap, level: i32, password: Option<&[u8]>) -> (out:
    Result<Vec<u8>, CodecError>)
    requires
        index.wf(),
        index.encodable(),
    ensures
        password is None ==> (out matches Ok(v) && stored_plain(v@, index.enc(), level as int)),
        password matches Some(p) ==> (out matches Ok(v) ==> stored_sealed(
            v@,
            p@,
            index.enc(),
            level as int,
        )),
{
    let plain = index.encode();
    let packed = match compress_bytes(plain.as_slice(), level) {
        Ok(v) => v,
        Err(e) => {
            return Err(e);
        },
    };
    encode_write_bytes(packed.as_slice(), password)
}

/// Serializes, compresses and (with a password) encrypts the summaries list.
pub fn persist_summaries(list: &Vec<BackupSummary>, level: i32, password: Option<&[u8]>) -> (out:
    Result<Vec<u8>, CodecError>)
    requires
        summaries_wf(list@),
    ensures
        password is None ==> (out matches Ok(v) && stored_plain(
            v@,
            enc_summaries(list@),
            level as int,
        )),
        password matches Some(p) ==> (out matches Ok(v) ==> stored_sealed(
            v@,
            p@,
            enc_summaries(list@),
            level as int,
        )),
{
    let plain = encode_summaries(list);
    let packed = match compress_bytes(plain.as_slice(), level) {
        Ok(v) => v,
        Err(e) => {
            return Err(e);
        },
    };
    encode_write_bytes(packed.as_slice(), password)
}

/// Serializes, compresses and (with a password) encrypts a backup manifest.
pub fn persist_backup(b: &Backup, level: i32, password: Option<&[u8]>) -> (out: Result<
    Vec<u8>,
    CodecError,
>)
    requires
        backup_wf(*b),
    ensures
        password is None ==> (out matches Ok(v) && stored_plain(v@, enc_backup(*b), level as int)),
        password matches Some(p) ==> (out matches Ok(v) ==> stored_sealed(
            v@,
            p@,
            enc_backup(*b),
            level as int,
        )),
{
    let plain = encode_backup(b);
    let packed = match compress_bytes(plain.as_slice(), level) {
        Ok(v) => v,
        Err(e) => {
            return Err(e);
        },
    };
    encode_write_bytes(packed.as_slice(), password)
}

/// Serializes, compresses and (with a password) encrypts a pending journal.
pub fn persist_pending(p: &PendingBackup, level: i32, password: Option<&[u8]>) -> (out: Result<
    Vec<u8>,
    CodecError,
>)
    requires
        pending_wf(*p),
    ensures
        password is None ==> (out matches Ok(v) && stored_plain(v@, enc_pending(*p), level as int)),
        password matches Some(pw) ==> (out matches Ok(v) ==> stored_sealed(
            v@,
            pw@,
            enc_pending(*p),
            level as int,
        )),
{
    let plain = encode_pending(p);
    let packed = match compress_bytes(plain.as_slice(), level) {
        Ok(v) => v,
        Err(e) => {
            return Err(e);
        },
    };
    encode_write_bytes(packed.as_slice(), password)
}

} // verus!
