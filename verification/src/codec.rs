//! The object codec: zstd compression, optional authenticated encryption,
//! and the magic-tag framing of every stored blob.
//!
//! A blob written with a password has the shape
//! `MAGIC(4) || SALT(16) || NONCE(12) || CIPHERTEXT_AND_TAG`, where the magic
//! is the ASCII bytes `GIB1`, the key is derived by Argon2 from the password
//! and the salt, and the cipher is ChaCha20-Poly1305 with empty associated
//! data.  A blob written without a password is stored as compressed bytes
//! alone; zstd frames never begin with `GIB1`, so the tag decides.

use vstd::prelude::*;

verus! {

/// How a stored blob failed to decode, or an encode step failed.
#[derive(Clone, Copy, Debug, PartialEq, Eq, Structural)]
pub enum CodecError {
    /// Framing impossible, decompression failed, or the authentication tag
    /// did not verify ("invalid password or corrupted data").
    Corrupt,
    /// A decrypt was asked of a blob that carries no magic tag.
    NotEncrypted,
    /// A magic-tagged blob was read while no password was supplied.
    EncryptedButNoPassword(BlobClass),
    /// Argon2 could not derive a key (resource exhaustion or oversized input).
    KeyDerivation,
    /// The AEAD or the random source failed.
    Encryption,
    /// zstd could not compress.
    Compression,
    /// A record's serialized form could not be read or written.
    Serialization,
    /// The blob is absent where one was required.
    NotFound,
}

/// The class of blob being read, named in errors so the caller can say
/// which kind of object was unreadable.
#[derive(Clone, Copy, Debug, PartialEq, Eq, Structural)]
pub enum BlobClass {
    ChunkIndex,
    Summaries,
    Backup,
    Chunk,
    Pending,
}

/// What a read of a stored blob yields: the plain (still compressed) bytes,
/// and whether the blob carried the encryption framing.
pub struct ReadDecryption {
    pub bytes: Vec<u8>,
    pub was_encrypted: bool,
}

/// The zstd compression of a byte string at a given level.  The result
/// depends on the bytes and the level alone; it is named, not restated.
pub uninterp spec fn zstd_of(data: Seq<u8>, level: int) -> Seq<u8>;

/// The Argon2 key derived from a password and a salt, 32 bytes.  The result
/// depends on the inputs alone; it is named, not restated.
pub uninterp spec fn argon2_of(password: Seq<u8>, salt: Seq<u8>) -> Seq<u8>;

/// The ChaCha20-Poly1305 sealing (ciphertext plus tag) of a plaintext under
/// a 32-byte key and a 12-byte nonce, with empty associated data.  The
/// result depends on the inputs alone; it is named, not restated.
pub uninterp spec fn chacha_seal(key: Seq<u8>, nonce: Seq<u8>, plain: Seq<u8>) -> Seq<u8>;

/// Whether a blob begins with the encryption magic tag `GIB1`.
pub open spec fn is_encrypted_spec(data: Seq<u8>) -> bool {
    &&& data.len() >= 4
    &&& data[0] == 0x47
    &&& data[1] == 0x49
    &&& data[2] == 0x42
    &&& data[3] == 0x31
}

/// Whether `blob` is a well-formed encrypted frame whose ciphertext seals
/// `plain` under `key` and the nonce the frame itself carries.
pub open spec fn sealed_frame_with_key(blob: Seq<u8>, key: Seq<u8>, plain: Seq<u8>) -> bool {
    &&& blob.len() >= 32
    &&& is_encrypted_spec(blob)
    &&& blob.skip(32) == chacha_seal(key, blob.subrange(20, 32), plain)
}

/// Whether `blob` is a well-formed encrypted frame for `plain` under the key
/// that `password` and the frame's own salt derive.
pub open spec fn sealed_frame_for(blob: Seq<u8>, password: Seq<u8>, plain: Seq<u8>) -> bool {
    sealed_frame_with_key(blob, argon2_of(password, blob.subrange(4, 20)), plain)
}

/// Relies on zstd::encode_all: the compressed form of `data` at `level`,
/// a zstd frame, which begins with the zstd frame magic 28 B5 2F FD.
/// Compressing a byte slice into a vector cannot fail: the reader and the
/// writer are infallible, and zstd clamps out-of-range levels.
#[verifier::external_body]
fn zstd_encode(data: &[u8], level: i32) -> (out: Result<Vec<u8>, CodecError>)
    ensures
        out is Ok,
        out matches Ok(v) ==> {
            &&& v@ == zstd_of(data@, level as int)
            &&& v@.len() >= 4
            &&& v@[0] == 0x28
            &&& v@[1] == 0xb5
            &&& v@[2] == 0x2f
            &&& v@[3] == 0xfd
        },
{
    zstd::encode_all(data, level).map_err(|_| CodecError::Compression)
}

/// Relies on zstd::decode_all: decompression inverts compression, so a blob
/// that is the compressed form of some bytes decodes to exactly those bytes.
#[verifier::external_body]
fn zstd_decode(data: &[u8]) -> (out: Result<Vec<u8>, CodecError>)
    ensures
        forall|b: Seq<u8>, l: int| data@ == #[trigger] zstd_of(b, l) ==> out is Ok
            && out->Ok_0@ == b,
{
    zstd::decode_all(data).map_err(|_| CodecError::Corrupt)
}

/// Relies on argon2::Argon2::hash_password_into with default parameters:
/// a 32-byte key derived from the password and the salt alone.
#[verifier::external_body]
fn argon2_derive(password: &[u8], salt: &[u8]) -> (out: Result<Vec<u8>, CodecError>)
    requires
        salt@.len() == 16,
    ensures
        out matches Ok(v) ==> v@ == argon2_of(password@, salt@) && v@.len() == 32,
        out matches Err(e) ==> e == CodecError::KeyDerivation,
{
    let mut key = [0u8; 32];
    match argon2::Argon2::default().hash_password_into(password, salt, &mut key) {
        Ok(()) => Ok(key.to_vec()),
        Err(_) => Err(CodecError::KeyDerivation),
    }
}

/// Relies on rand_core::OsRng::try_fill_bytes: `n` bytes from the operating
/// system's random source.  Nothing is promised of the values.
#[verifier::external_body]
fn random_bytes(n: usize) -> (out: Result<Vec<u8>, CodecError>)
    ensures
        out matches Ok(v) ==> v@.len() == n,
{
    let mut buf = vec![0u8; n];
    match rand_core::TryRngCore::try_fill_bytes(&mut rand_core::OsRng, &mut buf) {
        Ok(()) => Ok(buf),
        Err(_) => Err(CodecError::Encryption),
    }
}

/// Relies on chacha20poly1305::ChaCha20Poly1305::encrypt (with KeyInit::new):
/// the sealing of `data` under the key and nonce, the 16-byte Poly1305 tag
/// appended.
#[verifier::external_body]
fn aead_seal(key: &[u8], nonce: &[u8], data: &[u8]) -> (out: Result<Vec<u8>, CodecError>)
    requires
        key@.len() == 32,
        nonce@.len() == 12,
    ensures
        out matches Ok(v) ==> v@ == chacha_seal(key@, nonce@, data@) && v@.len() == data@.len()
            + 16,
{
    let key = chacha20poly1305::Key::try_from(key).map_err(|_| CodecError::Encryption)?;
    let nonce = chacha20poly1305::Nonce::try_from(nonce).map_err(|_| CodecError::Encryption)?;
    let cipher = <chacha20poly1305::ChaCha20Poly1305 as chacha20poly1305::KeyInit>::new(&key);
    chacha20poly1305::aead::Aead::encrypt(&cipher, &nonce, data).map_err(|_| CodecError::Corrupt)
}

/// Relies on chacha20poly1305::ChaCha20Poly1305::decrypt (with KeyInit::new):
/// opening succeeds exactly on authentic ciphertexts, returns the sealed
/// plaintext, and returns Ok only of a ciphertext sealed under this key and
/// nonce.
#[verifier::external_body]
fn aead_open(key: &[u8], nonce: &[u8], ct: &[u8]) -> (out: Result<Vec<u8>, CodecError>)
    requires
        key@.len() == 32,
        nonce@.len() == 12,
    ensures
        out matches Ok(v) ==> ct@ == chacha_seal(key@, nonce@, v@),
        forall|p: Seq<u8>| ct@ == #[trigger] chacha_seal(key@, nonce@, p) ==> out is Ok
            && out->Ok_0@ == p,
{
    let key = chacha20poly1305::Key::try_from(key).map_err(|_| CodecError::Corrupt)?;
    let nonce = chacha20poly1305::Nonce::try_from(nonce).map_err(|_| CodecError::Corrupt)?;
    let cipher = <chacha20poly1305::ChaCha20Poly1305 as chacha20poly1305::KeyInit>::new(&key);
    chacha20poly1305::aead::Aead::decrypt(&cipher, &nonce, ct).map_err(|_| CodecError::Corrupt)
}

/// Whether `data` begins with the encryption magic tag `GIB1`.
pub fn is_encrypted(data: &[u8]) -> (out: bool)
    ensures
        out == is_encrypted_spec(data@),
{
    data.len() >= 4 && data[0] == 0x47 && data[1] == 0x49 && data[2] == 0x42 && data[3] == 0x31
}

/// Compresses `data` with zstd at `level`.  The result never carries the
/// encryption magic: a zstd frame begins with 28 B5 2F FD, not `GIB1`.
pub fn compress_bytes(data: &[u8], level: i32) -> (out: Result<Vec<u8>, CodecError>)
    ensures
        out is Ok,
        out matches Ok(v) ==> v@ == zstd_of(data@, level as int),
        out matches Ok(v) ==> !is_encrypted_spec(v@),
        out matches Ok(v) ==> v@.len() >= 4,
{
    zstd_encode(data, level)
}

/// Decompresses a zstd blob.  Inverts `compress_bytes`: on the compressed
/// form of any byte string, at any level, it returns exactly that string.
pub fn decompress_bytes(data: &[u8]) -> (out: Result<Vec<u8>, CodecError>)
    ensures
        forall|b: Seq<u8>, l: int| data@ == #[trigger] zstd_of(b, l) ==> out is Ok
            && out->Ok_0@ == b,
{
    zstd_decode(data)
}

/// Encrypts `data` under `password`: a fresh 16-byte salt and 12-byte nonce
/// are drawn, the key is derived by Argon2, and the output frame is
/// `GIB1 || salt || nonce || ciphertext-and-tag`.
pub fn encrypt_bytes(data: &[u8], password: &[u8]) -> (out: Result<Vec<u8>, CodecError>)
    ensures
        out matches Ok(v) ==> sealed_frame_for(v@, password@, data@),
        out matches Ok(v) ==> is_encrypted_spec(v@),
        out matches Ok(v) ==> v@.len() == data@.len() + 48,
{
    let salt = match random_bytes(16) {
        Ok(v) => v,
        Err(e) => {
            return Err(e);
        },
    };
    let nonce = match random_bytes(12) {
        Ok(v) => v,
        Err(e) => {
            return Err(e);
        },
    };
    let key = match argon2_derive(password, salt.as_slice()) {
        Ok(v) => v,
        Err(e) => {
            return Err(e);
        },
    };
    let ct = match aead_seal(key.as_slice(), nonce.as_slice(), data) {
        Ok(v) => v,
        Err(e) => {
            return Err(e);
        },
    };
    let mut blob: Vec<u8> = Vec::new();
    blob.push(0x47);
    blob.push(0x49);
    blob.push(0x42);
    blob.push(0x31);
    blob.extend_from_slice(salt.as_slice());
    blob.extend_from_slice(nonce.as_slice());
    blob.extend_from_slice(ct.as_slice());
    proof {
        assert(blob@.subrange(4, 20) =~= salt@);
        assert(blob@.subrange(20, 32) =~= nonce@);
        assert(blob@.skip(32) =~= ct@);
    }
    Ok(blob)
}

/// Opens an encrypted frame with an already-derived 32-byte key.  On any
/// frame sealed under this key, opening succeeds and returns the sealed
/// plaintext; an Ok result is always the plaintext of an authentic frame.
pub fn open_with_key(key: &[u8], blob: &[u8]) -> (out: Result<Vec<u8>, CodecError>)
    requires
        key@.len() == 32,
    ensures
        blob@.len() < 32 ==> out == Err::<Vec<u8>, CodecError>(CodecError::Corrupt),
        blob@.len() >= 32 && !is_encrypted_spec(blob@) ==> out == Err::<Vec<u8>, CodecError>(
            CodecError::NotEncrypted,
        ),
        out matches Ok(v) ==> sealed_frame_with_key(blob@, key@, v@),
        forall|d: Seq<u8>| #[trigger] sealed_frame_with_key(blob@, key@, d) ==> out is Ok
            && out->Ok_0@ == d,
{
    if blob.len() < 32 {
        return Err(CodecError::Corrupt);
    }
    if !(blob[0] == 0x47 && blob[1] == 0x49 && blob[2] == 0x42 && blob[3] == 0x31) {
        return Err(CodecError::NotEncrypted);
    }
    let nonce = vstd::slice::slice_subrange(blob, 20, 32);
    let ct = vstd::slice::slice_subrange(blob, 32, blob.len());
    proof {
        assert(ct@ =~= blob@.skip(32));
    }
    aead_open(key, nonce, ct)
}

/// Decrypts an encrypted frame with a password: the key is derived by
/// Argon2 from the password and the salt the frame carries, then the
/// ciphertext is opened.  On a frame sealed for this password, the only
/// failure left is key derivation itself.
pub fn decrypt_bytes(blob: &[u8], password: &[u8]) -> (out: Result<Vec<u8>, CodecError>)
    ensures
        blob@.len() < 32 ==> out == Err::<Vec<u8>, CodecError>(CodecError::Corrupt),
        blob@.len() >= 32 && !is_encrypted_spec(blob@) ==> out == Err::<Vec<u8>, CodecError>(
            CodecError::NotEncrypted,
        ),
        out matches Ok(v) ==> sealed_frame_for(blob@, password@, v@),
        forall|d: Seq<u8>| #[trigger] sealed_frame_for(blob@, password@, d) ==> ((out is Ok
            && out->Ok_0@ == d) || out == Err::<Vec<u8>, CodecError>(CodecError::KeyDerivation)),
{
    if blob.len() < 32 {
        return Err(CodecError::Corrupt);
    }
    if !(blob[0] == 0x47 && blob[1] == 0x49 && blob[2] == 0x42 && blob[3] == 0x31) {
        return Err(CodecError::NotEncrypted);
    }
    let salt = vstd::slice::slice_subrange(blob, 4, 20);
    let key = match argon2_derive(password, salt) {
        Ok(v) => v,
        Err(e) => {
            return Err(e);
        },
    };
    open_with_key(key.as_slice(), blob)
}

/// Prepares bytes for storage: encrypts them when a password is set,
/// passes them through unchanged otherwise.  Every write to the object
/// store goes through this step after compression.
pub fn encode_write_bytes(data: &[u8], password: Option<&[u8]>) -> (out: Result<
    Vec<u8>,
    CodecError,
>)
    ensures
        password is None ==> (out matches Ok(v) && v@ == data@),
        password matches Some(p) ==> (out matches Ok(v) ==> (sealed_frame_for(v@, p@, data@)
            && is_encrypted_spec(v@))),
{
    match password {
        Some(p) => encrypt_bytes(data, p),
        None => Ok(vstd::slice::slice_to_vec(data)),
    }
}

/// Interprets bytes read from storage: an empty blob stands for an absent
/// object and yields empty bytes; a magic-tagged blob is decrypted when a
/// password is set and refused when none is; a plain blob passes through,
/// with `was_encrypted` telling the caller which case held.
pub fn decode_read_bytes(file_bytes: &[u8], password: Option<&[u8]>, class: BlobClass) -> (out:
    Result<ReadDecryption, CodecError>)
    ensures
        file_bytes@.len() == 0 ==> (out matches Ok(r) && r.bytes@ == Seq::<u8>::empty()
            && r.was_encrypted == false),
        out matches Ok(r) ==> (file_bytes@.len() == 0 || r.was_encrypted == is_encrypted_spec(
            file_bytes@,
        )),
        file_bytes@.len() > 0 && !is_encrypted_spec(file_bytes@) ==> (out matches Ok(r)
            && r.bytes@ == file_bytes@),
        is_encrypted_spec(file_bytes@) && password is None ==> out == Err::<
            ReadDecryption,
            CodecError,
        >(CodecError::EncryptedButNoPassword(class)),
        password matches Some(p) ==> (out matches Ok(r) ==> (!is_encrypted_spec(file_bytes@)
            || sealed_frame_for(file_bytes@, p@, r.bytes@))),
        password matches Some(p) ==> (forall|d: Seq<u8>|
            #[trigger] sealed_frame_for(file_bytes@, p@, d) ==> ((out matches Ok(r)
                && r.bytes@ == d) || out == Err::<ReadDecryption, CodecError>(
                CodecError::KeyDerivation,
            ))),
{
    if file_bytes.len() == 0 {
        return Ok(ReadDecryption { bytes: Vec::new(), was_encrypted: false });
    }
    let was_encrypted = is_encrypted(file_bytes);
    match password {
        Some(p) => {
            if was_encrypted {
                match decrypt_bytes(file_bytes, p) {
                    Ok(bytes) => Ok(ReadDecryption { bytes, was_encrypted: true }),
                    Err(e) => Err(e),
                }
            } else {
                Ok(ReadDecryption { bytes: vstd::slice::slice_to_vec(file_bytes), was_encrypted: false })
            }
        },
        None => {
            if was_encrypted {
                Err(CodecError::EncryptedButNoPassword(class))
            } else {
                Ok(ReadDecryption { bytes: vstd::slice::slice_to_vec(file_bytes), was_encrypted: false })
            }
        },
    }
}

} // verus!
