use gib::codec::{
    compress_bytes, decompress_bytes, encrypt_bytes, decrypt_bytes, is_encrypted,
    encode_write_bytes, decode_read_bytes, BlobClass, CodecError,
};
use gib::hashing::{hash_hex, StreamHasher};
use gib::hexenc::to_hex;

#[test]
fn hex_renders_lowercase_pairs() {
    assert_eq!(to_hex(&[]), b"".to_vec());
    assert_eq!(to_hex(&[0x00, 0x0f, 0xa5, 0xff]), b"000fa5ff".to_vec());
}

#[test]
fn sha256_of_empty_input_matches_known_digest() {
    let h = hash_hex(b"");
    assert_eq!(
        h,
        b"e3b0c44298fc1c149afbf4c8996fb92427ae41e4649b934ca495991b7852b855".to_vec()
    );
}

#[test]
fn sha256_of_abc_matches_known_digest() {
    let h = hash_hex(b"abc");
    assert_eq!(
        h,
        b"ba7816bf8f01cfea414140de5dae2223b00361a396177a9cb410ff61f20015ad".to_vec()
    );
}

#[test]
fn stream_hasher_matches_one_shot_digest() {
    let mut hasher = StreamHasher::new();
    hasher.update(b"hello ");
    hasher.update(b"world");
    assert_eq!(hasher.finish(), hash_hex(b"hello world"));
}

#[test]
fn compress_then_decompress_is_identity() {
    let data: Vec<u8> = (0..10000u32).map(|i| (i % 251) as u8).collect();
    let packed = compress_bytes(&data, 3).unwrap();
    let unpacked = decompress_bytes(&packed).unwrap();
    assert_eq!(unpacked, data);
}

#[test]
fn compress_of_empty_input_round_trips() {
    let packed = compress_bytes(b"", 3).unwrap();
    let unpacked = decompress_bytes(&packed).unwrap();
    assert_eq!(unpacked, b"".to_vec());
}

#[test]
fn compressed_blob_never_carries_encryption_magic() {
    let packed = compress_bytes(b"GIB1GIB1GIB1", 3).unwrap();
    assert!(!is_encrypted(&packed));
    let packed2 = compress_bytes(&[], 19).unwrap();
    assert!(!is_encrypted(&packed2));
}

#[test]
fn encrypted_blob_carries_encryption_magic() {
    let blob = encrypt_bytes(b"payload", b"hunter2").unwrap();
    assert!(is_encrypted(&blob));
    assert_eq!(&blob[..4], b"GIB1");
    assert_eq!(blob.len(), 7 + 48);
}

#[test]
fn decrypt_with_right_password_returns_plaintext() {
    let blob = encrypt_bytes(b"top secret bytes", b"hunter2").unwrap();
    let plain = decrypt_bytes(&blob, b"hunter2").unwrap();
    assert_eq!(plain, b"top secret bytes".to_vec());
}

#[test]
fn decrypt_with_wrong_password_is_corrupt() {
    let blob = encrypt_bytes(b"top secret bytes", b"hunter2").unwrap();
    let out = decrypt_bytes(&blob, b"hunter3");
    assert_eq!(out, Err(CodecError::Corrupt));
}

#[test]
fn decrypt_of_tampered_blob_is_corrupt() {
    let mut blob = encrypt_bytes(b"top secret bytes", b"hunter2").unwrap();
    let last = blob.len() - 1;
    blob[last] ^= 0x01;
    assert_eq!(decrypt_bytes(&blob, b"hunter2"), Err(CodecError::Corrupt));
}

#[test]
fn decrypt_of_short_blob_is_corrupt() {
    assert_eq!(decrypt_bytes(b"GIB1shrt", b"p"), Err(CodecError::Corrupt));
}

#[test]
fn decrypt_of_plain_blob_reports_not_encrypted() {
    let blob = vec![0u8; 64];
    assert_eq!(decrypt_bytes(&blob, b"p"), Err(CodecError::NotEncrypted));
}

#[test]
fn salt_and_nonce_are_fresh_per_blob() {
    let a = encrypt_bytes(b"same plaintext", b"p").unwrap();
    let b = encrypt_bytes(b"same plaintext", b"p").unwrap();
    assert_ne!(a, b);
    assert_ne!(&a[4..20], &b[4..20]);
    assert_ne!(&a[20..32], &b[20..32]);
}

#[test]
fn write_without_password_keeps_bytes() {
    let out = encode_write_bytes(b"raw bytes", None).unwrap();
    assert_eq!(out, b"raw bytes".to_vec());
}

#[test]
fn read_of_empty_blob_is_empty_not_an_error() {
    let read = decode_read_bytes(b"", Some(b"p"), BlobClass::ChunkIndex).unwrap();
    assert!(read.bytes.is_empty());
    assert!(!read.was_encrypted);
    let read2 = decode_read_bytes(b"", None, BlobClass::Summaries).unwrap();
    assert!(read2.bytes.is_empty());
}

#[test]
fn read_round_trips_through_write_with_password() {
    let blob = encode_write_bytes(b"some stored record", Some(b"pw")).unwrap();
    let read = decode_read_bytes(&blob, Some(b"pw"), BlobClass::Backup).unwrap();
    assert_eq!(read.bytes, b"some stored record".to_vec());
    assert!(read.was_encrypted);
}

#[test]
fn read_of_encrypted_blob_without_password_names_the_blob_class() {
    let blob = encode_write_bytes(b"data", Some(b"pw")).unwrap();
    let out = decode_read_bytes(&blob, None, BlobClass::Chunk);
    assert_eq!(
        out.err(),
        Some(CodecError::EncryptedButNoPassword(BlobClass::Chunk))
    );
}

#[test]
fn read_of_plain_blob_with_password_passes_through_with_flag() {
    let read = decode_read_bytes(b"plain old bytes", Some(b"pw"), BlobClass::Pending).unwrap();
    assert_eq!(read.bytes, b"plain old bytes".to_vec());
    assert!(!read.was_encrypted);
}
