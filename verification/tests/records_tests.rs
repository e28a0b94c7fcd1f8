use gib::msgpack::{
    write_uint, write_int, write_str, write_map_header, write_array_header, write_nil, read_uint,
    read_int, read_str, read_map_header, read_array_header, skip_value, bytes_eq,
};
use gib::metadata::{Backup, BackupObject, BackupSummary, PendingBackup, Config};
use gib::records::{
    encode_summaries, decode_summaries, encode_backup, decode_backup, encode_pending,
    decode_pending, encode_config, decode_config,
};
use gib::indexes::ChunkIndexMap;
use gib::storagedefs::{
    StorageConfig, parse_storage_config, encode_storage_config, storage_definitions,
    storage_definition, storage_type_values, storage_add_fields, storage_details, public_fields,
    lookup_field,
};

fn sample_object(tag: u8) -> BackupObject {
    BackupObject {
        hash: vec![b'a'; 64],
        size: 1000 + tag as u64,
        content_type: b"application/octet-stream".to_vec(),
        permissions: 0o644,
        chunks: vec![vec![b'c'; 64], vec![b'd'; 64]],
    }
}

#[test]
fn uint_round_trips_at_every_width() {
    for v in [0u64, 1, 0x7f, 0x80, 0xff, 0x100, 0xffff, 0x10000, 0xffffffff, 0x100000000, u64::MAX]
    {
        let mut buf: Vec<u8> = Vec::new();
        write_uint(&mut buf, v);
        let (back, end) = read_uint(&buf, 0).unwrap();
        assert_eq!(back, v);
        assert_eq!(end, buf.len());
    }
}

#[test]
fn int_round_trips_at_every_width() {
    for v in [0i64, 5, -1, -32, -33, -128, -129, -0x8000, -0x8001, -0x80000000, i64::MIN, i64::MAX]
    {
        let mut buf: Vec<u8> = Vec::new();
        write_int(&mut buf, v);
        let (back, end) = read_int(&buf, 0).unwrap();
        assert_eq!(back, v);
        assert_eq!(end, buf.len());
    }
}

#[test]
fn str_round_trips_at_every_width() {
    for n in [0usize, 1, 31, 32, 255, 256, 70000] {
        let s = vec![b'x'; n];
        let mut buf: Vec<u8> = Vec::new();
        write_str(&mut buf, &s);
        let (back, end) = read_str(&buf, 0).unwrap();
        assert_eq!(back, s);
        assert_eq!(end, buf.len());
    }
}

#[test]
fn headers_round_trip() {
    for n in [0u64, 15, 16, 65535, 65536] {
        let mut buf: Vec<u8> = Vec::new();
        write_map_header(&mut buf, n);
        assert_eq!(read_map_header(&buf, 0).unwrap(), (n, buf.len()));
        let mut buf2: Vec<u8> = Vec::new();
        write_array_header(&mut buf2, n);
        assert_eq!(read_array_header(&buf2, 0).unwrap(), (n, buf2.len()));
    }
}

#[test]
fn skip_value_passes_over_whole_values() {
    let mut buf: Vec<u8> = Vec::new();
    write_map_header(&mut buf, 2);
    write_str(&mut buf, b"k1");
    write_array_header(&mut buf, 3);
    write_uint(&mut buf, 7);
    write_int(&mut buf, -7);
    write_str(&mut buf, b"deep");
    write_str(&mut buf, b"k2");
    write_nil(&mut buf);
    let end = skip_value(&buf, 0).unwrap();
    assert_eq!(end, buf.len());
}

#[test]
fn bytes_eq_compares_contents() {
    assert!(bytes_eq(b"same", b"same"));
    assert!(!bytes_eq(b"same", b"Same"));
    assert!(!bytes_eq(b"short", b"shorter"));
}

#[test]
fn summaries_round_trip_with_and_without_optional_fields() {
    let list = vec![
        BackupSummary {
            message: b"newest".to_vec(),
            hash: vec![b'1'; 64],
            timestamp: Some(1700000000),
            size: Some(12345),
        },
        BackupSummary { message: b"old".to_vec(), hash: vec![b'2'; 64], timestamp: None, size: None },
    ];
    let bytes = encode_summaries(&list);
    let back = decode_summaries(&bytes).unwrap();
    assert_eq!(back, list);
}

#[test]
fn summaries_decode_of_empty_array_is_empty() {
    let bytes = encode_summaries(&Vec::new());
    assert_eq!(decode_summaries(&bytes).unwrap(), Vec::new());
}

#[test]
fn summaries_reader_skips_unknown_fields() {
    let mut buf: Vec<u8> = Vec::new();
    write_array_header(&mut buf, 1);
    write_map_header(&mut buf, 3);
    write_str(&mut buf, b"message");
    write_str(&mut buf, b"hello");
    write_str(&mut buf, b"color");
    write_str(&mut buf, b"green");
    write_str(&mut buf, b"hash");
    write_str(&mut buf, b"abcd");
    let back = decode_summaries(&buf).unwrap();
    assert_eq!(back.len(), 1);
    assert_eq!(back[0].message, b"hello".to_vec());
    assert_eq!(back[0].hash, b"abcd".to_vec());
    assert_eq!(back[0].timestamp, None);
}

#[test]
fn summary_missing_required_field_does_not_decode() {
    let mut buf: Vec<u8> = Vec::new();
    write_array_header(&mut buf, 1);
    write_map_header(&mut buf, 1);
    write_str(&mut buf, b"message");
    write_str(&mut buf, b"hello");
    assert!(decode_summaries(&buf).is_none());
}

#[test]
fn backup_round_trips_with_nested_tree() {
    let backup = Backup {
        message: b"release snapshot".to_vec(),
        hash: vec![b'f'; 64],
        timestamp: 1712345678,
        author: b"Ada Lovelace <ada@example.com>".to_vec(),
        tree: vec![
            (b"src/a.txt".to_vec(), sample_object(1)),
            (b"src/b.txt".to_vec(), sample_object(2)),
            (b"doc/c.md".to_vec(), sample_object(3)),
        ],
    };
    let bytes = encode_backup(&backup);
    let back = decode_backup(&bytes).unwrap();
    assert_eq!(back, backup);
}

#[test]
fn backup_with_duplicate_tree_path_does_not_decode() {
    let mut raw: Vec<u8> = Vec::new();
    write_map_header(&mut raw, 5);
    write_str(&mut raw, b"message");
    write_str(&mut raw, b"m");
    write_str(&mut raw, b"hash");
    write_str(&mut raw, b"f");
    write_str(&mut raw, b"timestamp");
    write_uint(&mut raw, 1);
    write_str(&mut raw, b"author");
    write_str(&mut raw, b"a");
    write_str(&mut raw, b"tree");
    write_map_header(&mut raw, 2);
    for _ in 0..2 {
        write_str(&mut raw, b"p");
        write_map_header(&mut raw, 5);
        write_str(&mut raw, b"hash");
        write_str(&mut raw, b"h");
        write_str(&mut raw, b"size");
        write_uint(&mut raw, 0);
        write_str(&mut raw, b"content_type");
        write_str(&mut raw, b"t");
        write_str(&mut raw, b"permissions");
        write_uint(&mut raw, 0o644);
        write_str(&mut raw, b"chunks");
        write_array_header(&mut raw, 0);
    }
    assert!(decode_backup(&raw).is_none());
}

#[test]
fn pending_round_trips() {
    let pending = PendingBackup {
        message: b"in flight".to_vec(),
        compress: -3,
        chunk_size: 5 * 1024 * 1024,
        concurrency: 100,
        ignore_patterns: vec![b"target".to_vec(), b".git".to_vec()],
        processed_chunks: vec![vec![b'a'; 64]],
    };
    let bytes = encode_pending(&pending);
    assert_eq!(decode_pending(&bytes).unwrap(), pending);
}

#[test]
fn config_round_trips() {
    let config = Config { author: b"Ada Lovelace <ada@example.com>".to_vec() };
    let bytes = encode_config(&config);
    assert_eq!(decode_config(&bytes).unwrap(), config);
}

#[test]
fn chunk_index_round_trips() {
    let mut index = ChunkIndexMap::new();
    let h1 = vec![b'1'; 64];
    let h2 = vec![b'2'; 64];
    assert!(!index.record_chunk(h1.clone()));
    assert!(index.record_chunk(h1.clone()));
    assert!(!index.record_chunk(h2.clone()));
    let bytes = index.encode();
    let back = ChunkIndexMap::decode(&bytes).unwrap();
    assert_eq!(back.len(), 2);
    assert_eq!(back.get_refcount(&h1), Some(2));
    assert_eq!(back.get_refcount(&h2), Some(1));
}

#[test]
fn chunk_index_with_zero_count_does_not_decode() {
    let mut raw: Vec<u8> = Vec::new();
    write_map_header(&mut raw, 1);
    write_str(&mut raw, b"aa");
    write_map_header(&mut raw, 1);
    write_str(&mut raw, b"refcount");
    write_uint(&mut raw, 0);
    assert!(ChunkIndexMap::decode(&raw).is_none());
}

#[test]
fn storage_config_round_trips_in_named_form() {
    let cfg = StorageConfig {
        storage_type: b"local".to_vec(),
        fields: vec![(b"path".to_vec(), b"/var/backups".to_vec())],
    };
    let bytes = encode_storage_config(&cfg);
    let back = parse_storage_config(&bytes).unwrap();
    assert_eq!(back, cfg);
}

#[test]
fn legacy_storage_record_parses_through_definitions() {
    // The older form: a bare array of the numeric tag and six optional slots.
    let mut raw: Vec<u8> = Vec::new();
    write_array_header(&mut raw, 7);
    write_uint(&mut raw, 1);
    write_nil(&mut raw);
    write_str(&mut raw, b"eu-central-1");
    write_str(&mut raw, b"backups");
    write_str(&mut raw, b"AKIA");
    write_str(&mut raw, b"SECRET-REDACTED");
    write_str(&mut raw, b"https://s3.example.com");
    let cfg = parse_storage_config(&raw).unwrap();
    assert_eq!(cfg.storage_type, b"s3".to_vec());
    assert_eq!(
        lookup_field(&cfg, b"region"),
        Some(b"eu-central-1".to_vec())
    );
    assert_eq!(lookup_field(&cfg, b"endpoint"), Some(b"https://s3.example.com".to_vec()));
    assert_eq!(lookup_field(&cfg, b"path"), None);
}

#[test]
fn storage_definitions_name_both_back_ends() {
    let defs = storage_definitions();
    assert_eq!(defs.len(), 2);
    assert_eq!(defs[0].id, b"local".to_vec());
    assert_eq!(defs[1].id, b"s3".to_vec());
    assert_eq!(storage_type_values(), vec![b"local".to_vec(), b"s3".to_vec()]);
    assert!(storage_definition(b"local").is_some());
    assert!(storage_definition(b"s3").is_some());
    assert!(storage_definition(b"ftp").is_none());
    assert_eq!(storage_add_fields().len(), 6);
}

#[test]
fn storage_details_masks_secrets_and_names_unknown_types() {
    let cfg = StorageConfig {
        storage_type: b"s3".to_vec(),
        fields: vec![
            (b"region".to_vec(), b"eu".to_vec()),
            (b"access_key".to_vec(), b"AKIA".to_vec()),
        ],
    };
    let details = storage_details(&cfg);
    let text = String::from_utf8(details).unwrap();
    assert!(text.contains("region: eu"));
    assert!(text.contains("access_key: ********"));
    assert!(!text.contains("AKIA"));
    let unknown = StorageConfig { storage_type: b"ftp".to_vec(), fields: vec![] };
    assert_eq!(storage_details(&unknown), b"unknown".to_vec());
    let bare = StorageConfig { storage_type: b"local".to_vec(), fields: vec![] };
    assert_eq!(storage_details(&bare), b"no details".to_vec());
}

#[test]
fn public_fields_exclude_secrets() {
    let cfg = StorageConfig {
        storage_type: b"s3".to_vec(),
        fields: vec![
            (b"region".to_vec(), b"eu".to_vec()),
            (b"secret_key".to_vec(), b"SECRET-REDACTED".to_vec()),
        ],
    };
    let fields = public_fields(&cfg);
    assert_eq!(fields, vec![(b"region".to_vec(), b"eu".to_vec())]);
}
