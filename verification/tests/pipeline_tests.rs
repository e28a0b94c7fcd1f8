use gib::backup::{
    plan_file, create_new_backup, relative_path_of, is_ignored, concat_chunks, u64_to_decimal,
    retry_backoff_ms, FileBackupBuilder,
};
use gib::delete::{apply_delete, chunk_occurrences, remove_backup_summary};
use gib::hashing::hash_hex;
use gib::indexes::ChunkIndexMap;
use gib::metadata::{Backup, BackupObject, BackupSummary};
use gib::only::{filter_only_paths, normalize_only_path, OnlyError};
use gib::output::{detect_mode_from_args, JsonProgress, OutputMode};
use gib::prune::{extract_pending_hash, hash_from_chunk_path, path_is_pending, select_orphans};
use gib::repository::{
    backup_path, chunk_index_path, chunk_path, chunks_prefix, indexes_prefix, list_backup_summaries,
    load_backup, load_chunk_index, load_pending, pending_path, persist_backup, persist_chunk_index,
    persist_pending, persist_summaries, prepend_summary, summaries_path,
};
use gib::restore::{needs_restore, resolve_backup_hash, select_extra_files};
use gib::codec::{is_encrypted, CodecError};
use gib::metadata::PendingBackup;
use gib::permissions::{get_file_permissions_with_path, is_readonly_mode};

const MIB: usize = 1024 * 1024;

fn make_backup(tree: Vec<(Vec<u8>, BackupObject)>) -> Backup {
    Backup {
        message: b"snapshot".to_vec(),
        hash: vec![b'9'; 64],
        timestamp: 42,
        author: b"Ada <ada@example.com>".to_vec(),
        tree,
    }
}

#[test]
fn zero_byte_file_yields_empty_chunks_and_empty_hash() {
    let mut index = ChunkIndexMap::new();
    let plan = plan_file(&mut index, b"", 1024, 0o644);
    assert_eq!(plan.object.chunks.len(), 0);
    assert_eq!(plan.object.size, 0);
    assert_eq!(plan.object.hash, hash_hex(b""));
    assert_eq!(plan.written_bytes, 0);
    assert_eq!(plan.deduplicated_bytes, 0);
    assert_eq!(index.len(), 0);
}

#[test]
fn exact_multiple_of_chunk_size_has_no_tail_chunk() {
    let mut index = ChunkIndexMap::new();
    let data = vec![7u8; 4 * 100];
    let plan = plan_file(&mut index, &data, 100, 0o644);
    assert_eq!(plan.object.chunks.len(), 4);
    assert_eq!(plan.object.size, 400);
}

#[test]
fn unit_chunk_size_gives_one_chunk_per_byte() {
    let mut index = ChunkIndexMap::new();
    let data = b"abcab";
    let plan = plan_file(&mut index, data, 1, 0o644);
    assert_eq!(plan.object.chunks.len(), 5);
    assert_eq!(plan.object.chunks[0], hash_hex(b"a"));
    assert_eq!(plan.object.chunks[1], hash_hex(b"b"));
    assert_eq!(plan.object.chunks[3], plan.object.chunks[0]);
    // Three distinct bytes give three index entries.
    assert_eq!(index.len(), 3);
}

#[test]
fn tail_chunk_carries_the_remainder() {
    let mut index = ChunkIndexMap::new();
    let data = vec![9u8; 250];
    let plan = plan_file(&mut index, &data, 100, 0o644);
    assert_eq!(plan.object.chunks.len(), 3);
    assert_eq!(plan.object.hash, hash_hex(&data));
}

#[test]
fn builder_streams_like_the_whole_file_plan() {
    let mut index1 = ChunkIndexMap::new();
    let data = vec![5u8; 230];
    let plan = plan_file(&mut index1, &data, 100, 0o755);
    let mut index2 = ChunkIndexMap::new();
    let mut builder = FileBackupBuilder::new(100);
    let s1 = builder.push_chunk(&mut index2, &data[0..100]);
    assert!(!s1.dedup);
    let s2 = builder.push_chunk(&mut index2, &data[100..200]);
    assert!(s2.dedup);
    let _s3 = builder.push_chunk(&mut index2, &data[200..230]);
    let object = builder.finish(0o755);
    assert_eq!(object, plan.object);
}

#[test]
fn first_backup_of_repeated_content_stores_one_chunk() {
    // Ten identical one-mebibyte chunks: one upload, nine deduplication hits.
    let mut index = ChunkIndexMap::new();
    let data = vec![0x41u8; 10 * MIB];
    let plan = plan_file(&mut index, &data, MIB as u64, 0o644);
    assert_eq!(plan.object.chunks.len(), 10);
    assert_eq!(plan.written_bytes, 1 * MIB as u64);
    assert_eq!(plan.deduplicated_bytes, 9 * MIB as u64);
    let uploads: Vec<_> = plan.steps.iter().filter(|s| !s.dedup).collect();
    assert_eq!(uploads.len(), 1);
    assert_eq!(index.len(), 1);
    assert_eq!(index.get_refcount(&plan.object.chunks[0]), Some(10));
}

#[test]
fn second_identical_backup_writes_nothing() {
    let mut index = ChunkIndexMap::new();
    let data = vec![0x41u8; 10 * MIB];
    let _first = plan_file(&mut index, &data, MIB as u64, 0o644);
    let second = plan_file(&mut index, &data, MIB as u64, 0o644);
    assert_eq!(second.written_bytes, 0);
    assert_eq!(second.deduplicated_bytes, 10 * MIB as u64);
    assert_eq!(index.len(), 1);
    assert_eq!(index.get_refcount(&second.object.chunks[0]), Some(20));
}

#[test]
fn deleting_the_second_backup_keeps_the_shared_chunk() {
    let mut index = ChunkIndexMap::new();
    let data = vec![0x41u8; 10 * MIB];
    let first = plan_file(&mut index, &data, MIB as u64, 0o644);
    let second = plan_file(&mut index, &data, MIB as u64, 0o644);
    let backup2 = make_backup(vec![(b"a.txt".to_vec(), second.object)]);
    let removed = apply_delete(&mut index, &backup2);
    assert!(removed.is_empty());
    assert_eq!(index.get_refcount(&first.object.chunks[0]), Some(10));
}

#[test]
fn deleting_the_last_backup_releases_the_chunk() {
    let mut index = ChunkIndexMap::new();
    let data = vec![0x41u8; 10 * MIB];
    let first = plan_file(&mut index, &data, MIB as u64, 0o644);
    let backup1 = make_backup(vec![(b"a.txt".to_vec(), first.object)]);
    let removed = apply_delete(&mut index, &backup1);
    assert_eq!(removed, vec![backup1.tree[0].1.chunks[0].clone()]);
    assert_eq!(index.len(), 0);
}

#[test]
fn chunk_occurrences_lists_every_reference_in_order() {
    let object = BackupObject {
        hash: vec![b'h'; 64],
        size: 2,
        content_type: b"application/octet-stream".to_vec(),
        permissions: 0o644,
        chunks: vec![b"c1".to_vec(), b"c2".to_vec()],
    };
    let backup = make_backup(vec![
        (b"a".to_vec(), object.clone()),
        (b"b".to_vec(), object),
    ]);
    let occs = chunk_occurrences(&backup);
    assert_eq!(
        occs,
        vec![b"c1".to_vec(), b"c2".to_vec(), b"c1".to_vec(), b"c2".to_vec()]
    );
}

#[test]
fn restored_bytes_are_the_chunk_contents_in_manifest_order() {
    let parts = vec![b"hello ".to_vec(), b"chunked ".to_vec(), b"world".to_vec()];
    assert_eq!(concat_chunks(&parts), b"hello chunked world".to_vec());
}

#[test]
fn whole_repository_round_trip_without_password() {
    let mut index = ChunkIndexMap::new();
    let data = b"the quick brown fox jumps over the lazy dog".repeat(100);
    let plan = plan_file(&mut index, &data, 64, 0o644);
    let mut backup = create_new_backup(b"first".to_vec(), b"Ada <a@b.c>".to_vec(), 1700000000);
    backup.insert_object(b"fox.txt".to_vec(), plan.object);
    let summary = BackupSummary {
        message: backup.message.clone(),
        hash: backup.hash.clone(),
        timestamp: Some(backup.timestamp),
        size: Some(plan.written_bytes),
    };
    let mut summaries: Vec<BackupSummary> = Vec::new();
    prepend_summary(&mut summaries, summary);

    let index_blob = persist_chunk_index(&index, 3, None).unwrap();
    let backup_blob = persist_backup(&backup, 3, None).unwrap();
    let summaries_blob = persist_summaries(&summaries, 3, None).unwrap();

    let (index_back, upgraded) = load_chunk_index(&index_blob, None).unwrap();
    assert!(!upgraded);
    assert_eq!(index_back.len(), index.len());
    let backup_back = load_backup(&backup_blob, None).unwrap();
    assert_eq!(backup_back, backup);
    let summaries_back = list_backup_summaries(&summaries_blob, None).unwrap();
    assert_eq!(summaries_back, summaries);
}

#[test]
fn whole_repository_round_trip_with_password_frames_every_blob() {
    let mut index = ChunkIndexMap::new();
    let data = vec![3u8; 3 * MIB];
    let plan = plan_file(&mut index, &data, MIB as u64, 0o600);
    let mut backup = create_new_backup(b"enc".to_vec(), b"Ada <a@b.c>".to_vec(), 1700000001);
    backup.insert_object(b"blob.bin".to_vec(), plan.object);

    let pw: &[u8] = b"hunter2";
    let index_blob = persist_chunk_index(&index, 3, Some(pw)).unwrap();
    let backup_blob = persist_backup(&backup, 3, Some(pw)).unwrap();
    assert!(is_encrypted(&index_blob));
    assert!(is_encrypted(&backup_blob));

    let backup_back = load_backup(&backup_blob, Some(pw)).unwrap();
    assert_eq!(backup_back, backup);
    let (index_back, upgraded) = load_chunk_index(&index_blob, Some(pw)).unwrap();
    assert!(!upgraded);
    assert_eq!(index_back.get_refcount(&backup.tree[0].1.chunks[0]), Some(3));

    assert_eq!(load_backup(&backup_blob, Some(b"wrong")), Err(CodecError::Corrupt));
    assert_eq!(
        load_backup(&backup_blob, None),
        Err(CodecError::EncryptedButNoPassword(gib::codec::BlobClass::Backup))
    );
}

#[test]
fn plaintext_index_read_with_password_reports_the_upgrade() {
    let index = ChunkIndexMap::new();
    let blob = persist_chunk_index(&index, 3, None).unwrap();
    let (_back, upgraded) = load_chunk_index(&blob, Some(b"new-password")).unwrap();
    assert!(upgraded);
}

#[test]
fn absent_index_and_summaries_blobs_mean_empty_collections() {
    let (index, upgraded) = load_chunk_index(b"", Some(b"pw")).unwrap();
    assert_eq!(index.len(), 0);
    assert!(!upgraded);
    let summaries = list_backup_summaries(b"", None).unwrap();
    assert!(summaries.is_empty());
    assert_eq!(load_backup(b"", None), Err(CodecError::NotFound));
    assert_eq!(load_pending(b"", None), Err(CodecError::NotFound));
}

#[test]
fn pending_journal_round_trips_through_the_codec() {
    let pending = PendingBackup {
        message: b"big one".to_vec(),
        compress: 3,
        chunk_size: MIB as u64,
        concurrency: 100,
        ignore_patterns: vec![b".git".to_vec()],
        processed_chunks: vec![vec![b'e'; 64]],
    };
    let blob = persist_pending(&pending, 3, Some(b"pw")).unwrap();
    assert!(is_encrypted(&blob));
    assert_eq!(load_pending(&blob, Some(b"pw")).unwrap(), pending);
}

#[test]
fn repository_paths_follow_the_layout() {
    let h = b"ab".iter().chain(b"cdef".iter()).cloned().collect::<Vec<u8>>();
    assert_eq!(chunk_path(b"repo", &h), b"repo/chunks/ab/cdef".to_vec());
    assert_eq!(backup_path(b"repo", b"ffff"), b"repo/backups/ffff".to_vec());
    assert_eq!(chunk_index_path(b"repo"), b"repo/indexes/chunks".to_vec());
    assert_eq!(summaries_path(b"repo"), b"repo/indexes/backups".to_vec());
    assert_eq!(pending_path(b"repo", b"ffff"), b"repo/indexes/pending_ffff".to_vec());
    assert_eq!(chunks_prefix(b"repo"), b"repo/chunks".to_vec());
    assert_eq!(indexes_prefix(b"repo"), b"repo/indexes".to_vec());
}

#[test]
fn backup_identity_hashes_message_author_and_time() {
    let backup = create_new_backup(b"msg".to_vec(), b"Ada <a@b.c>".to_vec(), 123);
    assert_eq!(backup.hash, hash_hex(b"msg:Ada <a@b.c>:123"));
    assert_eq!(backup.timestamp, 123);
    assert!(backup.tree.is_empty());
}

#[test]
fn decimal_rendering_matches() {
    assert_eq!(u64_to_decimal(0), b"0".to_vec());
    assert_eq!(u64_to_decimal(1700000000), b"1700000000".to_vec());
    assert_eq!(u64_to_decimal(u64::MAX), b"18446744073709551615".to_vec());
}

#[test]
fn relative_paths_strip_root_and_normalize_separators() {
    assert_eq!(relative_path_of(b"/root/dir/a.txt", b"/root/dir"), b"a.txt".to_vec());
    assert_eq!(relative_path_of(b"C:\\data\\a.txt", b"C:\\data"), b"a.txt".to_vec());
    assert_eq!(relative_path_of(b"other/a.txt", b"/root"), b"other/a.txt".to_vec());
}

#[test]
fn ignore_patterns_match_whole_component_names() {
    let patterns = vec![b".git".to_vec(), b"target".to_vec()];
    assert!(is_ignored(b".git", &patterns));
    assert!(!is_ignored(b".github", &patterns));
    assert!(!is_ignored(b"src", &patterns));
}

#[test]
fn retry_backoff_grows_linearly() {
    assert_eq!(retry_backoff_ms(1), 100);
    assert_eq!(retry_backoff_ms(2), 200);
}

#[test]
fn short_selector_resolves_to_first_matching_summary() {
    let summaries = vec![
        BackupSummary { message: b"one".to_vec(), hash: b"aaaa1111".to_vec(), timestamp: None, size: None },
        BackupSummary { message: b"two".to_vec(), hash: b"aaaa2222".to_vec(), timestamp: None, size: None },
    ];
    assert_eq!(resolve_backup_hash(&summaries, b"aaaa").unwrap(), b"aaaa1111".to_vec());
    assert_eq!(resolve_backup_hash(&summaries, b"aaaa2").unwrap(), b"aaaa2222".to_vec());
    assert_eq!(resolve_backup_hash(&summaries, b"bbbb"), Err(CodecError::NotFound));
    assert_eq!(
        resolve_backup_hash(&summaries, b"longer-than-eight").unwrap(),
        b"longer-than-eight".to_vec()
    );
}

#[test]
fn only_selector_picks_the_subtree_sorted() {
    let tree = vec![
        (b"src/b.txt".to_vec(), sample_object()),
        (b"doc/c.md".to_vec(), sample_object()),
        (b"src/a.txt".to_vec(), sample_object()),
    ];
    let only = vec![b"src".to_vec()];
    let picked = filter_only_paths(&tree, &only).unwrap();
    let names: Vec<Vec<u8>> = picked.iter().map(|e| e.0.clone()).collect();
    assert_eq!(names, vec![b"src/a.txt".to_vec(), b"src/b.txt".to_vec()]);
}

fn sample_object() -> BackupObject {
    BackupObject {
        hash: vec![b'a'; 64],
        size: 1,
        content_type: b"application/octet-stream".to_vec(),
        permissions: 0o644,
        chunks: vec![],
    }
}

#[test]
fn only_selector_matches_exact_file_but_not_name_prefix() {
    let tree = vec![
        (b"src/a.txt".to_vec(), sample_object()),
        (b"srcs/b.txt".to_vec(), sample_object()),
    ];
    let picked = filter_only_paths(&tree, &vec![b"src/a.txt".to_vec()]).unwrap();
    assert_eq!(picked.len(), 1);
    let picked2 = filter_only_paths(&tree, &vec![b"src".to_vec()]).unwrap();
    assert_eq!(picked2.len(), 1);
    assert_eq!(picked2[0].0, b"src/a.txt".to_vec());
}

#[test]
fn only_selector_that_matches_nothing_is_an_error() {
    let tree = vec![(b"src/a.txt".to_vec(), sample_object())];
    let out = filter_only_paths(&tree, &vec![b"nope".to_vec()]);
    assert_eq!(out, Err(OnlyError::NoFilesForPath(b"nope".to_vec())));
    let out2 = filter_only_paths(&tree, &Vec::new());
    assert_eq!(out2, Err(OnlyError::NoPathsSelected));
}

#[test]
fn selector_paths_are_normalized() {
    assert_eq!(normalize_only_path(b" ./foo/bar/ ").unwrap(), b"foo/bar".to_vec());
    assert_eq!(normalize_only_path(b"a\\b").unwrap(), b"a/b".to_vec());
    assert_eq!(normalize_only_path(b"///x").unwrap(), b"x".to_vec());
    assert!(normalize_only_path(b"   ").is_err());
    assert!(normalize_only_path(b"././").is_err());
}

#[test]
fn prune_local_selects_only_unrecorded_files() {
    let backup = make_backup(vec![
        (b"a".to_vec(), sample_object()),
        (b"b".to_vec(), sample_object()),
    ]);
    let walked = vec![b"a".to_vec(), b"c".to_vec(), b"b".to_vec()];
    assert_eq!(select_extra_files(&backup, &walked), vec![b"c".to_vec()]);
}

#[test]
fn needs_restore_compares_recorded_hash() {
    let local = b"aa".to_vec();
    assert!(!needs_restore(Some(&local), b"aa"));
    assert!(needs_restore(Some(&local), b"bb"));
    assert!(needs_restore(None, b"aa"));
}

#[test]
fn chunk_paths_reconstruct_their_hashes() {
    assert_eq!(hash_from_chunk_path(b"repo/chunks/ab/cdef"), b"abcdef".to_vec());
    assert_eq!(hash_from_chunk_path(b"bare"), b"bare".to_vec());
}

#[test]
fn prune_selects_orphans_and_pending_journals_only() {
    let mut index = ChunkIndexMap::new();
    index.record_chunk(b"abcdef".to_vec());
    let chunk_paths = vec![
        b"repo/chunks/ab/cdef".to_vec(),
        b"repo/chunks/ff/0000".to_vec(),
    ];
    let index_paths = vec![
        b"repo/indexes/chunks".to_vec(),
        b"repo/indexes/pending_1234".to_vec(),
    ];
    let orphans = select_orphans(&index, &chunk_paths, &index_paths);
    assert_eq!(
        orphans,
        vec![b"repo/chunks/ff/0000".to_vec(), b"repo/indexes/pending_1234".to_vec()]
    );
}

#[test]
fn pending_journal_names_parse() {
    assert!(path_is_pending(b"repo/indexes/pending_12ab"));
    assert!(!path_is_pending(b"repo/indexes/chunks"));
    assert_eq!(extract_pending_hash(b"repo/indexes/pending_12ab"), Some(b"12ab".to_vec()));
    assert_eq!(extract_pending_hash(b"repo/indexes/pending_"), None);
}

#[test]
fn deleting_a_summary_filters_by_hash() {
    let summaries = vec![
        BackupSummary { message: b"one".to_vec(), hash: b"h1".to_vec(), timestamp: None, size: None },
        BackupSummary { message: b"two".to_vec(), hash: b"h2".to_vec(), timestamp: None, size: None },
    ];
    let left = remove_backup_summary(summaries, b"h1");
    assert_eq!(left.len(), 1);
    assert_eq!(left[0].hash, b"h2".to_vec());
}

#[test]
fn mode_detection_reads_the_flag_in_both_forms() {
    let base = vec![b"gib".to_vec(), b"log".to_vec()];
    assert_eq!(detect_mode_from_args(&base), OutputMode::Interactive);
    let mut with_flag = base.clone();
    with_flag.push(b"--mode".to_vec());
    with_flag.push(b"json".to_vec());
    assert_eq!(detect_mode_from_args(&with_flag), OutputMode::Json);
    let mut with_eq = base.clone();
    with_eq.push(b"--mode=interactive".to_vec());
    assert_eq!(detect_mode_from_args(&with_eq), OutputMode::Interactive);
    let mut with_junk = base;
    with_junk.push(b"--mode=yaml".to_vec());
    assert_eq!(detect_mode_from_args(&with_junk), OutputMode::Json);
}

#[test]
fn progress_counts_and_percentages() {
    let mut progress = JsonProgress::new(200);
    progress.inc_by(50);
    assert_eq!(progress.processed, 50);
    assert_eq!(progress.percent(), 25);
    progress.set_message(b"half way".to_vec());
    progress.inc_by(150);
    assert_eq!(progress.percent(), 100);
    let empty = JsonProgress::new(0);
    assert_eq!(empty.percent(), 0);
}

#[test]
fn garbage_bytes_do_not_decompress() {
    assert_eq!(
        gib::codec::decompress_bytes(b"definitely not a zstd frame"),
        Err(CodecError::Corrupt)
    );
}

#[test]
fn unreadable_record_is_a_serialization_error() {
    // A valid compressed blob whose payload is not a record.
    let blob = gib::codec::compress_bytes(&[0xc1, 0xc1, 0xc1], 3).unwrap();
    assert_eq!(load_chunk_index(&blob, None).err(), Some(CodecError::Serialization));
    assert_eq!(list_backup_summaries(&blob, None).err(), Some(CodecError::Serialization));
    assert_eq!(load_backup(&blob, None).err(), Some(CodecError::Serialization));
}

#[test]
fn releasing_a_hash_the_index_does_not_name_changes_nothing() {
    let mut index = ChunkIndexMap::new();
    index.record_chunk(b"known".to_vec());
    let backup = make_backup(vec![(b"f".to_vec(), BackupObject {
        hash: vec![b'h'; 64],
        size: 1,
        content_type: b"application/octet-stream".to_vec(),
        permissions: 0o644,
        chunks: vec![b"unknown".to_vec()],
    })]);
    let removed = apply_delete(&mut index, &backup);
    assert!(removed.is_empty());
    assert_eq!(index.get_refcount(b"known"), Some(1));
}

#[test]
fn synthesized_permissions_follow_extension_and_readonly_flag() {
    assert_eq!(get_file_permissions_with_path(b"setup.EXE", false), 0o755);
    assert_eq!(get_file_permissions_with_path(b"run.ps1", true), 0o555);
    assert_eq!(get_file_permissions_with_path(b"notes.txt", false), 0o644);
    assert_eq!(get_file_permissions_with_path(b"notes.txt", true), 0o444);
    assert_eq!(get_file_permissions_with_path(b".bashrc", false), 0o644);
    assert!(is_readonly_mode(0o444));
    assert!(!is_readonly_mode(0o644));
}

#[test]
fn inserting_the_same_path_twice_replaces_the_entry() {
    let mut backup = create_new_backup(b"m".to_vec(), b"a".to_vec(), 1);
    let mut index = ChunkIndexMap::new();
    let first = plan_file(&mut index, b"old contents", 4, 0o644);
    let second = plan_file(&mut index, b"new contents", 4, 0o600);
    backup.insert_object(b"f.txt".to_vec(), first.object);
    backup.insert_object(b"f.txt".to_vec(), second.object.clone());
    assert_eq!(backup.tree.len(), 1);
    assert_eq!(backup.tree[0].1, second.object);
}
