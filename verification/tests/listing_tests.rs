//! Listings and progress: the pending-path ordering, the output-mode flag,
//! the percentage counter, and the masked storage rendering.

use gib::output::{detect_mode_from_args, JsonProgress, OutputMode};
use gib::prune::sort_dedup_paths;
use gib::storagedefs::{
    encode_storage_config, parse_storage_config, public_fields, storage_details, StorageConfig,
};

fn args(words: &[&str]) -> Vec<Vec<u8>> {
    words.iter().map(|w| w.as_bytes().to_vec()).collect()
}

#[test]
fn mode_value_is_read_without_regard_to_case() {
    assert_eq!(
        detect_mode_from_args(&args(&["gib", "--mode", "Interactive"])),
        OutputMode::Interactive
    );
    assert_eq!(
        detect_mode_from_args(&args(&["gib", "--mode=INTERACTIVE"])),
        OutputMode::Interactive
    );
    assert_eq!(detect_mode_from_args(&args(&["gib", "--mode", "JSON"])), OutputMode::Json);
    assert_eq!(detect_mode_from_args(&args(&["gib", "--mode=jsonish"])), OutputMode::Json);
}

#[test]
fn percent_holds_at_one_hundred_when_overcounted() {
    let mut p = JsonProgress::new(4);
    p.inc_by(3);
    assert_eq!(p.percent(), 75);
    p.inc_by(1);
    assert_eq!(p.percent(), 100);
    p.inc_by(10);
    assert_eq!(p.percent(), 100);
    let z = JsonProgress::new(0);
    assert_eq!(z.percent(), 0);
}

#[test]
fn path_listing_is_sorted_and_duplicate_free() {
    let input: Vec<Vec<u8>> = vec![
        b"k/indexes/pending_bb".to_vec(),
        b"k/indexes/pending_aa".to_vec(),
        b"k/indexes/pending_bb".to_vec(),
        b"k/indexes/chunks".to_vec(),
    ];
    let out = sort_dedup_paths(&input);
    let expect: Vec<Vec<u8>> = vec![
        b"k/indexes/chunks".to_vec(),
        b"k/indexes/pending_aa".to_vec(),
        b"k/indexes/pending_bb".to_vec(),
    ];
    assert_eq!(out, expect);
}

fn s3_config() -> StorageConfig {
    StorageConfig {
        storage_type: b"s3".to_vec(),
        fields: vec![
            (b"region".to_vec(), b"eu-central-1".to_vec()),
            (b"bucket".to_vec(), b"vault".to_vec()),
            (b"access_key".to_vec(), b"AKIDEXAMPLE".to_vec()),
            (b"secret_key".to_vec(), b"hunter2hunter2".to_vec()),
            (b"endpoint".to_vec(), b"https://s3.example".to_vec()),
        ],
    }
}

#[test]
fn storage_details_masks_the_credentials() {
    let line = storage_details(&s3_config());
    let text = String::from_utf8(line).unwrap();
    assert_eq!(
        text,
        "region: eu-central-1, bucket: vault, access_key: ********, \
         secret_key: ********, endpoint: https://s3.example"
    );
    assert!(!text.contains("AKIDEXAMPLE"));
    assert!(!text.contains("hunter2"));
}

#[test]
fn storage_details_of_unknown_type_and_empty_record() {
    let unknown = StorageConfig { storage_type: b"ftp".to_vec(), fields: vec![] };
    assert_eq!(storage_details(&unknown), b"unknown".to_vec());
    let bare = StorageConfig { storage_type: b"local".to_vec(), fields: vec![] };
    assert_eq!(storage_details(&bare), b"no details".to_vec());
}

#[test]
fn storage_record_round_trips_through_the_named_form() {
    let cfg = s3_config();
    let bytes = encode_storage_config(&cfg);
    assert_eq!(parse_storage_config(&bytes).unwrap(), cfg);
}

#[test]
fn public_fields_never_hand_out_a_secret() {
    let fields = public_fields(&s3_config());
    let keys: Vec<&[u8]> = fields.iter().map(|f| f.0.as_slice()).collect();
    assert_eq!(
        keys,
        vec![b"region".as_slice(), b"bucket".as_slice(), b"endpoint".as_slice()]
    );
    assert!(fields.iter().all(|f| f.0 != b"access_key" && f.0 != b"secret_key"));
}
