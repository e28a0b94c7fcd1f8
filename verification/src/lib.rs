//! Core engine of a deduplicating, optionally encrypted backup repository.
//!
//! A snapshot of a directory tree is stored in a content-addressed object
//! store: file contents are cut into fixed-size chunks, each chunk is stored
//! once under its SHA-256 hash, and a manifest records which chunks make up
//! each file.  Every stored blob runs through one codec: zstd compression
//! followed, when a password is set, by ChaCha20-Poly1305 encryption under an
//! Argon2-derived key, with a four-byte magic tag marking encrypted blobs.
//! A reference-counted chunk index decides which chunks a deleted snapshot
//! may take with it, and a prune pass removes chunks the index no longer
//! names.
//!
//! This crate holds the verified logic: the codec, the record serialization,
//! the chunking and hashing of file contents, the chunk index, and the
//! decision steps of the backup, restore, delete and prune pipelines.  The
//! surrounding process (file and network I/O, task scheduling, the command
//! line) hands plain byte values in and out.

pub mod backup;
pub mod chunks;
pub mod codec;
pub mod delete;
pub mod hashing;
pub mod hexenc;
pub mod indexes;
pub mod metadata;
pub mod msgpack;
pub mod only;
pub mod output;
pub mod permissions;
pub mod prune;
pub mod records;
pub mod repository;
pub mod restore;
pub mod storagedefs;
