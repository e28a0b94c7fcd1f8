//! The repository's records: snapshot manifests, their summaries, the
//! per-chunk reference counts, and the journal of an in-progress backup.
//!
//! Text fields (messages, hashes, paths, the author) are held as UTF-8
//! bytes, exactly as they stand in the serialized records.

use vstd::prelude::*;

verus! {

/// One chunk's entry in the chunk index: how many stored files reference it.
#[derive(Clone, Copy, Debug, PartialEq, Eq, Structural)]
pub struct ChunkIndex {
    pub refcount: u32,
}

/// A lightweight, chronological record of one backup: enough to list and to
/// resolve short hashes.  `timestamp` and `size` are absent in records
/// written by older versions and stay optional.
#[derive(Clone, Debug, PartialEq, Eq)]
pub struct BackupSummary {
    pub message: Vec<u8>,
    pub hash: Vec<u8>,
    pub timestamp: Option<u64>,
    pub size: Option<u64>,
}

/// One file in a backup manifest: its whole-content hash, length,
/// permission bits, and the ordered chunk hashes whose contents concatenate
/// to the file.
#[derive(Clone, Debug, PartialEq, Eq)]
pub struct BackupObject {
    pub hash: Vec<u8>,
    pub size: u64,
    pub content_type: Vec<u8>,
    pub permissions: u32,
    pub chunks: Vec<Vec<u8>>,
}

/// A snapshot manifest: identity, provenance, and the tree mapping each
/// relative path to its file record.  Paths are unique within the tree.
#[derive(Clone, Debug, PartialEq, Eq)]
pub struct Backup {
    pub message: Vec<u8>,
    pub hash: Vec<u8>,
    pub timestamp: u64,
    pub author: Vec<u8>,
    pub tree: Vec<(Vec<u8>, BackupObject)>,
}

/// The journal of an in-progress backup, rewritten periodically so an
/// interrupted run can be inspected and cleaned up.
#[derive(Clone, Debug, PartialEq, Eq)]
pub struct PendingBackup {
    pub message: Vec<u8>,
    pub compress: i32,
    pub chunk_size: u64,
    pub concurrency: u64,
    pub ignore_patterns: Vec<Vec<u8>>,
    pub processed_chunks: Vec<Vec<u8>>,
}

/// The user's configuration: the author string recorded in every backup.
#[derive(Clone, Debug, PartialEq, Eq)]
pub struct Config {
    pub author: Vec<u8>,
}

/// A string fits the serialized form when its length has a MessagePack
/// width.
pub open spec fn str_fits(s: Seq<u8>) -> bool {
    s.len() < 0x100000000
}

pub open spec fn summary_wf(s: BackupSummary) -> bool {
    str_fits(s.message@) && str_fits(s.hash@)
}

pub open spec fn summaries_wf(list: Seq<BackupSummary>) -> bool {
    &&& list.len() < 0x100000000
    &&& forall|i: int| 0 <= i < list.len() ==> summary_wf(#[trigger] list[i])
}

pub open spec fn object_wf(o: BackupObject) -> bool {
    &&& str_fits(o.hash@)
    &&& str_fits(o.content_type@)
    &&& o.chunks@.len() < 0x100000000
    &&& forall|i: int| 0 <= i < o.chunks@.len() ==> str_fits(#[trigger] o.chunks@[i]@)
}

/// The paths of a manifest tree, in entry order.
pub open spec fn tree_keys(tree: Seq<(Vec<u8>, BackupObject)>) -> Seq<Seq<u8>> {
    tree.map(|i: int, e: (Vec<u8>, BackupObject)| e.0@)
}

/// Whether a tree holds each path at most once.
pub open spec fn tree_keys_unique(tree: Seq<(Vec<u8>, BackupObject)>) -> bool {
    forall|i: int, j: int|
        0 <= i < j < tree.len() ==> (#[trigger] tree[i]).0@ != (#[trigger] tree[j]).0@
}

/// Whether a tree holds an entry for `path`.
pub open spec fn tree_contains(tree: Seq<(Vec<u8>, BackupObject)>, path: Seq<u8>) -> bool {
    exists|i: int| 0 <= i < tree.len() && (#[trigger] tree[i]).0@ == path
}

/// The object a tree holds for `path`.
pub open spec fn tree_get(tree: Seq<(Vec<u8>, BackupObject)>, path: Seq<u8>) -> BackupObject {
    tree[choose|i: int| 0 <= i < tree.len() && (#[trigger] tree[i]).0@ == path].1
}

pub open spec fn backup_wf(b: Backup) -> bool {
    &&& str_fits(b.message@)
    &&& str_fits(b.hash@)
    &&& str_fits(b.author@)
    &&& b.tree@.len() < 0x100000000
    &&& forall|i: int| 0 <= i < b.tree@.len() ==> str_fits((#[trigger] b.tree@[i]).0@) && object_wf(
        b.tree@[i].1,
    )
    &&& tree_keys_unique(b.tree@)
}

pub open spec fn pending_wf(p: PendingBackup) -> bool {
    &&& str_fits(p.message@)
    &&& p.ignore_patterns@.len() < 0x100000000
    &&& forall|i: int| 0 <= i < p.ignore_patterns@.len() ==> str_fits(
        (#[trigger] p.ignore_patterns@[i])@,
    )
    &&& p.processed_chunks@.len() < 0x100000000
    &&& forall|i: int| 0 <= i < p.processed_chunks@.len() ==> str_fits(
        (#[trigger] p.processed_chunks@[i])@,
    )
}

pub open spec fn config_wf(c: Config) -> bool {
    str_fits(c.author@)
}

/// Whether two string lists hold the same strings, compared by bytes.
pub open spec fn str_list_eq(a: Seq<Vec<u8>>, b: Seq<Vec<u8>>) -> bool {
    &&& a.len() == b.len()
    &&& forall|i: int| 0 <= i < a.len() ==> (#[trigger] a[i])@ == b[i]@
}

/// Whether two summaries hold the same contents, compared by bytes.
pub open spec fn summary_eq(a: BackupSummary, b: BackupSummary) -> bool {
    &&& a.message@ == b.message@
    &&& a.hash@ == b.hash@
    &&& a.timestamp == b.timestamp
    &&& a.size == b.size
}

/// Whether two summary lists hold the same records, compared by contents.
pub open spec fn summaries_eq(a: Seq<BackupSummary>, b: Seq<BackupSummary>) -> bool {
    &&& a.len() == b.len()
    &&& forall|i: int| 0 <= i < a.len() ==> summary_eq(#[trigger] a[i], b[i])
}

/// Whether two file records hold the same contents, compared by bytes.
pub open spec fn object_eq(a: BackupObject, b: BackupObject) -> bool {
    &&& a.hash@ == b.hash@
    &&& a.size == b.size
    &&& a.content_type@ == b.content_type@
    &&& a.permissions == b.permissions
    &&& str_list_eq(a.chunks@, b.chunks@)
}

/// Whether two manifests hold the same contents, compared by bytes.
pub open spec fn backup_eq(a: Backup, b: Backup) -> bool {
    &&& a.message@ == b.message@
    &&& a.hash@ == b.hash@
    &&& a.timestamp == b.timestamp
    &&& a.author@ == b.author@
    &&& a.tree@.len() == b.tree@.len()
    &&& forall|i: int|
        0 <= i < a.tree@.len() ==> (#[trigger] a.tree@[i]).0@ == b.tree@[i].0@ && object_eq(
            a.tree@[i].1,
            b.tree@[i].1,
        )
}

/// Whether two journals hold the same contents, compared by bytes.
pub open spec fn pending_eq(a: PendingBackup, b: PendingBackup) -> bool {
    &&& a.message@ == b.message@
    &&& a.compress == b.compress
    &&& a.chunk_size == b.chunk_size
    &&& a.concurrency == b.concurrency
    &&& str_list_eq(a.ignore_patterns@, b.ignore_patterns@)
    &&& str_list_eq(a.processed_chunks@, b.processed_chunks@)
}

/// Whether two configurations hold the same contents, compared by bytes.
pub open spec fn config_eq(a: Config, b: Config) -> bool {
    a.author@ == b.author@
}

impl Backup {
    /// Records `object` under `path`, replacing an entry already held for
    /// the same path, as the writer does when a file finishes.
    pub fn insert_object(&mut self, path: Vec<u8>, object: BackupObject)
        requires
            tree_keys_unique(old(self).tree@),
        ensures
            tree_keys_unique(final(self).tree@),
            tree_contains(final(self).tree@, path@),
            forall|q: Seq<u8>|
                q != path@ ==> (#[trigger] tree_contains(final(self).tree@, q) == tree_contains(
                    old(self).tree@,
                    q,
                )),
            forall|i: int|
                0 <= i < final(self).tree@.len() && (#[trigger] final(self).tree@[i]).0@ != path@
                    ==> exists|j: int|
                    0 <= j < old(self).tree@.len() && #[trigger] old(self).tree@[j]
                        == final(self).tree@[i],
            exists|i: int|
                0 <= i < final(self).tree@.len() && (#[trigger] final(self).tree@[i]).0@ == path@
                    && final(self).tree@[i].1 == object,
            final(self).message == old(self).message,
            final(self).hash == old(self).hash,
            final(self).timestamp == old(self).timestamp,
            final(self).author == old(self).author,
    {
        let n = self.tree.len();
        let mut i: usize = 0;
        while i < n
            invariant
                n == self.tree@.len(),
                i <= n,
                *self == *old(self),
                tree_keys_unique(old(self).tree@),
                forall|j: int| 0 <= j < i ==> (#[trigger] self.tree@[j]).0@ != path@,
            decreases n - i,
        {
            if crate::msgpack::bytes_eq(self.tree[i].0.as_slice(), path.as_slice()) {
                let pair = self.tree.remove(i);
                self.tree.insert(i, (pair.0, object));
                proof {
                    assert(final(self).tree@ =~= old(self).tree@.update(
                        i as int,
                        (old(self).tree@[i as int].0, object),
                    ));
                    assert(forall|k: int|
                        0 <= k < final(self).tree@.len() ==> (#[trigger] final(self).tree@[k]).0@
                            == old(self).tree@[k].0@);
                    assert((final(self).tree@[i as int]).0@ == path@);
                    assert forall|a: int, b: int|
                        0 <= a < b < final(self).tree@.len() implies (#[trigger] final(self).tree@[a]).0@ != (#[trigger] final(self).tree@[b]).0@ by {
                        assert((old(self).tree@[a]).0@ != (old(self).tree@[b]).0@);
                    }
                    assert forall|q: Seq<u8>|
                        q != path@ implies (#[trigger] tree_contains(final(self).tree@, q)
                        == tree_contains(old(self).tree@, q)) by {
                        if tree_contains(final(self).tree@, q) {
                            let k = choose|k: int|
                                0 <= k < final(self).tree@.len() && (#[trigger] final(self).tree@[k]).0@ == q;
                            assert(old(self).tree@[k].0@ == q);
                        }
                        if tree_contains(old(self).tree@, q) {
                            let k = choose|k: int|
                                0 <= k < old(self).tree@.len() && (#[trigger] old(self).tree@[k]).0@ == q;
                            assert(final(self).tree@[k].0@ == q);
                        }
                    }
                }
                return ;
            }
            i = i + 1;
        }
        self.tree.push((path, object));
        proof {
            assert((final(self).tree@[n as int]).0@ == path@);
            assert forall|q: Seq<u8>|
                q != path@ implies (#[trigger] tree_contains(final(self).tree@, q) == tree_contains(
                old(self).tree@,
                q,
            )) by {
                if tree_contains(final(self).tree@, q) {
                    let k = choose|k: int|
                        0 <= k < final(self).tree@.len() && (#[trigger] final(self).tree@[k]).0@
                            == q;
                    assert(k < n);
                    assert(old(self).tree@[k].0@ == q);
                }
                if tree_contains(old(self).tree@, q) {
                    let k = choose|k: int|
                        0 <= k < old(self).tree@.len() && (#[trigger] old(self).tree@[k]).0@ == q;
                    assert(final(self).tree@[k].0@ == q);
                }
            }
        }
    }
}

} // verus!
