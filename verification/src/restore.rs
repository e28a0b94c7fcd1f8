//! Restore decisions: resolving a backup selector against the summaries,
//! and choosing which local files a prune-local pass removes.
//!
//! A selector of at most eight characters is a hash prefix, resolved to the
//! first summary whose hash starts with it; anything longer is taken as a
//! full hash.  After a full restore with prune-local, a local file whose
//! relative path is not a key of the manifest tree is removed.

use vstd::prelude::*;
use crate::codec::CodecError;
use crate::metadata::{Backup, BackupObject, BackupSummary, tree_contains};
use crate::msgpack::clone_bytes;
use crate::backup::bytes_is_prefix;

verus! {

/// Resolves a backup selector against the summaries: a short selector (at
/// most eight bytes) names the first summary whose hash it prefixes; a
/// longer one is already the full hash.
pub fn resolve_backup_hash(summaries: &Vec<BackupSummary>, selector: &[u8]) -> (out: Result<
    Vec<u8>,
    CodecError,
>)
    ensures
        selector@.len() > 8 ==> (out matches Ok(v) && v@ == selector@),
        selector@.len() <= 8 ==> (out matches Ok(v) ==> exists|i: int|
            0 <= i < summaries@.len() && selector@.is_prefix_of(
                (#[trigger] summaries@[i]).hash@,
            ) && v@ == summaries@[i].hash@ && (forall|j: int|
                0 <= j < i ==> !selector@.is_prefix_of((#[trigger] summaries@[j]).hash@))),
        selector@.len() <= 8 && out is Err ==> out == Err::<Vec<u8>, CodecError>(
            CodecError::NotFound,
        ) && (forall|i: int|
            0 <= i < summaries@.len() ==> !selector@.is_prefix_of(
                (#[trigger] summaries@[i]).hash@,
            )),
{
    if selector.len() > 8 {
        return Ok(vstd::slice::slice_to_vec(selector));
    }
    let n = summaries.len();
    let mut i: usize = 0;
    while i < n
        invariant
            i <= n,
            n == summaries@.len(),
            selector@.len() <= 8,
            forall|j: int|
                0 <= j < i ==> !selector@.is_prefix_of((#[trigger] summaries@[j]).hash@),
        decreases n - i,
    {
        if bytes_is_prefix(summaries[i].hash.as_slice(), selector) {
            return Ok(clone_bytes(&summaries[i].hash));
        }
        i = i + 1;
    }
    Err(CodecError::NotFound)
}

/// The local relative paths a prune-local pass deletes: those walked under
/// the target directory that the manifest tree does not name.
pub open spec fn extra_local_paths(tree: Seq<(Vec<u8>, BackupObject)>, walked: Seq<Vec<u8>>) -> Seq<
    Seq<u8>,
>
    decreases walked.len(),
{
    if walked.len() == 0 {
        Seq::empty()
    } else {
        (if !tree_contains(tree, walked[0]@) {
            seq![walked[0]@]
        } else {
            Seq::empty()
        }) + extra_local_paths(tree, walked.skip(1))
    }
}

/// Selects the walked local paths the manifest does not name: the files a
/// prune-local pass removes, in walking order.  A path the manifest names
/// is never selected.
pub fn select_extra_files(backup: &Backup, walked: &Vec<Vec<u8>>) -> (out: Vec<Vec<u8>>)
    ensures
        out@.map_values(|v: Vec<u8>| v@) == extra_local_paths(backup.tree@, walked@),
        forall|i: int|
            0 <= i < out@.len() ==> !tree_contains(backup.tree@, (#[trigger] out@[i])@),
{
    let mut out: Vec<Vec<u8>> = Vec::new();
    let n = walked.len();
    let mut i: usize = 0;
    proof {
        assert(walked@.skip(0) =~= walked@);
        assert(out@.map_values(|v: Vec<u8>| v@) =~= Seq::<Seq<u8>>::empty());
    }
    while i < n
        invariant
            i <= n,
            n == walked@.len(),
            extra_local_paths(backup.tree@, walked@) == out@.map_values(|v: Vec<u8>| v@)
                + extra_local_paths(backup.tree@, walked@.skip(i as int)),
            forall|j: int|
                0 <= j < out@.len() ==> !tree_contains(backup.tree@, (#[trigger] out@[j])@),
        decreases n - i,
    {
        let ghost out_views = out@.map_values(|v: Vec<u8>| v@);
        proof {
            assert(walked@.skip(i as int)[0] == walked@[i as int]);
            assert(walked@.skip(i as int).skip(1) =~= walked@.skip(i + 1));
        }
        let mut named = false;
        let m = backup.tree.len();
        let mut j: usize = 0;
        while j < m && !named
            invariant
                j <= m,
                i < n,
                n == walked@.len(),
                m == backup.tree@.len(),
                named ==> tree_contains(backup.tree@, walked@[i as int]@),
                !named ==> forall|a: int|
                    0 <= a < j ==> (#[trigger] backup.tree@[a]).0@ != walked@[i as int]@,
            decreases m - j,
        {
            if crate::msgpack::bytes_eq(backup.tree[j].0.as_slice(), walked[i].as_slice()) {
                named = true;
            }
            j = j + 1;
        }
        if !named {
            proof {
                assert(!tree_contains(backup.tree@, walked@[i as int]@));
            }
            out.push(clone_bytes(&walked[i]));
            proof {
                assert(out@.map_values(|v: Vec<u8>| v@) =~= out_views.push(walked@[i as int]@));
                assert(extra_local_paths(backup.tree@, walked@) =~= out@.map_values(
                    |v: Vec<u8>| v@,
                ) + extra_local_paths(backup.tree@, walked@.skip(i + 1)));
            }
        } else {
            proof {
                assert(extra_local_paths(backup.tree@, walked@) =~= out@.map_values(
                    |v: Vec<u8>| v@,
                ) + extra_local_paths(backup.tree@, walked@.skip(i + 1)));
            }
        }
        i = i + 1;
    }
    proof {
        assert(walked@.skip(n as int) =~= Seq::<Vec<u8>>::empty());
        assert(out@.map_values(|v: Vec<u8>| v@) =~= extra_local_paths(backup.tree@, walked@));
    }
    out
}

/// Whether a local file already carries the manifest's content: restore
/// skips a file whose whole-content hash equals the recorded one.
pub fn needs_restore(local_hash: Option<&Vec<u8>>, recorded_hash: &[u8]) -> (out: bool)
    ensures
        out == match local_hash {
            Some(h) => h@ != recorded_hash@,
            None => true,
        },
{
    match local_hash {
        Some(h) => !crate::msgpack::bytes_eq(h.as_slice(), recorded_hash),
        None => true,
    }
}

} // verus!
