//! Pruning: finding stored chunks the chunk index no longer names, and the
//! journals of interrupted backups, so both can be removed.
//!
//! A chunk blob lives at `key/chunks/<h[0..2]>/<h[2..]>`, so its logical
//! hash is the last path segment appended to the one before it.  A path
//! whose reconstructed hash is not a key in the index is orphaned.  A path
//! under the indexes directory whose final segment begins with `pending_`
//! is the journal of an interrupted backup and is orphaned too.

use vstd::prelude::*;
use crate::indexes::ChunkIndexMap;
use crate::msgpack::{clone_bytes, bytes_eq};
use crate::only::{lex_le, lex_le_exec, lemma_lex_le_total};

verus! {

/// Whether a path with the given bytes occurs in a list.
pub open spec fn has_path(s: Seq<Vec<u8>>, v: Seq<u8>) -> bool {
    exists|j: int| 0 <= j < s.len() && (#[trigger] s[j])@ == v
}

/// Sorts a list of paths byte-lexicographically and drops duplicates, as a
/// listing is shown: the result is strictly ascending and holds exactly the
/// paths of the input.
pub fn sort_dedup_paths(input: &Vec<Vec<u8>>) -> (out: Vec<Vec<u8>>)
    ensures
        forall|k: int|
            0 <= k < out@.len() - 1 ==> lex_le((#[trigger] out@[k])@, out@[k + 1]@) && out@[k]@
                != out@[k + 1]@,
        forall|v: Seq<u8>| #[trigger] has_path(out@, v) <==> has_path(input@, v),
{
    let mut out: Vec<Vec<u8>> = Vec::new();
    let n = input.len();
    let mut i: usize = 0;
    while i < n
        invariant
            i <= n,
            n == input@.len(),
            forall|k: int|
                0 <= k < out@.len() - 1 ==> lex_le((#[trigger] out@[k])@, out@[k + 1]@) && out@[k]@
                    != out@[k + 1]@,
            forall|v: Seq<u8>| #[trigger] has_path(out@, v) <==> has_path(input@.take(i as int), v),
        decreases n - i,
    {
        let ghost out0 = out@;
        let path = clone_bytes(&input[i]);
        let m = out.len();
        let mut k: usize = 0;
        while k < m && !lex_le_exec(path.as_slice(), out[k].as_slice())
            invariant
                k <= m,
                m == out@.len(),
                path@ == input@[i as int]@,
                i < n,
                n == input@.len(),
                forall|j: int|
                    0 <= j < k ==> lex_le((#[trigger] out@[j])@, path@) && out@[j]@ != path@,
            decreases m - k,
        {
            proof {
                lemma_lex_le_total(path@, out@[k as int]@);
                if out@[k as int]@ == path@ {
                    lemma_lex_le_total(path@, path@);
                }
            }
            k = k + 1;
        }
        if k < m && bytes_eq(out[k].as_slice(), path.as_slice()) {
            proof {
                assert(out@[k as int]@ == input@[i as int]@);
                assert(has_path(out@, input@[i as int]@));
                assert forall|v: Seq<u8>| #[trigger] has_path(out@, v) <==> has_path(
                    input@.take(i + 1),
                    v,
                ) by {
                    assert(input@.take(i + 1).drop_last() =~= input@.take(i as int));
                    if has_path(input@.take(i + 1), v) {
                        let j = choose|j: int|
                            0 <= j < input@.take(i + 1).len() && (#[trigger] input@.take(i + 1)[j])@
                                == v;
                        if j < i {
                            assert(input@.take(i as int)[j]@ == v);
                            assert(has_path(input@.take(i as int), v));
                        } else {
                            assert(v == input@[i as int]@);
                        }
                        assert(has_path(out@, v));
                    }
                    if has_path(out@, v) {
                        assert(has_path(input@.take(i as int), v));
                        let j = choose|j: int|
                            0 <= j < input@.take(i as int).len() && (#[trigger] input@.take(
                                i as int,
                            )[j])@ == v;
                        assert(input@.take(i + 1)[j]@ == v);
                        assert(has_path(input@.take(i + 1), v));
                    }
                }
            }
        } else {
            out.insert(k, path);
            proof {
                assert forall|a: int|
                    0 <= a < out@.len() - 1 implies (lex_le((#[trigger] out@[a])@, out@[a + 1]@)
                    && out@[a]@ != out@[a + 1]@) by {
                    if a < k as int - 1 {
                        assert(out@[a] == out0[a]);
                        assert(out@[a + 1] == out0[a + 1]);
                    } else if a == k as int - 1 {
                        assert(out@[a] == out0[a]);
                        assert(out@[a + 1]@ == input@[i as int]@);
                    } else if a == k as int {
                        assert(out@[a]@ == input@[i as int]@);
                        assert(out@[a + 1] == out0[a]);
                    } else {
                        assert(out@[a] == out0[a - 1]);
                        assert(out@[a + 1] == out0[a]);
                    }
                }
                assert forall|v: Seq<u8>| #[trigger] has_path(out@, v) <==> has_path(
                    input@.take(i + 1),
                    v,
                ) by {
                    assert(input@.take(i + 1).drop_last() =~= input@.take(i as int));
                    assert(out@[k as int]@ == input@[i as int]@);
                    assert(input@.take(i + 1)[i as int]@ == input@[i as int]@);
                    assert(has_path(input@.take(i + 1), input@[i as int]@));
                    if has_path(out@, v) {
                        let j = choose|j: int|
                            0 <= j < out@.len() && (#[trigger] out@[j])@ == v;
                        if j < k as int {
                            assert(out0[j]@ == v);
                            assert(has_path(out0, v));
                        } else if j > k as int {
                            assert(out0[j - 1]@ == v);
                            assert(has_path(out0, v));
                        }
                        if v != input@[i as int]@ {
                            assert(has_path(out0, v));
                            assert(has_path(input@.take(i as int), v));
                            let g = choose|g: int|
                                0 <= g < input@.take(i as int).len() && (#[trigger] input@.take(
                                    i as int,
                                )[g])@ == v;
                            assert(input@.take(i + 1)[g]@ == v);
                            assert(has_path(input@.take(i + 1), v));
                        }
                    }
                    if has_path(input@.take(i + 1), v) {
                        let j = choose|j: int|
                            0 <= j < input@.take(i + 1).len() && (#[trigger] input@.take(i + 1)[j])@
                                == v;
                        if j < i {
                            assert(input@.take(i as int)[j]@ == v);
                            assert(has_path(input@.take(i as int), v));
                            assert(has_path(out0, v));
                            let g = choose|g: int|
                                0 <= g < out0.len() && (#[trigger] out0[g])@ == v;
                            if g < k as int {
                                assert(out@[g]@ == v);
                            } else {
                                assert(out@[g + 1]@ == v);
                            }
                        } else {
                            assert(out@[k as int]@ == v);
                        }
                        assert(has_path(out@, v));
                    }
                }
            }
        }
        i = i + 1;
    }
    proof {
        assert(input@.take(n as int) =~= input@);
    }
    out
}

/// The position of the last `/` in `s`, or -1 when none occurs.
pub open spec fn last_sep(s: Seq<u8>) -> int
    decreases s.len(),
{
    if s.len() == 0 {
        -1
    } else if s.last() == 0x2f {
        s.len() - 1
    } else {
        last_sep(s.drop_last())
    }
}

proof fn lemma_last_sep_bounds(s: Seq<u8>)
    ensures
        -1 <= last_sep(s) < s.len(),
        last_sep(s) >= 0 ==> s[last_sep(s)] == 0x2f,
        forall|j: int| last_sep(s) < j < s.len() ==> s[j] != 0x2f,
    decreases s.len(),
{
    if s.len() > 0 && s.last() != 0x2f {
        lemma_last_sep_bounds(s.drop_last());
        assert(forall|j: int| 0 <= j < s.len() - 1 ==> s[j] == s.drop_last()[j]);
    }
}

/// The chunk hash a stored chunk path stands for: the two final path
/// segments, joined.  A path without two segments stands for itself.
pub open spec fn hash_of_chunk_path(s: Seq<u8>) -> Seq<u8> {
    if last_sep(s) < 0 {
        s
    } else {
        let l = last_sep(s);
        let front = s.take(l);
        let l2 = last_sep(front);
        front.skip(l2 + 1) + s.skip(l + 1)
    }
}

/// Finds the position after the last `/`, or zero when none occurs.
fn find_after_last_sep(s: &[u8]) -> (out: usize)
    ensures
        out == last_sep(s@) + 1,
{
    proof {
        lemma_last_sep_bounds(s@);
    }
    let mut i: usize = s.len();
    while i > 0
        invariant
            i <= s@.len(),
            forall|j: int| i <= j < s@.len() ==> s@[j] != 0x2f,
        decreases i,
    {
        if s[i - 1] == 0x2f {
            proof {
                lemma_last_sep_bounds(s@);
                assert(s@[i - 1] == 0x2f);
            }
            return i;
        }
        i = i - 1;
    }
    proof {
        assert(last_sep(s@) == -1) by {
            lemma_last_sep_bounds(s@);
        }
    }
    0
}

/// Reconstructs the chunk hash a stored chunk path stands for.
pub fn hash_from_chunk_path(path: &[u8]) -> (out: Vec<u8>)
    ensures
        out@ == hash_of_chunk_path(path@),
{
    proof {
        lemma_last_sep_bounds(path@);
    }
    let after = find_after_last_sep(path);
    if after == 0 {
        return vstd::slice::slice_to_vec(path);
    }
    let front = vstd::slice::slice_subrange(path, 0, after - 1);
    let tail = vstd::slice::slice_subrange(path, after, path.len());
    proof {
        lemma_last_sep_bounds(front@);
        assert(front@ =~= path@.take(last_sep(path@)));
        assert(tail@ =~= path@.skip(last_sep(path@) + 1));
    }
    let after2 = find_after_last_sep(front);
    let seg = vstd::slice::slice_subrange(front, after2, front.len());
    let mut out = vstd::slice::slice_to_vec(seg);
    out.extend_from_slice(tail);
    proof {
        assert(seg@ =~= front@.skip(last_sep(front@) + 1));
        assert(out@ =~= hash_of_chunk_path(path@));
    }
    out
}

/// The prefix that marks the journal of an in-progress backup.
pub open spec fn pending_prefix() -> Seq<u8> {
    seq![112u8, 101u8, 110u8, 100u8, 105u8, 110u8, 103u8, 95u8]
}

/// Whether a stored path is a pending-backup journal: its final segment
/// begins with `pending_`.
pub open spec fn is_pending_path(s: Seq<u8>) -> bool {
    pending_prefix().is_prefix_of(s.skip(last_sep(s) + 1))
}

/// Whether `path` names a pending-backup journal.
pub fn path_is_pending(path: &[u8]) -> (out: bool)
    ensures
        out == is_pending_path(path@),
{
    proof {
        lemma_last_sep_bounds(path@);
    }
    let after = find_after_last_sep(path);
    let seg = vstd::slice::slice_subrange(path, after, path.len());
    proof {
        assert(seg@ =~= path@.skip(last_sep(path@) + 1));
    }
    let p: [u8; 8] = [112u8, 101u8, 110u8, 100u8, 105u8, 110u8, 103u8, 95u8];
    proof {
        assert(p@ =~= pending_prefix());
    }
    crate::backup::bytes_is_prefix(seg, p.as_slice())
}

/// The backup hash a pending-journal path names: the final segment with the
/// `pending_` prefix stripped when present.  An empty result is no name.
pub open spec fn pending_hash_of(s: Seq<u8>) -> Seq<u8> {
    let name = s.skip(last_sep(s) + 1);
    if pending_prefix().is_prefix_of(name) {
        name.skip(8)
    } else {
        name
    }
}

/// Extracts the backup hash from a pending-journal path.
pub fn extract_pending_hash(path: &[u8]) -> (out: Option<Vec<u8>>)
    ensures
        out matches Some(v) ==> v@ == pending_hash_of(path@) && v@.len() > 0,
        out is None <==> pending_hash_of(path@).len() == 0,
{
    proof {
        lemma_last_sep_bounds(path@);
    }
    let after = find_after_last_sep(path);
    let seg = vstd::slice::slice_subrange(path, after, path.len());
    proof {
        assert(seg@ =~= path@.skip(last_sep(path@) + 1));
    }
    let p: [u8; 8] = [112u8, 101u8, 110u8, 100u8, 105u8, 110u8, 103u8, 95u8];
    proof {
        assert(p@ =~= pending_prefix());
    }
    let name: &[u8] = if crate::backup::bytes_is_prefix(seg, p.as_slice()) {
        vstd::slice::slice_subrange(seg, 8, seg.len())
    } else {
        seg
    };
    proof {
        assert(name@ =~= pending_hash_of(path@));
    }
    if name.len() == 0 {
        None
    } else {
        Some(vstd::slice::slice_to_vec(name))
    }
}

/// The chunk paths whose reconstructed hash the index does not name, in
/// listing order: the orphaned chunks.
pub open spec fn orphan_chunks(m: Map<Seq<u8>, u32>, paths: Seq<Vec<u8>>) -> Seq<Seq<u8>>
    decreases paths.len(),
{
    if paths.len() == 0 {
        Seq::empty()
    } else {
        (if !m.dom().contains(hash_of_chunk_path(paths[0]@)) {
            seq![paths[0]@]
        } else {
            Seq::empty()
        }) + orphan_chunks(m, paths.skip(1))
    }
}

/// The paths whose final segment begins with `pending_`, in listing order:
/// the journals of interrupted backups.
pub open spec fn pending_paths(paths: Seq<Vec<u8>>) -> Seq<Seq<u8>>
    decreases paths.len(),
{
    if paths.len() == 0 {
        Seq::empty()
    } else {
        (if is_pending_path(paths[0]@) {
            seq![paths[0]@]
        } else {
            Seq::empty()
        }) + pending_paths(paths.skip(1))
    }
}

/// Pruning never deletes a chunk whose hash is a key in the chunk index:
/// every selected chunk path reconstructs to a hash the index does not name.
pub proof fn lemma_prune_spares_indexed(m: Map<Seq<u8>, u32>, paths: Seq<Vec<u8>>)
    ensures
        forall|i: int|
            0 <= i < orphan_chunks(m, paths).len() ==> !m.dom().contains(
                hash_of_chunk_path(#[trigger] orphan_chunks(m, paths)[i]),
            ),
    decreases paths.len(),
{
    if paths.len() > 0 {
        lemma_prune_spares_indexed(m, paths.skip(1));
        let os = orphan_chunks(m, paths);
        let rest = orphan_chunks(m, paths.skip(1));
        assert forall|i: int| 0 <= i < os.len() implies !m.dom().contains(
            hash_of_chunk_path(#[trigger] os[i]),
        ) by {
            if !m.dom().contains(hash_of_chunk_path(paths[0]@)) {
                if i > 0 {
                    assert(os[i] == rest[i - 1]);
                }
            } else {
                assert(os[i] == rest[i]);
            }
        }
    }
}

/// Selects everything a prune removes: the listed chunk paths whose hash the
/// index does not name, then the listed index paths that are pending
/// journals, in listing order.
pub fn select_orphans(
    index: &ChunkIndexMap,
    chunk_paths: &Vec<Vec<u8>>,
    index_paths: &Vec<Vec<u8>>,
) -> (out: Vec<Vec<u8>>)
    ensures
        out@.map_values(|v: Vec<u8>| v@) == orphan_chunks(index@, chunk_paths@) + pending_paths(
            index_paths@,
        ),
        forall|i: int|
            0 <= i < orphan_chunks(index@, chunk_paths@).len() ==> !index@.dom().contains(
                hash_of_chunk_path(#[trigger] orphan_chunks(index@, chunk_paths@)[i]),
            ),
{
    let mut out: Vec<Vec<u8>> = Vec::new();
    let n = chunk_paths.len();
    let mut i: usize = 0;
    proof {
        assert(chunk_paths@.skip(0) =~= chunk_paths@);
        assert(out@.map_values(|v: Vec<u8>| v@) =~= Seq::<Seq<u8>>::empty());
    }
    while i < n
        invariant
            i <= n,
            n == chunk_paths@.len(),
            orphan_chunks(index@, chunk_paths@) == out@.map_values(|v: Vec<u8>| v@)
                + orphan_chunks(index@, chunk_paths@.skip(i as int)),
        decreases n - i,
    {
        let ghost out_views = out@.map_values(|v: Vec<u8>| v@);
        let hash = hash_from_chunk_path(chunk_paths[i].as_slice());
        proof {
            assert(chunk_paths@.skip(i as int)[0] == chunk_paths@[i as int]);
            assert(chunk_paths@.skip(i as int).skip(1) =~= chunk_paths@.skip(i + 1));
        }
        if !index.contains(hash.as_slice()) {
            out.push(clone_bytes(&chunk_paths[i]));
            proof {
                assert(out@.map_values(|v: Vec<u8>| v@) =~= out_views.push(
                    chunk_paths@[i as int]@,
                ));
                assert(orphan_chunks(index@, chunk_paths@) =~= out@.map_values(|v: Vec<u8>| v@)
                    + orphan_chunks(index@, chunk_paths@.skip(i + 1)));
            }
        } else {
            proof {
                assert(orphan_chunks(index@, chunk_paths@) =~= out@.map_values(|v: Vec<u8>| v@)
                    + orphan_chunks(index@, chunk_paths@.skip(i + 1)));
            }
        }
        i = i + 1;
    }
    proof {
        assert(chunk_paths@.skip(n as int) =~= Seq::<Vec<u8>>::empty());
        assert(out@.map_values(|v: Vec<u8>| v@) =~= orphan_chunks(index@, chunk_paths@));
    }
    let ghost chunk_part = out@.map_values(|v: Vec<u8>| v@);
    let m = index_paths.len();
    let mut j: usize = 0;
    proof {
        assert(index_paths@.skip(0) =~= index_paths@);
        assert(pending_paths(index_paths@.skip(0)) =~= pending_paths(index_paths@));
        assert(chunk_part + pending_paths(index_paths@) =~= out@.map_values(|v: Vec<u8>| v@)
            + pending_paths(index_paths@.skip(0)));
    }
    while j < m
        invariant
            j <= m,
            m == index_paths@.len(),
            chunk_part == orphan_chunks(index@, chunk_paths@),
            chunk_part + pending_paths(index_paths@) == out@.map_values(|v: Vec<u8>| v@)
                + pending_paths(index_paths@.skip(j as int)),
        decreases m - j,
    {
        let ghost out_views = out@.map_values(|v: Vec<u8>| v@);
        proof {
            assert(index_paths@.skip(j as int)[0] == index_paths@[j as int]);
            assert(index_paths@.skip(j as int).skip(1) =~= index_paths@.skip(j + 1));
        }
        if path_is_pending(index_paths[j].as_slice()) {
            out.push(clone_bytes(&index_paths[j]));
            proof {
                assert(out@.map_values(|v: Vec<u8>| v@) =~= out_views.push(
                    index_paths@[j as int]@,
                ));
                assert(chunk_part + pending_paths(index_paths@) =~= out@.map_values(
                    |v: Vec<u8>| v@,
                ) + pending_paths(index_paths@.skip(j + 1)));
            }
        } else {
            proof {
                assert(chunk_part + pending_paths(index_paths@) =~= out@.map_values(
                    |v: Vec<u8>| v@,
                ) + pending_paths(index_paths@.skip(j + 1)));
            }
        }
        j = j + 1;
    }
    proof {
        assert(index_paths@.skip(m as int) =~= Seq::<Vec<u8>>::empty());
        assert(pending_paths(index_paths@.skip(m as int)) =~= Seq::<Seq<u8>>::empty());
        assert(out@.map_values(|v: Vec<u8>| v@) =~= chunk_part + pending_paths(index_paths@));
        lemma_prune_spares_indexed(index@, chunk_paths@);
    }
    out
}

} // verus!
