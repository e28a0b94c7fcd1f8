//! Deleting a backup: every chunk occurrence in its manifest gives one
//! reference back to the index, entries that reach zero are removed, and
//! exactly those chunks are scheduled for deletion from the store.
//!
//! A chunk referenced by another retained backup keeps an entry whose count
//! drops by the deleted backup's multiplicity; a chunk only this backup
//! referenced loses its entry and its blob.

use vstd::prelude::*;
use crate::indexes::ChunkIndexMap;
use crate::metadata::{Backup, BackupObject, BackupSummary};
use crate::msgpack::{bytes_eq, clone_bytes};

verus! {

/// The chunk-hash views of one manifest entry, in file order.
pub open spec fn object_chunk_views(o: BackupObject) -> Seq<Seq<u8>> {
    o.chunks@.map(|i: int, v: Vec<u8>| v@)
}

/// Every chunk occurrence of a manifest tree, entry by entry, in order.
/// A hash referenced several times appears several times.
pub open spec fn occurrences_of(tree: Seq<(Vec<u8>, BackupObject)>) -> Seq<Seq<u8>>
    decreases tree.len(),
{
    if tree.len() == 0 {
        Seq::empty()
    } else {
        object_chunk_views(tree[0].1) + occurrences_of(tree.skip(1))
    }
}

/// One reference given back for one hash: an absent entry is left alone, a
/// count of one (or less) removes the entry, a larger count drops by one.
pub open spec fn release_one(m: Map<Seq<u8>, u32>, h: Seq<u8>) -> Map<Seq<u8>, u32> {
    if !m.dom().contains(h) {
        m
    } else if m[h] <= 1 {
        m.remove(h)
    } else {
        m.insert(h, (m[h] - 1) as u32)
    }
}

/// The index after a run of occurrences is released, in order.
pub open spec fn release_all(m: Map<Seq<u8>, u32>, occs: Seq<Seq<u8>>) -> Map<Seq<u8>, u32>
    decreases occs.len(),
{
    if occs.len() == 0 {
        m
    } else {
        release_all(release_one(m, occs[0]), occs.skip(1))
    }
}

/// The hashes whose entries reach zero while a run of occurrences is
/// released, in the order they reach it.
pub open spec fn zeroed_of(m: Map<Seq<u8>, u32>, occs: Seq<Seq<u8>>) -> Seq<Seq<u8>>
    decreases occs.len(),
{
    if occs.len() == 0 {
        Seq::empty()
    } else {
        (if m.dom().contains(occs[0]) && m[occs[0]] <= 1 {
            seq![occs[0]]
        } else {
            Seq::empty()
        }) + zeroed_of(release_one(m, occs[0]), occs.skip(1))
    }
}

/// How many times `h` occurs in a run of occurrences.
pub open spec fn count_occ(occs: Seq<Seq<u8>>, h: Seq<u8>) -> nat
    decreases occs.len(),
{
    if occs.len() == 0 {
        0
    } else {
        (if occs[0] == h {
            1nat
        } else {
            0nat
        }) + count_occ(occs.skip(1), h)
    }
}

/// What deleting a backup does to one hash's entry: absent entries stay
/// absent; an entry outliving the backup's multiplicity keeps the
/// difference; an entry it exhausts is gone.
pub proof fn lemma_release_refcounts(m: Map<Seq<u8>, u32>, occs: Seq<Seq<u8>>, h: Seq<u8>)
    requires
        forall|g: Seq<u8>| #[trigger] m.dom().contains(g) ==> m[g] >= 1,
    ensures
        !m.dom().contains(h) ==> !release_all(m, occs).dom().contains(h),
        m.dom().contains(h) && m[h] > count_occ(occs, h) ==> release_all(m, occs).dom().contains(h)
            && release_all(m, occs)[h] == m[h] - count_occ(occs, h),
        m.dom().contains(h) && m[h] <= count_occ(occs, h) ==> !release_all(m, occs).dom().contains(
            h,
        ),
    decreases occs.len(),
{
    if occs.len() > 0 {
        let m2 = release_one(m, occs[0]);
        assert(forall|g: Seq<u8>| #[trigger] m2.dom().contains(g) ==> m2[g] >= 1);
        lemma_release_refcounts(m2, occs.skip(1), h);
        if h == occs[0] {
            assert(count_occ(occs, h) == 1 + count_occ(occs.skip(1), h));
            if m.dom().contains(h) {
                if m[h] <= 1 {
                    assert(!m2.dom().contains(h));
                } else {
                    assert(m2.dom().contains(h) && m2[h] == m[h] - 1);
                }
            } else {
                assert(m2 == m);
            }
        } else {
            assert(count_occ(occs, h) == count_occ(occs.skip(1), h));
            if m.dom().contains(h) {
                assert(m2.dom().contains(h) && m2[h] == m[h]);
            } else {
                assert(!m2.dom().contains(h));
            }
        }
    }
}

/// A hash is scheduled for deletion exactly when the backup's multiplicity
/// exhausts its entry.
pub proof fn lemma_zeroed_exact(m: Map<Seq<u8>, u32>, occs: Seq<Seq<u8>>, h: Seq<u8>)
    requires
        forall|g: Seq<u8>| #[trigger] m.dom().contains(g) ==> m[g] >= 1,
    ensures
        (exists|i: int| 0 <= i < zeroed_of(m, occs).len() && #[trigger] zeroed_of(m, occs)[i] == h)
            <==> (m.dom().contains(h) && m[h] <= count_occ(occs, h)),
    decreases occs.len(),
{
    if occs.len() > 0 {
        let m2 = release_one(m, occs[0]);
        assert(forall|g: Seq<u8>| #[trigger] m2.dom().contains(g) ==> m2[g] >= 1);
        lemma_zeroed_exact(m2, occs.skip(1), h);
        let zs = zeroed_of(m, occs);
        let rest = zeroed_of(m2, occs.skip(1));
        if m.dom().contains(occs[0]) && m[occs[0]] <= 1 {
            assert(zs =~= seq![occs[0]] + rest);
            if h == occs[0] {
                assert(zs[0] == h);
                assert(count_occ(occs, h) >= 1);
                assert(m[h] <= count_occ(occs, h));
            } else {
                assert forall|i: int| 0 <= i < zs.len() && #[trigger] zs[i] == h implies (
                m.dom().contains(h) && m[h] <= count_occ(occs, h)) by {
                    assert(rest[i - 1] == h);
                }
                if m.dom().contains(h) && m[h] <= count_occ(occs, h) {
                    assert(m2.dom().contains(h) && m2[h] == m[h]);
                    assert(count_occ(occs.skip(1), h) == count_occ(occs, h));
                    let i = choose|i: int| 0 <= i < rest.len() && #[trigger] rest[i] == h;
                    assert(zs[i + 1] == h);
                }
            }
        } else {
            assert(zs =~= rest);
            if h == occs[0] {
                if m.dom().contains(h) {
                    assert(m[h] > 1);
                    assert(m2 == m.insert(h, (m[h] - 1) as u32));
                    assert(m2[h] == m[h] - 1);
                    assert(count_occ(occs, h) == 1 + count_occ(occs.skip(1), h));
                    assert((m[h] <= count_occ(occs, h)) == (m2[h] <= count_occ(occs.skip(1), h)));
                } else {
                    assert(m2 == m);
                    assert(!m.dom().contains(h));
                }
            } else {
                if m.dom().contains(h) {
                    assert(m2.dom().contains(h) && m2[h] == m[h]);
                    assert(count_occ(occs.skip(1), h) == count_occ(occs, h));
                } else {
                    assert(!m2.dom().contains(h));
                }
            }
        }
    }
}

proof fn lemma_occurrences_push(tree: Seq<(Vec<u8>, BackupObject)>, x: (Vec<u8>, BackupObject))
    ensures
        occurrences_of(tree.push(x)) == occurrences_of(tree) + object_chunk_views(x.1),
    decreases tree.len(),
{
    if tree.len() == 0 {
        assert(tree.push(x).skip(1) =~= Seq::<(Vec<u8>, BackupObject)>::empty());
        assert(tree.push(x)[0] == x);
        assert(occurrences_of(tree.push(x).skip(1)) =~= Seq::<Seq<u8>>::empty());
        assert(occurrences_of(tree) =~= Seq::<Seq<u8>>::empty());
        assert(occurrences_of(tree.push(x)) =~= occurrences_of(tree) + object_chunk_views(x.1));
    } else {
        assert(tree.push(x).skip(1) =~= tree.skip(1).push(x));
        assert(tree.push(x)[0] == tree[0]);
        lemma_occurrences_push(tree.skip(1), x);
        assert(occurrences_of(tree.push(x)) =~= occurrences_of(tree) + object_chunk_views(x.1));
    }
}

/// Lists every chunk occurrence of a manifest, entry by entry, in order.
pub fn chunk_occurrences(backup: &Backup) -> (out: Vec<Vec<u8>>)
    ensures
        out@.map_values(|v: Vec<u8>| v@) == occurrences_of(backup.tree@),
{
    let mut out: Vec<Vec<u8>> = Vec::new();
    let n = backup.tree.len();
    let mut i: usize = 0;
    proof {
        assert(backup.tree@.take(0) =~= Seq::<(Vec<u8>, BackupObject)>::empty());
        assert(occurrences_of(backup.tree@.take(0)) =~= Seq::<Seq<u8>>::empty());
        assert(out@.map_values(|v: Vec<u8>| v@) =~= occurrences_of(backup.tree@.take(0)));
    }
    while i < n
        invariant
            i <= n,
            n == backup.tree@.len(),
            out@.map_values(|v: Vec<u8>| v@) == occurrences_of(backup.tree@.take(i as int)),
        decreases n - i,
    {
        let chunks = &backup.tree[i].1.chunks;
        let m = chunks.len();
        let mut j: usize = 0;
        while j < m
            invariant
                j <= m,
                i < n,
                n == backup.tree@.len(),
                m == backup.tree@[i as int].1.chunks@.len(),
                chunks == &backup.tree[i as int].1.chunks,
                out@.map_values(|v: Vec<u8>| v@) == occurrences_of(backup.tree@.take(i as int))
                    + object_chunk_views(backup.tree@[i as int].1).take(j as int),
            decreases m - j,
        {
            let ghost out_views_before = out@.map_values(|v: Vec<u8>| v@);
            out.push(clone_bytes(&chunks[j]));
            proof {
                assert(out@.map_values(|v: Vec<u8>| v@) =~= out_views_before.push(
                    chunks@[j as int]@,
                ));
                assert(object_chunk_views(backup.tree@[i as int].1).take(j + 1)
                    =~= object_chunk_views(backup.tree@[i as int].1).take(j as int).push(
                    chunks@[j as int]@,
                ));
                assert(out@.map_values(|v: Vec<u8>| v@) =~= occurrences_of(
                    backup.tree@.take(i as int),
                ) + object_chunk_views(backup.tree@[i as int].1).take(j + 1));
            }
            j = j + 1;
        }
        proof {
            assert(object_chunk_views(backup.tree@[i as int].1).take(m as int) =~= object_chunk_views(
                backup.tree@[i as int].1,
            ));
            assert(backup.tree@.take(i + 1) =~= backup.tree@.take(i as int).push(
                backup.tree@[i as int],
            ));
            lemma_occurrences_push(backup.tree@.take(i as int), backup.tree@[i as int]);
            assert(out@.map_values(|v: Vec<u8>| v@) =~= occurrences_of(backup.tree@.take(i + 1)));
        }
        i = i + 1;
    }
    proof {
        assert(backup.tree@.take(n as int) =~= backup.tree@);
    }
    out
}

/// Releases every chunk occurrence of a backup from the index and returns
/// the hashes whose entries reached zero: exactly the chunks whose blobs
/// the delete must remove, in the order they reached zero.
pub fn apply_delete(index: &mut ChunkIndexMap, backup: &Backup) -> (out: Vec<Vec<u8>>)
    requires
        old(index).wf(),
    ensures
        final(index).wf(),
        final(index)@ == release_all(old(index)@, occurrences_of(backup.tree@)),
        out@.map_values(|v: Vec<u8>| v@) == zeroed_of(old(index)@, occurrences_of(backup.tree@)),
{
    let ghost m0 = old(index)@;
    let ghost occs = occurrences_of(backup.tree@);
    let occ_list = chunk_occurrences(backup);
    let ghost occ_views = occ_list@.map_values(|v: Vec<u8>| v@);
    let mut out: Vec<Vec<u8>> = Vec::new();
    let n = occ_list.len();
    let mut i: usize = 0;
    proof {
        assert(occ_views.skip(0) =~= occ_views);
    }
    while i < n
        invariant
            i <= n,
            index.wf(),
            n == occ_list@.len(),
            occ_views == occ_list@.map_values(|v: Vec<u8>| v@),
            occs == occ_views,
            release_all(m0, occs) == release_all(index@, occ_views.skip(i as int)),
            zeroed_of(m0, occs) == out@.map_values(|v: Vec<u8>| v@) + zeroed_of(
                index@,
                occ_views.skip(i as int),
            ),
        decreases n - i,
    {
        let ghost mi = index@;
        let hash = &occ_list[i];
        let removed = index.release_chunk(hash.as_slice());
        proof {
            assert(occ_views.skip(i as int)[0] == occ_views[i as int]);
            assert(occ_views.skip(i as int).skip(1) =~= occ_views.skip(i + 1));
            assert(index@ =~= release_one(mi, occ_views[i as int]));
        }
        if removed {
            out.push(clone_bytes(&occ_list[i]));
        }
        proof {
            assert(zeroed_of(m0, occs) =~= out@.map_values(|v: Vec<u8>| v@) + zeroed_of(
                index@,
                occ_views.skip(i + 1),
            ));
        }
        i = i + 1;
    }
    proof {
        assert(occ_views.skip(n as int) =~= Seq::<Seq<u8>>::empty());
        assert(zeroed_of(m0, occs) =~= out@.map_values(|v: Vec<u8>| v@));
    }
    out
}

/// The summaries list with every record of the given backup hash removed,
/// order otherwise kept.
pub open spec fn without_hash(list: Seq<BackupSummary>, h: Seq<u8>) -> Seq<BackupSummary>
    decreases list.len(),
{
    if list.len() == 0 {
        Seq::empty()
    } else {
        (if list[0].hash@ == h {
            Seq::empty()
        } else {
            seq![list[0]]
        }) + without_hash(list.skip(1), h)
    }
}

proof fn lemma_without_hash_push(list: Seq<BackupSummary>, h: Seq<u8>, x: BackupSummary)
    ensures
        without_hash(list.push(x), h) == without_hash(list, h) + (if x.hash@ == h {
            Seq::<BackupSummary>::empty()
        } else {
            seq![x]
        }),
    decreases list.len(),
{
    if list.len() == 0 {
        assert(list.push(x).skip(1) =~= Seq::<BackupSummary>::empty());
        assert(list.push(x)[0] == x);
        assert(without_hash(list.push(x).skip(1), h) =~= Seq::<BackupSummary>::empty());
        assert(without_hash(list, h) =~= Seq::<BackupSummary>::empty());
        assert(without_hash(list.push(x), h) =~= without_hash(list, h) + (if x.hash@ == h {
            Seq::<BackupSummary>::empty()
        } else {
            seq![x]
        }));
    } else {
        assert(list.push(x).skip(1) =~= list.skip(1).push(x));
        assert(list.push(x)[0] == list[0]);
        lemma_without_hash_push(list.skip(1), h, x);
        assert(without_hash(list.push(x), h) =~= without_hash(list, h) + (if x.hash@ == h {
            Seq::<BackupSummary>::empty()
        } else {
            seq![x]
        }));
    }
}

/// Drops the summary of the deleted backup from the summaries list, keeping
/// every other record in order.
pub fn remove_backup_summary(summaries: Vec<BackupSummary>, hash: &[u8]) -> (out: Vec<
    BackupSummary,
>)
    ensures
        out@ == without_hash(summaries@, hash@),
{
    let ghost orig = summaries@;
    let mut input = summaries;
    let mut out: Vec<BackupSummary> = Vec::new();
    let ghost mut i: int = 0;
    proof {
        assert(orig.take(0) =~= Seq::<BackupSummary>::empty());
        assert(out@ =~= without_hash(orig.take(0), hash@));
        assert(input@ =~= orig.skip(0));
    }
    while input.len() > 0
        invariant
            0 <= i <= orig.len(),
            input@ == orig.skip(i),
            out@ == without_hash(orig.take(i), hash@),
        decreases input@.len(),
    {
        let s = input.remove(0);
        proof {
            assert(s == orig[i]);
            assert(input@ =~= orig.skip(i + 1));
        }
        let keep = !bytes_eq(s.hash.as_slice(), hash);
        let ghost out_before = out@;
        if keep {
            out.push(s);
        }
        proof {
            assert(orig.take(i + 1) =~= orig.take(i).push(orig[i]));
            lemma_without_hash_push(orig.take(i), hash@, orig[i]);
            if keep {
                assert(out@ =~= out_before.push(orig[i]));
                assert(without_hash(orig.take(i + 1), hash@) =~= without_hash(
                    orig.take(i),
                    hash@,
                ).push(orig[i]));
            } else {
                assert(without_hash(orig.take(i + 1), hash@) =~= without_hash(orig.take(i), hash@));
            }
            assert(out@ =~= without_hash(orig.take(i + 1), hash@));
            i = i + 1;
        }
    }
    proof {
        assert(orig.take(i) =~= orig);
    }
    out
}

} // verus!
