//! The chunk index: for every stored chunk hash, how many file references
//! the repository holds.  It is kept whole in memory, rewritten whole after
//! every backup or delete, and persisted as one encoded blob.
//!
//! Abstractly the index is a map from chunk hash to reference count, with
//! every count at least one: an entry whose count would reach zero is
//! removed together with the decision to delete its blob.

use vstd::prelude::*;
use crate::metadata::{ChunkIndex, str_fits};
use crate::msgpack::{
    mp_str, mp_uint, mp_map_header, write_str, write_uint, write_map_header, read_str, read_uint,
    read_map_header, skip_value, bytes_eq, encoded_at, lemma_encoded_at_split,
};
use crate::records::{key_refcount, write_key_refcount, key_refcount_bytes};

verus! {

/// The abstract contents of a run of index entries: hash to count, later
/// entries shadowing earlier ones (well-formed runs have no repeats).
pub open spec fn map_of(entries: Seq<(Vec<u8>, ChunkIndex)>) -> Map<Seq<u8>, u32>
    decreases entries.len(),
{
    if entries.len() == 0 {
        Map::empty()
    } else {
        map_of(entries.drop_last()).insert(entries.last().0@, entries.last().1.refcount)
    }
}

/// Whether a run of entries names each hash once.
pub open spec fn entries_unique(entries: Seq<(Vec<u8>, ChunkIndex)>) -> bool {
    forall|i: int, j: int|
        0 <= i < j < entries.len() ==> (#[trigger] entries[i]).0@ != (#[trigger] entries[j]).0@
}

pub proof fn lemma_map_of_props(entries: Seq<(Vec<u8>, ChunkIndex)>)
    ensures
        forall|h: Seq<u8>|
            #[trigger] map_of(entries).dom().contains(h) <==> exists|i: int|
                0 <= i < entries.len() && (#[trigger] entries[i]).0@ == h,
        entries_unique(entries) ==> forall|i: int|
            0 <= i < entries.len() ==> map_of(entries)[(#[trigger] entries[i]).0@]
                == entries[i].1.refcount,
    decreases entries.len(),
{
    if entries.len() > 0 {
        lemma_map_of_props(entries.drop_last());
        assert(map_of(entries) == map_of(entries.drop_last()).insert(
            entries.last().0@,
            entries.last().1.refcount,
        ));
        assert forall|h: Seq<u8>| #[trigger]
            map_of(entries).dom().contains(h) implies exists|i: int|
            0 <= i < entries.len() && (#[trigger] entries[i]).0@ == h by {
            if h == entries.last().0@ {
                assert(entries[entries.len() - 1].0@ == h);
            } else {
                assert(map_of(entries.drop_last()).dom().contains(h));
                let i = choose|i: int|
                    0 <= i < entries.drop_last().len() && (#[trigger] entries.drop_last()[i]).0@
                        == h;
                assert(entries.drop_last()[i] == entries[i]);
                assert(entries[i].0@ == h);
            }
        }
        assert forall|h: Seq<u8>|
            (exists|i: int|
                0 <= i < entries.len() && (#[trigger] entries[i]).0@ == h) implies #[trigger] map_of(
            entries,
        ).dom().contains(h) by {
            let i = choose|i: int| 0 <= i < entries.len() && (#[trigger] entries[i]).0@ == h;
            if i < entries.len() - 1 {
                assert(entries.drop_last()[i].0@ == h);
            }
        }
        if entries_unique(entries) {
            assert(entries_unique(entries.drop_last())) by {
                assert(forall|a: int, b: int|
                    0 <= a < b < entries.drop_last().len() ==> (#[trigger] entries.drop_last()[a]).0@
                        != (#[trigger] entries.drop_last()[b]).0@) by {
                    assert(forall|a: int|
                        0 <= a < entries.drop_last().len() ==> #[trigger] entries.drop_last()[a]
                            == entries[a]);
                }
            }
            assert forall|i: int| 0 <= i < entries.len() implies map_of(entries)[(
            #[trigger] entries[i]).0@] == entries[i].1.refcount by {
                if i < entries.len() - 1 {
                    assert(entries.drop_last()[i] == entries[i]);
                    assert(entries[i].0@ != entries.last().0@);
                }
            }
        }
    }
}

pub proof fn lemma_map_of_remove(entries: Seq<(Vec<u8>, ChunkIndex)>, i: int)
    requires
        entries_unique(entries),
        0 <= i < entries.len(),
    ensures
        map_of(entries.remove(i)) =~= map_of(entries).remove(entries[i].0@),
    decreases entries.len(),
{
    lemma_map_of_props(entries);
    lemma_map_of_props(entries.drop_last());
    lemma_map_of_props(entries.remove(i));
    if i == entries.len() - 1 {
        assert(entries.remove(i) =~= entries.drop_last());
        assert(!map_of(entries.drop_last()).dom().contains(entries[i].0@));
        assert(map_of(entries.remove(i)) =~= map_of(entries).remove(entries[i].0@));
    } else {
        assert(entries.remove(i).drop_last() =~= entries.drop_last().remove(i));
        assert(entries.remove(i).last() == entries.last());
        lemma_map_of_remove(entries.drop_last(), i);
        assert(map_of(entries.remove(i)) =~= map_of(entries.drop_last()).remove(
            entries[i].0@,
        ).insert(entries.last().0@, entries.last().1.refcount));
        assert(entries[i].0@ != entries.last().0@);
        assert(map_of(entries.remove(i)) =~= map_of(entries).remove(entries[i].0@));
    }
}

/// The in-memory chunk index.
pub struct ChunkIndexMap {
    entries: Vec<(Vec<u8>, ChunkIndex)>,
}

impl ChunkIndexMap {
    /// The index as a map from chunk hash to reference count.
    pub closed spec fn view(&self) -> Map<Seq<u8>, u32> {
        map_of(self.entries@)
    }

    /// Well-formed: each hash at most once, every count at least one, and
    /// every hash of serializable length.
    pub closed spec fn wf(&self) -> bool {
        &&& entries_unique(self.entries@)
        &&& forall|i: int|
            0 <= i < self.entries@.len() ==> (#[trigger] self.entries@[i]).1.refcount >= 1
        &&& forall|i: int| 0 <= i < self.entries@.len() ==> str_fits((#[trigger] self.entries@[i]).0@)
    }

    /// How many entries the index holds.
    pub closed spec fn spec_len(&self) -> nat {
        self.entries@.len()
    }

    pub fn new() -> (out: ChunkIndexMap)
        ensures
            out.wf(),
            out@ == Map::<Seq<u8>, u32>::empty(),
            out.spec_len() == 0,
    {
        ChunkIndexMap { entries: Vec::new() }
    }

    pub fn len(&self) -> (out: usize)
        ensures
            out == self.spec_len(),
    {
        self.entries.len()
    }

    /// The position of `hash` among the entries, if it is present.
    fn find(&self, hash: &[u8]) -> (out: Option<usize>)
        ensures
            out matches Some(i) ==> i < self.entries@.len() && self.entries@[i as int].0@ == hash@,
            out is None ==> forall|i: int|
                0 <= i < self.entries@.len() ==> (#[trigger] self.entries@[i]).0@ != hash@,
    {
        let n = self.entries.len();
        let mut i: usize = 0;
        while i < n
            invariant
                i <= n,
                n == self.entries@.len(),
                forall|j: int| 0 <= j < i ==> (#[trigger] self.entries@[j]).0@ != hash@,
            decreases n - i,
        {
            if bytes_eq(self.entries[i].0.as_slice(), hash) {
                return Some(i);
            }
            i = i + 1;
        }
        None
    }

    /// Whether the index holds an entry for `hash`.
    pub fn contains(&self, hash: &[u8]) -> (out: bool)
        ensures
            out == self@.dom().contains(hash@),
    {
        proof {
            lemma_map_of_props(self.entries@);
        }
        match self.find(hash) {
            Some(_) => true,
            None => false,
        }
    }

    /// The reference count recorded for `hash`, if any.
    pub fn get_refcount(&self, hash: &[u8]) -> (out: Option<u32>)
        requires
            self.wf(),
        ensures
            out matches Some(rc) ==> self@.dom().contains(hash@) && self@[hash@] == rc,
            out is None ==> !self@.dom().contains(hash@),
    {
        proof {
            lemma_map_of_props(self.entries@);
        }
        match self.find(hash) {
            Some(i) => Some(self.entries[i].1.refcount),
            None => None,
        }
    }

    /// Records one more reference to `hash`: an absent entry is created and
    /// set to one; a present entry's count rises by one (a count already at
    /// the u32 ceiling stays there).  Returns whether the hash was already
    /// present: a deduplication hit.
    pub fn record_chunk(&mut self, hash: Vec<u8>) -> (dedup: bool)
        requires
            old(self).wf(),
            str_fits(hash@),
        ensures
            final(self).wf(),
            dedup == old(self)@.dom().contains(hash@),
            final(self)@ =~= old(self)@.insert(
                hash@,
                if old(self)@.dom().contains(hash@) {
                    if old(self)@[hash@] == u32::MAX {
                        u32::MAX
                    } else {
                        (old(self)@[hash@] + 1) as u32
                    }
                } else {
                    1u32
                },
            ),
            final(self)@.dom() =~= old(self)@.dom().insert(hash@),
            final(self).spec_len() == old(self).spec_len() + (if old(self)@.dom().contains(
                hash@,
            ) {
                0int
            } else {
                1int
            }),
    {
        proof {
            lemma_map_of_props(self.entries@);
        }
        match self.find(hash.as_slice()) {
            Some(i) => {
                let pair = self.entries.remove(i);
                let rc = pair.1.refcount;
                let new_rc: u32 = if rc == u32::MAX {
                    u32::MAX
                } else {
                    rc + 1
                };
                proof {
                    lemma_map_of_remove(old(self).entries@, i as int);
                    assert(old(self).entries@[i as int].0@ == hash@);
                    assert(old(self)@[hash@] == rc);
                    assert(forall|a: int|
                        0 <= a < self.entries@.len() ==> #[trigger] self.entries@[a] == (if a
                            < i as int {
                            old(self).entries@[a]
                        } else {
                            old(self).entries@[a + 1]
                        }));
                }
                self.entries.push((pair.0, ChunkIndex { refcount: new_rc }));
                proof {
                    let e2 = self.entries@;
                    assert(e2.drop_last() =~= old(self).entries@.remove(i as int));
                    assert(e2.last().0@ == hash@);
                    assert(map_of(e2) == map_of(e2.drop_last()).insert(
                        e2.last().0@,
                        e2.last().1.refcount,
                    ));
                    assert(final(self)@ =~= old(self)@.remove(hash@).insert(hash@, new_rc));
                    assert(old(self)@.remove(hash@).insert(hash@, new_rc) =~= old(self)@.insert(
                        hash@,
                        new_rc,
                    ));
                    assert forall|a: int, b: int|
                        0 <= a < b < e2.len() implies (#[trigger] e2[a]).0@ != (
                    #[trigger] e2[b]).0@ by {
                        if b == e2.len() - 1 {
                            if a < i {
                                assert(e2[a] == old(self).entries@[a]);
                                assert(old(self).entries@[a].0@ != old(self).entries@[i as int].0@);
                            } else {
                                assert(e2[a] == old(self).entries@[a + 1]);
                                assert(old(self).entries@[a + 1].0@ != old(
                                    self,
                                ).entries@[i as int].0@);
                            }
                        }
                    }
                    lemma_map_of_props(e2);
                }
                true
            },
            None => {
                self.entries.push((hash, ChunkIndex { refcount: 1 }));
                proof {
                    let e2 = self.entries@;
                    assert(e2.drop_last() =~= old(self).entries@);
                    assert(map_of(e2) == map_of(e2.drop_last()).insert(
                        e2.last().0@,
                        e2.last().1.refcount,
                    ));
                    assert(final(self)@ =~= old(self)@.insert(hash@, 1u32));
                    assert forall|a: int, b: int|
                        0 <= a < b < e2.len() implies (#[trigger] e2[a]).0@ != (
                    #[trigger] e2[b]).0@ by {
                        if b == e2.len() - 1 {
                            assert(e2[a] == old(self).entries@[a]);
                        }
                    }
                }
                false
            },
        }
    }

    /// Adds an entry for a hash the index does not hold yet, with the given
    /// count, as reading a serialized index does.
    pub fn insert_new(&mut self, hash: Vec<u8>, refcount: u32)
        requires
            old(self).wf(),
            str_fits(hash@),
            !old(self)@.dom().contains(hash@),
            refcount >= 1,
        ensures
            final(self).wf(),
            final(self)@ =~= old(self)@.insert(hash@, refcount),
            final(self).spec_len() == old(self).spec_len() + 1,
    {
        proof {
            lemma_map_of_props(self.entries@);
        }
        self.entries.push((hash, ChunkIndex { refcount }));
        proof {
            let e2 = self.entries@;
            assert(e2.drop_last() =~= old(self).entries@);
            assert(map_of(e2) == map_of(e2.drop_last()).insert(
                e2.last().0@,
                e2.last().1.refcount,
            ));
            assert(final(self)@ =~= old(self)@.insert(hash@, refcount));
            assert forall|a: int, b: int|
                0 <= a < b < e2.len() implies (#[trigger] e2[a]).0@ != (#[trigger] e2[b]).0@ by {
                if b == e2.len() - 1 {
                    assert(e2[a] == old(self).entries@[a]);
                }
            }
        }
    }

    /// Takes one reference away from `hash`, as deleting a backup does for
    /// each chunk occurrence.  An absent entry is left alone.  An entry
    /// whose count reaches zero is removed, and the call reports it so the
    /// caller can schedule the chunk blob for deletion.
    pub fn release_chunk(&mut self, hash: &[u8]) -> (removed: bool)
        requires
            old(self).wf(),
        ensures
            final(self).wf(),
            removed == (old(self)@.dom().contains(hash@) && old(self)@[hash@] <= 1),
            final(self)@ =~= (if !old(self)@.dom().contains(hash@) {
                old(self)@
            } else if old(self)@[hash@] <= 1 {
                old(self)@.remove(hash@)
            } else {
                old(self)@.insert(hash@, (old(self)@[hash@] - 1) as u32)
            }),
    {
        proof {
            lemma_map_of_props(self.entries@);
        }
        match self.find(hash) {
            Some(i) => {
                let pair = self.entries.remove(i);
                let rc = pair.1.refcount;
                proof {
                    lemma_map_of_remove(old(self).entries@, i as int);
                    assert(old(self).entries@[i as int].0@ == hash@);
                    assert(old(self)@[hash@] == rc);
                    assert(forall|a: int|
                        0 <= a < self.entries@.len() ==> #[trigger] self.entries@[a] == (if a
                            < i as int {
                            old(self).entries@[a]
                        } else {
                            old(self).entries@[a + 1]
                        }));
                }
                if rc <= 1 {
                    true
                } else {
                    self.entries.push((pair.0, ChunkIndex { refcount: rc - 1 }));
                    proof {
                        let e2 = self.entries@;
                        assert(e2.drop_last() =~= old(self).entries@.remove(i as int));
                        assert(e2.last().0@ == hash@);
                        assert(map_of(e2) == map_of(e2.drop_last()).insert(
                            e2.last().0@,
                            e2.last().1.refcount,
                        ));
                        assert(final(self)@ =~= old(self)@.remove(hash@).insert(
                            hash@,
                            (rc - 1) as u32,
                        ));
                        assert(old(self)@.remove(hash@).insert(hash@, (rc - 1) as u32)
                            =~= old(self)@.insert(hash@, (rc - 1) as u32));
                        assert forall|a: int, b: int|
                            0 <= a < b < e2.len() implies (#[trigger] e2[a]).0@ != (
                        #[trigger] e2[b]).0@ by {
                            if b == e2.len() - 1 {
                                if a < i {
                                    assert(e2[a] == old(self).entries@[a]);
                                    assert(old(self).entries@[a].0@ != old(
                                        self,
                                    ).entries@[i as int].0@);
                                } else {
                                    assert(e2[a] == old(self).entries@[a + 1]);
                                    assert(old(self).entries@[a + 1].0@ != old(
                                        self,
                                    ).entries@[i as int].0@);
                                }
                            }
                        }
                        lemma_map_of_props(e2);
                    }
                    false
                }
            },
            None => false,
        }
    }

    /// Every reference count the index holds is at least one: an entry whose
    /// count would reach zero is removed instead of kept at zero.
    pub proof fn lemma_refcounts_positive(&self)
        requires
            self.wf(),
        ensures
            forall|h: Seq<u8>| #[trigger] self@.dom().contains(h) ==> self@[h] >= 1,
    {
        lemma_map_of_props(self.entries@);
        assert forall|h: Seq<u8>| #[trigger] self@.dom().contains(h) implies self@[h] >= 1 by {
            let i = choose|i: int|
                0 <= i < self.entries@.len() && (#[trigger] self.entries@[i]).0@ == h;
            assert(map_of(self.entries@)[self.entries@[i].0@] == self.entries@[i].1.refcount);
        }
    }

    /// The chunk hashes the index holds, in entry order.
    pub fn hashes(&self) -> (out: Vec<Vec<u8>>)
        ensures
            out@.len() == self.spec_len(),
            forall|i: int| 0 <= i < out@.len() ==> self@.dom().contains((#[trigger] out@[i])@),
    {
        proof {
            lemma_map_of_props(self.entries@);
        }
        let n = self.entries.len();
        let mut out: Vec<Vec<u8>> = Vec::new();
        let mut i: usize = 0;
        while i < n
            invariant
                i <= n,
                n == self.entries@.len(),
                out@.len() == i,
                forall|j: int|
                    0 <= j < i ==> (#[trigger] out@[j])@ == self.entries@[j].0@,
            decreases n - i,
        {
            out.push(self.entries[i].0.clone());
            i = i + 1;
        }
        proof {
            assert forall|j: int| 0 <= j < out@.len() implies self@.dom().contains(
                (#[trigger] out@[j])@,
            ) by {
                assert(self.entries@[j].0@ == out@[j]@);
            }
        }
        out
    }
}

/// The encoding of a run of index entries, in order: each entry is the hash
/// as a string key, and a one-field map carrying the reference count.
pub open spec fn enc_index_list(entries: Seq<(Vec<u8>, ChunkIndex)>) -> Seq<u8>
    decreases entries.len(),
{
    if entries.len() == 0 {
        Seq::empty()
    } else {
        mp_str(entries[0].0@) + mp_map_header(1) + mp_str(key_refcount()) + mp_uint(
            entries[0].1.refcount as nat,
        ) + enc_index_list(entries.skip(1))
    }
}

proof fn lemma_enc_index_list_push(entries: Seq<(Vec<u8>, ChunkIndex)>, x: (Vec<u8>, ChunkIndex))
    ensures
        enc_index_list(entries.push(x)) == enc_index_list(entries) + mp_str(x.0@) + mp_map_header(1)
            + mp_str(key_refcount()) + mp_uint(x.1.refcount as nat),
    decreases entries.len(),
{
    if entries.len() == 0 {
        assert(entries.push(x).skip(1) =~= Seq::<(Vec<u8>, ChunkIndex)>::empty());
        assert(entries.push(x)[0] == x);
        assert(enc_index_list(entries.push(x).skip(1)) =~= Seq::<u8>::empty());
        assert(enc_index_list(entries) =~= Seq::<u8>::empty());
        assert(enc_index_list(entries.push(x)) =~= enc_index_list(entries) + mp_str(x.0@)
            + mp_map_header(1) + mp_str(key_refcount()) + mp_uint(x.1.refcount as nat));
    } else {
        assert(entries.push(x).skip(1) =~= entries.skip(1).push(x));
        assert(entries.push(x)[0] == entries[0]);
        lemma_enc_index_list_push(entries.skip(1), x);
        assert(enc_index_list(entries.push(x)) =~= enc_index_list(entries) + mp_str(x.0@)
            + mp_map_header(1) + mp_str(key_refcount()) + mp_uint(x.1.refcount as nat));
    }
}

impl ChunkIndexMap {
    /// The serialized form of the index: a map keyed by chunk hash.
    pub closed spec fn enc(&self) -> Seq<u8> {
        mp_map_header(self.entries@.len()) + enc_index_list(self.entries@)
    }

    /// Whether the index is small enough for the serialized form.
    pub closed spec fn encodable(&self) -> bool {
        self.entries@.len() < 0x100000000
    }

    pub fn is_encodable(&self) -> (out: bool)
        ensures
            out == self.encodable(),
    {
        (self.entries.len() as u64) < 0x100000000u64
    }

    /// Serializes the whole index.
    pub fn encode(&self) -> (out: Vec<u8>)
        requires
            self.wf(),
            self.encodable(),
        ensures
            out@ == self.enc(),
    {
        let mut out: Vec<u8> = Vec::new();
        write_map_header(&mut out, self.entries.len() as u64);
        let n = self.entries.len();
        let mut i: usize = 0;
        while i < n
            invariant
                i <= n,
                n == self.entries@.len(),
                self.wf(),
                out@ == mp_map_header(self.entries@.len()) + enc_index_list(
                    self.entries@.take(i as int),
                ),
            decreases n - i,
        {
            write_str(&mut out, self.entries[i].0.as_slice());
            write_map_header(&mut out, 1);
            write_key_refcount(&mut out);
            write_uint(&mut out, self.entries[i].1.refcount as u64);
            proof {
                assert(self.entries@.take(i + 1) =~= self.entries@.take(i as int).push(
                    self.entries@[i as int],
                ));
                lemma_enc_index_list_push(self.entries@.take(i as int), self.entries@[i as int]);
                assert(out@ =~= mp_map_header(self.entries@.len()) + enc_index_list(
                    self.entries@.take(i + 1),
                ));
            }
            i = i + 1;
        }
        proof {
            assert(self.entries@.take(n as int) =~= self.entries@);
        }
        out
    }

    /// Reads a serialized index.  A record naming a hash twice, carrying a
    /// zero count, or carrying a count beyond u32 does not decode.  On the
    /// canonical encoding of any well-formed index it returns an index with
    /// exactly the same contents.
    #[verifier::rlimit(100)]
    pub fn decode(data: &[u8]) -> (out: Option<ChunkIndexMap>)
        ensures
            out matches Some(m) ==> m.wf(),
            forall|m: ChunkIndexMap|
                m.wf() && m.encodable() && data@ == #[trigger] m.enc() ==> (out matches Some(r)
                    && r@ == m@),
    {
        let (n, start) = match read_map_header(data, 0) {
            Some(r) => r,
            None => {
                proof {
                    assert forall|m: ChunkIndexMap|
                        !(m.wf() && m.encodable() && data@ == #[trigger] m.enc()) by {
                        if m.encodable() && data@ == m.enc() {
                            lemma_index_open(data@, m);
                        }
                    }
                }
                return None;
            },
        };
        let mut p = start;
        let mut index = ChunkIndexMap::new();
        let k_refcount = key_refcount_bytes();
        let mut i: u64 = 0;
        proof {
            assert forall|m: ChunkIndexMap|
                m.wf() && m.encodable() && data@ == #[trigger] m.enc() implies (n
                == m.entries@.len() && encoded_at(
                data@,
                start as int,
                enc_index_list(m.entries@.skip(0)),
            ) && start == data@.len() - enc_index_list(m.entries@.skip(0)).len()) by {
                lemma_index_open(data@, m);
                assert(m.entries@.skip(0) =~= m.entries@);
            }
        }
        while i < n
            invariant
                i <= n,
                p <= data@.len(),
                index.wf(),
                k_refcount@ == key_refcount(),
                forall|m: ChunkIndexMap|
                    m.wf() && m.encodable() && data@ == #[trigger] m.enc() ==> (n
                        == m.entries@.len() && encoded_at(
                        data@,
                        p as int,
                        enc_index_list(m.entries@.skip(i as int)),
                    ) && p == data@.len() - enc_index_list(m.entries@.skip(i as int)).len()
                        && index@ == map_of(m.entries@.take(i as int))),
            decreases n - i,
        {
            let ghost i0 = i as int;
            let ghost p0 = p as int;
            let (hash, p2) = match read_str(data, p) {
                Some(r) => r,
                None => {
                    proof {
                        assert forall|m: ChunkIndexMap|
                            !(m.wf() && m.encodable() && data@ == #[trigger] m.enc()) by {
                            if m.wf() && m.encodable() && data@ == m.enc() {
                                lemma_index_step_facts(data@, p0, m.entries@, i0);
                            }
                        }
                    }
                    return None;
                },
            };
            if (hash.len() as u64) >= 0x100000000u64 {
                proof {
                    assert forall|m: ChunkIndexMap|
                        !(m.wf() && m.encodable() && data@ == #[trigger] m.enc()) by {
                        if m.wf() && m.encodable() && data@ == m.enc() {
                            lemma_index_step_facts(data@, p0, m.entries@, i0);
                        }
                    }
                }
                return None;
            }
            if index.contains(hash.as_slice()) {
                proof {
                    assert forall|m: ChunkIndexMap|
                        !(m.wf() && m.encodable() && data@ == #[trigger] m.enc()) by {
                        if m.wf() && m.encodable() && data@ == m.enc() {
                            lemma_index_step_facts(data@, p0, m.entries@, i0);
                            lemma_map_of_props(m.entries@.take(i0));
                            let j = choose|j: int|
                                0 <= j < m.entries@.take(i0).len() && (#[trigger] m.entries@.take(
                                    i0,
                                )[j]).0@ == hash@;
                            assert(m.entries@[j].0@ == m.entries@[i0].0@);
                        }
                    }
                }
                return None;
            }
            let (mc, vstart) = match read_map_header(data, p2) {
                Some(r) => r,
                None => {
                    proof {
                        assert forall|m: ChunkIndexMap|
                            !(m.wf() && m.encodable() && data@ == #[trigger] m.enc()) by {
                            if m.wf() && m.encodable() && data@ == m.enc() {
                                lemma_index_step_facts(data@, p0, m.entries@, i0);
                            }
                        }
                    }
                    return None;
                },
            };
            let mut vp = vstart;
            let mut refcount: Option<u32> = None;
            let mut j: u64 = 0;
            proof {
                assert forall|m: ChunkIndexMap|
                    m.wf() && m.encodable() && data@ == #[trigger] m.enc() implies (mc == 1 && vstart
                    == data@.len() - (mp_str(key_refcount()).len() + mp_uint(
                    m.entries@[i0].1.refcount as nat,
                ).len() + enc_index_list(m.entries@.skip(i0 + 1)).len())) by {
                    lemma_index_step_facts(data@, p0, m.entries@, i0);
                }
            }
            while j < mc
                invariant
                    j <= mc,
                    vp <= data@.len(),
                    refcount matches Some(rc) ==> rc >= 1,
                    i < n,
                    i0 == i as int,
                    p0 == p as int,
                    k_refcount@ == key_refcount(),
                    forall|m: ChunkIndexMap|
                        m.wf() && m.encodable() && data@ == #[trigger] m.enc() ==> (n
                            == m.entries@.len() && encoded_at(
                            data@,
                            p0,
                            enc_index_list(m.entries@.skip(i0)),
                        ) && p0 == data@.len() - enc_index_list(m.entries@.skip(i0)).len()),
                    forall|m: ChunkIndexMap|
                        m.wf() && m.encodable() && data@ == #[trigger] m.enc() ==> (mc == 1 && (j
                            == 0 ==> (refcount is None && vp == data@.len() - (mp_str(
                            key_refcount(),
                        ).len() + mp_uint(m.entries@[i as int].1.refcount as nat).len()
                            + enc_index_list(m.entries@.skip(i + 1)).len()))) && (j == 1 ==> (
                        refcount == Some(m.entries@[i as int].1.refcount) && vp == data@.len()
                            - enc_index_list(m.entries@.skip(i + 1)).len()))),
                decreases mc - j,
            {
                let ghost j0 = j as int;
                let (key, vp2) = match read_str(data, vp) {
                    Some(r) => r,
                    None => {
                        proof {
                            assert forall|m: ChunkIndexMap|
                                !(m.wf() && m.encodable() && data@ == #[trigger] m.enc()) by {
                                if m.wf() && m.encodable() && data@ == m.enc() {
                                    lemma_index_step_facts(data@, p0, m.entries@, i0);
                                }
                            }
                        }
                        return None;
                    },
                };
                if bytes_eq(key.as_slice(), k_refcount.as_slice()) {
                    let (v, vp3) = match read_uint(data, vp2) {
                        Some(r) => r,
                        None => {
                            proof {
                                assert forall|m: ChunkIndexMap|
                                    !(m.wf() && m.encodable() && data@ == #[trigger] m.enc()) by {
                                    if m.wf() && m.encodable() && data@ == m.enc() {
                                        lemma_index_step_facts(data@, p0, m.entries@, i0);
                                    }
                                }
                            }
                            return None;
                        },
                    };
                    if v == 0 || v > 0xffffffffu64 {
                        proof {
                            assert forall|m: ChunkIndexMap|
                                !(m.wf() && m.encodable() && data@ == #[trigger] m.enc()) by {
                                if m.wf() && m.encodable() && data@ == m.enc() {
                                    lemma_index_step_facts(data@, p0, m.entries@, i0);
                                }
                            }
                        }
                        return None;
                    }
                    refcount = Some(v as u32);
                    vp = vp3;
                } else {
                    vp = match skip_value(data, vp2) {
                        Some(r) => r,
                        None => {
                            proof {
                                assert forall|m: ChunkIndexMap|
                                    !(m.wf() && m.encodable() && data@ == #[trigger] m.enc()) by {
                                    if m.wf() && m.encodable() && data@ == m.enc() {
                                        lemma_index_step_facts(data@, p0, m.entries@, i0);
                                    }
                                }
                            }
                            return None;
                        },
                    };
                    proof {
                        assert forall|m: ChunkIndexMap|
                            !(m.wf() && m.encodable() && data@ == #[trigger] m.enc()) by {
                            if m.wf() && m.encodable() && data@ == m.enc() {
                                lemma_index_step_facts(data@, p0, m.entries@, i0);
                            }
                        }
                    }
                }
                proof {
                    assert forall|m: ChunkIndexMap|
                        m.wf() && m.encodable() && data@ == #[trigger] m.enc() implies (j0 == 0
                        && refcount == Some(m.entries@[i as int].1.refcount) && vp == data@.len()
                        - enc_index_list(m.entries@.skip(i + 1)).len()) by {
                        lemma_index_step_facts(data@, p0, m.entries@, i0);
                    }
                }
                j = j + 1;
            }
            let rc = match refcount {
                Some(rc) => rc,
                None => {
                    proof {
                        assert forall|m: ChunkIndexMap|
                            !(m.wf() && m.encodable() && data@ == #[trigger] m.enc()) by {}
                    }
                    return None;
                },
            };
            let ghost hash_view = hash@;
            index.insert_new(hash, rc);
            p = vp;
            proof {
                assert forall|m: ChunkIndexMap|
                    m.wf() && m.encodable() && data@ == #[trigger] m.enc() implies (index@ == map_of(
                    m.entries@.take(i0 + 1),
                ) && encoded_at(data@, p as int, enc_index_list(m.entries@.skip(i0 + 1))) && p
                    == data@.len() - enc_index_list(m.entries@.skip(i0 + 1)).len()) by {
                    lemma_index_step_facts(data@, p0, m.entries@, i0);
                    assert(hash_view == m.entries@[i0].0@);
                    assert(m.entries@.take(i0 + 1).drop_last() =~= m.entries@.take(i0));
                    assert(m.entries@.take(i0 + 1).last() == m.entries@[i0]);
                    assert(map_of(m.entries@.take(i0 + 1)) == map_of(m.entries@.take(i0)).insert(
                        m.entries@[i0].0@,
                        m.entries@[i0].1.refcount,
                    ));
                }
            }
            i = i + 1;
        }
        proof {
            assert forall|m: ChunkIndexMap|
                m.wf() && m.encodable() && data@ == #[trigger] m.enc() implies index@ == m@ by {
                assert(m.entries@.take(n as int) =~= m.entries@);
            }
        }
        Some(index)
    }
}

/// A canonical index blob opens with its entry-count header, then its
/// entries.
proof fn lemma_index_open(data: Seq<u8>, m: ChunkIndexMap)
    requires
        m.encodable(),
        data == m.enc(),
    ensures
        encoded_at(data, 0, mp_map_header(m.entries@.len())),
        encoded_at(data, mp_map_header(m.entries@.len()).len() as int, enc_index_list(m.entries@)),
        data.len() == mp_map_header(m.entries@.len()).len() + enc_index_list(m.entries@).len(),
{
    assert(data.subrange(0, data.len() as int) =~= data);
    lemma_encoded_at_split(data, 0, mp_map_header(m.entries@.len()), enc_index_list(m.entries@));
}

/// At a canonical index blob's `k`-th entry: the hash stands first, then a
/// one-pair map holding the count, then the remaining entries.
#[verifier::rlimit(100)]
proof fn lemma_index_step_facts(data: Seq<u8>, p: int, entries: Seq<(Vec<u8>, ChunkIndex)>, k: int)
    requires
        0 <= k < entries.len(),
        encoded_at(data, p, enc_index_list(entries.skip(k))),
    ensures
        encoded_at(data, p, mp_str(entries[k].0@)),
        encoded_at(data, p + mp_str(entries[k].0@).len(), mp_map_header(1)),
        encoded_at(
            data,
            p + mp_str(entries[k].0@).len() + mp_map_header(1).len(),
            mp_str(key_refcount()),
        ),
        encoded_at(
            data,
            p + mp_str(entries[k].0@).len() + mp_map_header(1).len() + mp_str(key_refcount()).len(),
            mp_uint(entries[k].1.refcount as nat),
        ),
        encoded_at(
            data,
            p + mp_str(entries[k].0@).len() + mp_map_header(1).len() + mp_str(key_refcount()).len()
                + mp_uint(entries[k].1.refcount as nat).len(),
            enc_index_list(entries.skip(k + 1)),
        ),
        enc_index_list(entries.skip(k)).len() == mp_str(entries[k].0@).len() + mp_map_header(
            1,
        ).len() + mp_str(key_refcount()).len() + mp_uint(entries[k].1.refcount as nat).len()
            + enc_index_list(entries.skip(k + 1)).len(),
        key_refcount().len() < 32,
{
    assert(entries.skip(k)[0] == entries[k]);
    assert(entries.skip(k).skip(1) =~= entries.skip(k + 1));
    let a = mp_str(entries[k].0@);
    let b = mp_map_header(1);
    let c = mp_str(key_refcount());
    let d = mp_uint(entries[k].1.refcount as nat);
    let rest = enc_index_list(entries.skip(k + 1));
    assert(enc_index_list(entries.skip(k)) == a + b + c + d + rest);
    lemma_encoded_at_split(data, p, a + b + c + d, rest);
    lemma_encoded_at_split(data, p, a + b + c, d);
    lemma_encoded_at_split(data, p, a + b, c);
    lemma_encoded_at_split(data, p, a, b);
    assert(key_refcount().len() == 8);
}

} // verus!
