//! The backup writer's decision core: cutting a file stream into chunks,
//! recording each chunk in the index, deciding which chunks must be
//! uploaded, and assembling the manifest entry for the file.
//!
//! The surrounding process reads the file and performs the uploads; every
//! decision in between is made here.  Within one backup the mapping from
//! file content to chunk-hash list is a function of the content and the
//! chunk size alone, so a second backup of identical content deduplicates
//! every chunk.

use vstd::prelude::*;
use crate::chunks::{chunks_of, concat_of, total_len, lemma_chunks_append, lemma_chunks_concat,
    lemma_chunks_sizes};
use crate::hashing::{sha256_hex_of, hash_hex, StreamHasher};
use crate::indexes::ChunkIndexMap;
use crate::metadata::{Backup, BackupObject, object_wf, tree_keys_unique};

verus! {

/// The chunk-hash list of a file's content: the hex SHA-256 identity of
/// each chunk, in file order.
pub open spec fn chunk_hashes_of(data: Seq<u8>, size: nat) -> Seq<Seq<u8>> {
    chunks_of(data, size).map(|i: int, c: Seq<u8>| sha256_hex_of(c))
}

/// The MIME type recorded for every file (reserved; never varied).
pub open spec fn octet_stream() -> Seq<u8> {
    seq![
        97u8, 112u8, 112u8, 108u8, 105u8, 99u8, 97u8, 116u8, 105u8, 111u8, 110u8, 47u8, 111u8,
        99u8, 116u8, 101u8, 116u8, 45u8, 115u8, 116u8, 114u8, 101u8, 97u8, 109u8,
    ]
}

fn octet_stream_bytes() -> (out: Vec<u8>)
    ensures
        out@ == octet_stream(),
{
    let a: [u8; 24] = [
        97u8, 112u8, 112u8, 108u8, 105u8, 99u8, 97u8, 116u8, 105u8, 111u8, 110u8, 47u8, 111u8,
        99u8, 116u8, 101u8, 116u8, 45u8, 115u8, 116u8, 114u8, 101u8, 97u8, 109u8,
    ];
    proof {
        assert(a@ =~= octet_stream());
    }
    vstd::slice::slice_to_vec(a.as_slice())
}

/// What the writer must do with one chunk it has just cut.
pub struct ChunkStep {
    /// The chunk's hex SHA-256 identity.
    pub hash: Vec<u8>,
    /// Whether the chunk was already in the index: a deduplication hit, so
    /// it must not be uploaded again.
    pub dedup: bool,
}

/// Cuts one file's content into chunks as the bytes stream past, keeps the
/// running whole-file hash, records every chunk in the index, and finally
/// yields the file's manifest entry.
pub struct FileBackupBuilder {
    chunk_size: u64,
    hasher: StreamHasher,
    chunk_hashes: Vec<Vec<u8>>,
    size: u64,
    sealed: bool,
    blocks: Ghost<nat>,
}

impl FileBackupBuilder {
    /// The bytes fed so far.
    pub closed spec fn stream(&self) -> Seq<u8> {
        self.hasher.stream()
    }

    /// The chunk size the builder cuts at.
    pub closed spec fn size(&self) -> nat {
        self.chunk_size as nat
    }

    /// Whether a short tail chunk has been fed, after which the file ends.
    pub closed spec fn is_sealed(&self) -> bool {
        self.sealed
    }

    pub closed spec fn wf(&self) -> bool {
        &&& self.chunk_size >= 1
        &&& self.hasher.wf()
        &&& self.size == self.stream().len()
        &&& !self.sealed ==> self.stream().len() == self.blocks@ * self.size()
        &&& self.chunk_hashes@.len() == chunk_hashes_of(self.stream(), self.size()).len()
        &&& forall|i: int|
            0 <= i < self.chunk_hashes@.len() ==> (#[trigger] self.chunk_hashes@[i])@
                == chunk_hashes_of(self.stream(), self.size())[i]
        &&& forall|i: int|
            0 <= i < self.chunk_hashes@.len() ==> (#[trigger] self.chunk_hashes@[i])@.len() == 64
    }

    /// A builder for one file, cutting at `chunk_size` bytes.
    pub fn new(chunk_size: u64) -> (out: FileBackupBuilder)
        requires
            chunk_size >= 1,
        ensures
            out.wf(),
            out.stream() == Seq::<u8>::empty(),
            out.size() == chunk_size as nat,
            !out.is_sealed(),
    {
        let out = FileBackupBuilder {
            chunk_size,
            hasher: StreamHasher::new(),
            chunk_hashes: Vec::new(),
            size: 0,
            sealed: false,
            blocks: Ghost(0nat),
        };
        proof {
            assert(0nat * out.size() == 0) by (nonlinear_arith);
            assert(chunks_of(out.stream(), out.size()) =~= Seq::<Seq<u8>>::empty());
        }
        out
    }

    /// Feeds the next chunk read from the file: every chunk but the last is
    /// exactly `chunk_size` bytes, the last may be shorter.  The chunk's
    /// identity joins the file's chunk list and the index; the step says
    /// whether the chunk was a deduplication hit or must be uploaded.
    pub fn push_chunk(&mut self, index: &mut ChunkIndexMap, bytes: &[u8]) -> (step: ChunkStep)
        requires
            old(self).wf(),
            !old(self).is_sealed(),
            old(index).wf(),
            1 <= bytes@.len() <= old(self).size(),
            old(self).stream().len() + bytes@.len() <= u64::MAX,
        ensures
            final(self).wf(),
            final(index).wf(),
            final(self).stream() == old(self).stream() + bytes@,
            final(self).size() == old(self).size(),
            final(self).is_sealed() == (bytes@.len() < old(self).size()),
            step.hash@ == sha256_hex_of(bytes@),
            step.dedup == old(index)@.dom().contains(sha256_hex_of(bytes@)),
            final(index)@ =~= old(index)@.insert(
                sha256_hex_of(bytes@),
                if old(index)@.dom().contains(sha256_hex_of(bytes@)) {
                    if old(index)@[sha256_hex_of(bytes@)] == u32::MAX {
                        u32::MAX
                    } else {
                        (old(index)@[sha256_hex_of(bytes@)] + 1) as u32
                    }
                } else {
                    1u32
                },
            ),
    {
        self.hasher.update(bytes);
        self.size = self.size + bytes.len() as u64;
        let chunk_hash = hash_hex(bytes);
        let step_hash = crate::msgpack::clone_bytes(&chunk_hash);
        let index_hash = crate::msgpack::clone_bytes(&chunk_hash);
        self.chunk_hashes.push(chunk_hash);
        let dedup = index.record_chunk(index_hash);
        if (bytes.len() as u64) < self.chunk_size {
            self.sealed = true;
        } else {
            proof {
                self.blocks@ = self.blocks@ + 1;
            }
        }
        proof {
            lemma_chunks_append(old(self).stream(), bytes@, old(self).size(), old(self).blocks@);
            assert(chunks_of(self.stream(), self.size()) =~= chunks_of(
                old(self).stream(),
                self.size(),
            ).push(bytes@));
            assert forall|i: int| 0 <= i < self.chunk_hashes@.len() implies (
            #[trigger] self.chunk_hashes@[i])@ == chunk_hashes_of(self.stream(), self.size())[i] by {
                if i < self.chunk_hashes@.len() - 1 {
                    assert(chunks_of(self.stream(), self.size())[i] == chunks_of(
                        old(self).stream(),
                        self.size(),
                    )[i]);
                }
            }
            if bytes@.len() == old(self).size() {
                let ghost sl = self.stream().len();
                let ghost osl = old(self).stream().len();
                let ghost bl = self.blocks@;
                let ghost obl = old(self).blocks@;
                let ghost sz = self.size();
                assert(sl == bl * sz) by (nonlinear_arith)
                    requires
                        sl == osl + sz,
                        osl == obl * sz,
                        bl == obl + 1,
                ;
            }
        }
        ChunkStep { hash: step_hash, dedup }
    }

    /// Ends the file and yields its manifest entry: the whole-content hash,
    /// the byte count, the given permission bits, and the chunk list.
    /// How many chunks have been cut so far.
    pub fn chunk_count(&self) -> (out: usize)
        requires
            self.wf(),
        ensures
            out == chunks_of(self.stream(), self.size()).len(),
    {
        self.chunk_hashes.len()
    }

    pub fn finish(self, permissions: u32) -> (out: BackupObject)
        requires
            self.wf(),
            chunks_of(self.stream(), self.size()).len() < 0x100000000,
        ensures
            out.hash@ == sha256_hex_of(self.stream()),
            out.size == self.stream().len(),
            out.content_type@ == octet_stream(),
            out.permissions == permissions,
            out.chunks@.len() == chunks_of(self.stream(), self.size()).len(),
            forall|i: int|
                0 <= i < out.chunks@.len() ==> (#[trigger] out.chunks@[i])@ == sha256_hex_of(
                    chunks_of(self.stream(), self.size())[i],
                ),
            object_wf(out),
            self.stream().len() == 0 ==> out.chunks@.len() == 0 && out.size == 0,
    {
        proof {
            if self.stream().len() == 0 {
                assert(chunks_of(self.stream(), self.size()) =~= Seq::<Seq<u8>>::empty());
            }
        }
        let size = self.size;
        let hash = self.hasher.finish();
        BackupObject {
            hash,
            size,
            content_type: octet_stream_bytes(),
            permissions,
            chunks: self.chunk_hashes,
        }
    }
}

/// How the index evolves as a run of chunks is recorded, in order: each
/// chunk's entry is created at one or bumped by one (saturating).
pub open spec fn run_index(m: Map<Seq<u8>, u32>, chunks: Seq<Seq<u8>>) -> Map<Seq<u8>, u32>
    decreases chunks.len(),
{
    if chunks.len() == 0 {
        m
    } else {
        run_index(bump(m, sha256_hex_of(chunks[0])), chunks.skip(1))
    }
}

/// One reference recorded for one hash.
pub open spec fn bump(m: Map<Seq<u8>, u32>, h: Seq<u8>) -> Map<Seq<u8>, u32> {
    m.insert(
        h,
        if m.dom().contains(h) {
            if m[h] == u32::MAX {
                u32::MAX
            } else {
                (m[h] + 1) as u32
            }
        } else {
            1u32
        },
    )
}

/// The bytes a backup writes for a run of chunks: each chunk not yet in the
/// index at its turn is uploaded and counts its full length.
pub open spec fn run_written(m: Map<Seq<u8>, u32>, chunks: Seq<Seq<u8>>) -> nat
    decreases chunks.len(),
{
    if chunks.len() == 0 {
        0
    } else {
        (if m.dom().contains(sha256_hex_of(chunks[0])) {
            0nat
        } else {
            chunks[0].len()
        }) + run_written(bump(m, sha256_hex_of(chunks[0])), chunks.skip(1))
    }
}

/// The bytes a backup deduplicates for a run of chunks: each chunk already
/// in the index at its turn counts its full length and is not uploaded.
pub open spec fn run_dedup(m: Map<Seq<u8>, u32>, chunks: Seq<Seq<u8>>) -> nat
    decreases chunks.len(),
{
    if chunks.len() == 0 {
        0
    } else {
        (if m.dom().contains(sha256_hex_of(chunks[0])) {
            chunks[0].len()
        } else {
            0nat
        }) + run_dedup(bump(m, sha256_hex_of(chunks[0])), chunks.skip(1))
    }
}

/// Recording chunks never removes an index entry, and afterwards every
/// recorded chunk's hash is in the index.
pub proof fn lemma_run_index_covers(m: Map<Seq<u8>, u32>, chunks: Seq<Seq<u8>>)
    ensures
        forall|h: Seq<u8>|
            m.dom().contains(h) ==> #[trigger] run_index(m, chunks).dom().contains(h),
        forall|i: int|
            0 <= i < chunks.len() ==> run_index(m, chunks).dom().contains(
                sha256_hex_of(#[trigger] chunks[i]),
            ),
    decreases chunks.len(),
{
    if chunks.len() > 0 {
        let h0 = sha256_hex_of(chunks[0]);
        let m2 = bump(m, h0);
        lemma_run_index_covers(m2, chunks.skip(1));
        assert(run_index(m, chunks) == run_index(m2, chunks.skip(1)));
        assert forall|h: Seq<u8>| m.dom().contains(h) implies #[trigger] run_index(
            m,
            chunks,
        ).dom().contains(h) by {
            assert(m2.dom().contains(h));
        }
        assert forall|i: int|
            0 <= i < chunks.len() implies run_index(m, chunks).dom().contains(
            sha256_hex_of(#[trigger] chunks[i]),
        ) by {
            if i == 0 {
                assert(m2.dom().contains(h0));
            } else {
                assert(chunks.skip(1)[i - 1] == chunks[i]);
            }
        }
    }
}

/// Recording a run of chunks whose hashes are all in the index already
/// writes nothing and deduplicates every byte.
pub proof fn lemma_rerun_all_dedup(m: Map<Seq<u8>, u32>, chunks: Seq<Seq<u8>>)
    requires
        forall|i: int|
            0 <= i < chunks.len() ==> m.dom().contains(sha256_hex_of(#[trigger] chunks[i])),
    ensures
        run_written(m, chunks) == 0,
        run_dedup(m, chunks) == total_len(chunks),
    decreases chunks.len(),
{
    if chunks.len() > 0 {
        let m2 = bump(m, sha256_hex_of(chunks[0]));
        assert forall|i: int|
            0 <= i < chunks.skip(1).len() implies m2.dom().contains(
            sha256_hex_of(#[trigger] chunks.skip(1)[i]),
        ) by {
            assert(chunks.skip(1)[i] == chunks[i + 1]);
        }
        lemma_rerun_all_dedup(m2, chunks.skip(1));
    }
}

/// A second backup of identical content with an identical chunk size writes
/// nothing: after a first run records a run of chunks, a second run over
/// the resulting index deduplicates every byte.
pub proof fn lemma_second_backup_writes_nothing(m: Map<Seq<u8>, u32>, chunks: Seq<Seq<u8>>)
    ensures
        run_written(run_index(m, chunks), chunks) == 0,
        run_dedup(run_index(m, chunks), chunks) == total_len(chunks),
{
    lemma_run_index_covers(m, chunks);
    lemma_rerun_all_dedup(run_index(m, chunks), chunks);
}

/// A whole file's manifest entry concatenates back to the file: the chunks
/// of the content, joined in manifest order, are the content, so their
/// hashes pin the whole-content hash the entry records.
pub proof fn lemma_object_chunks_rebuild_content(data: Seq<u8>, size: nat)
    requires
        size >= 1,
    ensures
        concat_of(chunks_of(data, size)) == data,
        sha256_hex_of(concat_of(chunks_of(data, size))) == sha256_hex_of(data),
{
    lemma_chunks_concat(data, size);
}

/// The whole-file plan for content already in memory: the manifest entry,
/// the chunk steps in order, and the written and deduplicated byte counts.
pub struct FilePlan {
    pub object: BackupObject,
    pub steps: Vec<ChunkStep>,
    pub written_bytes: u64,
    pub deduplicated_bytes: u64,
}

/// Cuts a whole in-memory file, records every chunk in the index, and
/// returns the manifest entry together with which chunks to upload and the
/// written and deduplicated byte counts.
pub fn plan_file(index: &mut ChunkIndexMap, data: &[u8], chunk_size: u64, permissions: u32) -> (out:
    FilePlan)
    requires
        old(index).wf(),
        chunk_size >= 1,
        chunks_of(data@, chunk_size as nat).len() < 0x100000000,
    ensures
        final(index).wf(),
        final(index)@ == run_index(old(index)@, chunks_of(data@, chunk_size as nat)),
        out.written_bytes == run_written(old(index)@, chunks_of(data@, chunk_size as nat)),
        out.deduplicated_bytes == run_dedup(old(index)@, chunks_of(data@, chunk_size as nat)),
        out.object.hash@ == sha256_hex_of(data@),
        out.object.size == data@.len(),
        out.object.permissions == permissions,
        out.object.content_type@ == octet_stream(),
        out.object.chunks@.len() == chunks_of(data@, chunk_size as nat).len(),
        forall|i: int|
            0 <= i < out.object.chunks@.len() ==> (#[trigger] out.object.chunks@[i])@
                == sha256_hex_of(chunks_of(data@, chunk_size as nat)[i]),
        object_wf(out.object),
        out.steps@.len() == chunks_of(data@, chunk_size as nat).len(),
        forall|i: int|
            0 <= i < out.steps@.len() ==> (#[trigger] out.steps@[i]).hash@ == sha256_hex_of(
                chunks_of(data@, chunk_size as nat)[i],
            ),
        data@.len() == 0 ==> out.object.chunks@.len() == 0 && out.object.size == 0
            && out.object.hash@ == sha256_hex_of(Seq::<u8>::empty()),
{
    let ghost all = chunks_of(data@, chunk_size as nat);
    let ghost m0 = old(index)@;
    let mut builder = FileBackupBuilder::new(chunk_size);
    let mut steps: Vec<ChunkStep> = Vec::new();
    let mut written: u64 = 0;
    let mut dedup: u64 = 0;
    let mut pos: usize = 0;
    let ghost mut kblocks: nat = 0nat;
    proof {
        lemma_chunks_sizes(data@, chunk_size as nat);
        crate::chunks::lemma_chunks_total_len(data@, chunk_size as nat);
        assert(data@.take(0) =~= Seq::<u8>::empty());
        assert(data@.skip(0) =~= data@);
    }
    while pos < data.len()
        invariant
            index.wf(),
            builder.wf(),
            builder.size() == chunk_size as nat,
            chunk_size >= 1,
            pos <= data@.len(),
            builder.stream() == data@.take(pos as int),
            builder.is_sealed() ==> pos == data@.len(),
            !builder.is_sealed() ==> pos == kblocks * (chunk_size as nat),
            all == chunks_of(data@, chunk_size as nat),
            m0 == old(index)@,
            steps@.len() == chunks_of(builder.stream(), chunk_size as nat).len(),
            forall|i: int|
                0 <= i < steps@.len() ==> (#[trigger] steps@[i]).hash@ == sha256_hex_of(
                    chunks_of(builder.stream(), chunk_size as nat)[i],
                ),
            written <= pos,
            dedup <= pos,
            run_index(m0, all) == run_index(
                index@,
                chunks_of(data@.skip(pos as int), chunk_size as nat),
            ),
            run_written(m0, all) == written + run_written(
                index@,
                chunks_of(data@.skip(pos as int), chunk_size as nat),
            ),
            run_dedup(m0, all) == dedup + run_dedup(
                index@,
                chunks_of(data@.skip(pos as int), chunk_size as nat),
            ),
        decreases data@.len() - pos,
    {
        let remaining = data.len() - pos;
        let take: usize = if (remaining as u64) < chunk_size {
            remaining
        } else {
            chunk_size as usize
        };
        let piece = vstd::slice::slice_subrange(data, pos, pos + take);
        let ghost rest = data@.skip(pos as int);
        let ghost mi = index@;
        proof {
            assert(rest.len() > 0);
            assert(piece@ =~= if rest.len() <= chunk_size as nat {
                rest
            } else {
                rest.take(chunk_size as int)
            });
            assert(chunks_of(rest, chunk_size as nat)[0] == piece@);
            assert(chunks_of(rest, chunk_size as nat).skip(1) =~= chunks_of(
                data@.skip(pos + take),
                chunk_size as nat,
            )) by {
                if rest.len() <= chunk_size as nat {
                    assert(data@.skip(pos + take) =~= Seq::<u8>::empty());
                    assert(chunks_of(rest, chunk_size as nat) == seq![rest]);
                } else {
                    assert(rest.skip(chunk_size as int) =~= data@.skip(pos + take));
                }
            }
        }
        let ghost pos_before: int = pos as int;
        let step = builder.push_chunk(index, piece);
        let ghost h = sha256_hex_of(piece@);
        if step.dedup {
            dedup = dedup + take as u64;
        } else {
            written = written + take as u64;
        }
        steps.push(step);
        proof {
            assert(index@ =~= bump(mi, h));
            assert(run_index(mi, chunks_of(rest, chunk_size as nat)) == run_index(
                index@,
                chunks_of(data@.skip(pos_before + take), chunk_size as nat),
            ));
            assert(run_written(mi, chunks_of(rest, chunk_size as nat)) == (if mi.dom().contains(h) {
                0nat
            } else {
                piece@.len()
            }) + run_written(index@, chunks_of(data@.skip(pos_before + take), chunk_size as nat)));
            assert(run_dedup(mi, chunks_of(rest, chunk_size as nat)) == (if mi.dom().contains(h) {
                piece@.len()
            } else {
                0nat
            }) + run_dedup(index@, chunks_of(data@.skip(pos_before + take), chunk_size as nat)));
            assert(data@.take(pos_before + take) =~= data@.take(pos_before) + piece@);
            assert(chunks_of(builder.stream(), chunk_size as nat) =~= chunks_of(
                data@.take(pos_before),
                chunk_size as nat,
            ).push(piece@)) by {
                lemma_chunks_append(data@.take(pos_before), piece@, chunk_size as nat, kblocks);
            }
        }
        pos = pos + take;
        proof {
            if !builder.is_sealed() {
                let ghost k = kblocks;
                kblocks = kblocks + 1;
                assert(pos == (k + 1) * (chunk_size as nat)) by (nonlinear_arith)
                    requires
                        pos == pos_before + take,
                        pos_before == k * (chunk_size as nat),
                        take == chunk_size as nat,
                ;
            }
        }
    }
    proof {
        assert(data@.take(pos as int) =~= data@);
        assert(data@.skip(pos as int) =~= Seq::<u8>::empty());
        assert(chunks_of(Seq::<u8>::empty(), chunk_size as nat) =~= Seq::<Seq<u8>>::empty());
    }
    let object = builder.finish(permissions);
    FilePlan { object, steps, written_bytes: written, deduplicated_bytes: dedup }
}

/// The decimal digits of `n`, most significant first.
pub open spec fn dec_of(n: nat) -> Seq<u8>
    decreases n,
{
    if n < 10 {
        seq![(0x30 + n) as u8]
    } else {
        dec_of(n / 10) + seq![(0x30 + n % 10) as u8]
    }
}

/// Renders `n` in decimal.
pub fn u64_to_decimal(n: u64) -> (out: Vec<u8>)
    ensures
        out@ == dec_of(n as nat),
    decreases n,
{
    if n < 10 {
        let mut out: Vec<u8> = Vec::new();
        out.push(0x30 + n as u8);
        proof {
            assert(out@ =~= dec_of(n as nat));
        }
        out
    } else {
        let mut out = u64_to_decimal(n / 10);
        out.push(0x30 + (n % 10) as u8);
        proof {
            assert(out@ =~= dec_of(n as nat));
        }
        out
    }
}

/// The bytes hashed to form a backup's identity:
/// `message ":" author ":" unix_seconds`.
pub open spec fn backup_identity_input(message: Seq<u8>, author: Seq<u8>, timestamp: nat) -> Seq<
    u8,
> {
    message + seq![0x3au8] + author + seq![0x3au8] + dec_of(timestamp)
}

/// Starts a new backup manifest: the identity hash is the hex SHA-256 of
/// `message ":" author ":" timestamp`, and the tree starts empty.
pub fn create_new_backup(message: Vec<u8>, author: Vec<u8>, timestamp: u64) -> (out: Backup)
    ensures
        out.message@ == message@,
        out.author@ == author@,
        out.timestamp == timestamp,
        out.hash@ == sha256_hex_of(backup_identity_input(message@, author@, timestamp as nat)),
        out.hash@.len() == 64,
        out.tree@.len() == 0,
        tree_keys_unique(out.tree@),
    {
    let mut identity: Vec<u8> = Vec::new();
    identity.extend_from_slice(message.as_slice());
    identity.push(0x3a);
    identity.extend_from_slice(author.as_slice());
    identity.push(0x3a);
    let ts = u64_to_decimal(timestamp);
    identity.extend_from_slice(ts.as_slice());
    proof {
        assert(identity@ =~= backup_identity_input(message@, author@, timestamp as nat));
    }
    let hash = hash_hex(identity.as_slice());
    Backup { message, hash, timestamp, author, tree: Vec::new() }
}

/// Backslashes turned into forward slashes, as stored paths require.
pub open spec fn slashes_of(s: Seq<u8>) -> Seq<u8> {
    s.map(
        |i: int, b: u8|
            if b == 0x5c {
                0x2fu8
            } else {
                b
            },
    )
}

/// The relative path recorded for a file: the root prefix stripped when
/// present, backslashes turned into slashes, and one leading slash dropped.
pub open spec fn relative_path_spec(file_path: Seq<u8>, root: Seq<u8>) -> Seq<u8> {
    let stripped = if root.is_prefix_of(file_path) {
        file_path.skip(root.len() as int)
    } else {
        file_path
    };
    let slashed = slashes_of(stripped);
    if slashed.len() > 0 && slashed[0] == 0x2f {
        slashed.skip(1)
    } else {
        slashed
    }
}

/// Whether `prefix` starts `s`.
pub fn bytes_is_prefix(s: &[u8], prefix: &[u8]) -> (out: bool)
    ensures
        out == prefix@.is_prefix_of(s@),
{
    if prefix.len() > s.len() {
        proof {
            assert(!prefix@.is_prefix_of(s@));
        }
        return false;
    }
    let head = vstd::slice::slice_subrange(s, 0, prefix.len());
    let eq = crate::msgpack::bytes_eq(head, prefix);
    proof {
        assert(prefix@.is_prefix_of(s@) == (s@.subrange(0, prefix@.len() as int) == prefix@));
    }
    eq
}

/// Computes the relative path recorded for a file under the backup root.
pub fn relative_path_of(file_path: &[u8], root: &[u8]) -> (out: Vec<u8>)
    ensures
        out@ == relative_path_spec(file_path@, root@),
{
    let stripped: &[u8] = if bytes_is_prefix(file_path, root) {
        vstd::slice::slice_subrange(file_path, root.len(), file_path.len())
    } else {
        file_path
    };
    proof {
        if root@.is_prefix_of(file_path@) {
            assert(stripped@ =~= file_path@.skip(root@.len() as int));
        }
    }
    let mut slashed: Vec<u8> = Vec::new();
    let mut i: usize = 0;
    while i < stripped.len()
        invariant
            i <= stripped@.len(),
            slashed@ =~= slashes_of(stripped@.take(i as int)),
        decreases stripped@.len() - i,
    {
        let b = stripped[i];
        if b == 0x5c {
            slashed.push(0x2f);
        } else {
            slashed.push(b);
        }
        proof {
            assert(slashed@ =~= slashes_of(stripped@.take(i + 1)));
        }
        i = i + 1;
    }
    proof {
        assert(stripped@.take(stripped@.len() as int) =~= stripped@);
    }
    if slashed.len() > 0 && slashed[0] == 0x2f {
        let out = vstd::slice::slice_to_vec(
            vstd::slice::slice_subrange(slashed.as_slice(), 1, slashed.len()),
        );
        proof {
            assert(out@ =~= slashes_of(stripped@).skip(1));
        }
        out
    } else {
        slashed
    }
}

/// Whether a file or directory name matches one of the ignore patterns.
/// Patterns are literal names, compared whole against the single component.
pub fn is_ignored(name: &[u8], patterns: &Vec<Vec<u8>>) -> (out: bool)
    ensures
        out == exists|i: int| 0 <= i < patterns@.len() && (#[trigger] patterns@[i])@ == name@,
{
    let n = patterns.len();
    let mut i: usize = 0;
    while i < n
        invariant
            i <= n,
            n == patterns@.len(),
            forall|j: int| 0 <= j < i ==> (#[trigger] patterns@[j])@ != name@,
        decreases n - i,
    {
        if crate::msgpack::bytes_eq(patterns[i].as_slice(), name) {
            return true;
        }
        i = i + 1;
    }
    false
}

/// The delay before write attempt `attempt + 1`, in milliseconds: a linear
/// backoff of one hundred milliseconds per attempt already made.
pub fn retry_backoff_ms(attempt: u64) -> (out: u64)
    requires
        attempt <= 3,
    ensures
        out == 100 * attempt,
{
    100 * attempt
}

/// Reassembles a file's bytes from its chunk contents, in manifest order,
/// exactly as restore writes them.
pub fn concat_chunks(parts: &Vec<Vec<u8>>) -> (out: Vec<u8>)
    requires
        total_len(parts@.map_values(|v: Vec<u8>| v@)) <= usize::MAX,
    ensures
        out@ == concat_of(parts@.map_values(|v: Vec<u8>| v@)),
{
    let ghost views = parts@.map_values(|v: Vec<u8>| v@);
    let mut out: Vec<u8> = Vec::new();
    let n = parts.len();
    let mut i: usize = 0;
    proof {
        lemma_concat_take_zero(views);
    }
    while i < n
        invariant
            i <= n,
            n == parts@.len(),
            views == parts@.map_values(|v: Vec<u8>| v@),
            total_len(views) <= usize::MAX,
            out@ =~= concat_of(views.take(i as int)),
            out@.len() <= total_len(views),
        decreases n - i,
    {
        out.extend_from_slice(parts[i].as_slice());
        proof {
            assert(views.take(i + 1) =~= views.take(i as int).push(views[i as int]));
            lemma_concat_push(views.take(i as int), views[i as int]);
            lemma_concat_take_len(views, i + 1);
        }
        i = i + 1;
    }
    proof {
        assert(views.take(n as int) =~= views);
    }
    out
}

proof fn lemma_concat_take_zero(parts: Seq<Seq<u8>>)
    ensures
        concat_of(parts.take(0)) =~= Seq::<u8>::empty(),
{
    assert(parts.take(0) =~= Seq::<Seq<u8>>::empty());
}

proof fn lemma_concat_push(parts: Seq<Seq<u8>>, x: Seq<u8>)
    ensures
        concat_of(parts.push(x)) == concat_of(parts) + x,
    decreases parts.len(),
{
    if parts.len() == 0 {
        assert(parts.push(x).skip(1) =~= Seq::<Seq<u8>>::empty());
        assert(parts.push(x)[0] == x);
        assert(concat_of(parts.push(x).skip(1)) =~= Seq::<u8>::empty());
        assert(concat_of(parts) =~= Seq::<u8>::empty());
        assert(concat_of(parts.push(x)) =~= concat_of(parts) + x);
    } else {
        assert(parts.push(x).skip(1) =~= parts.skip(1).push(x));
        assert(parts.push(x)[0] == parts[0]);
        lemma_concat_push(parts.skip(1), x);
        assert(concat_of(parts.push(x)) =~= concat_of(parts) + x);
    }
}

proof fn lemma_concat_take_len(parts: Seq<Seq<u8>>, i: int)
    requires
        0 <= i <= parts.len(),
    ensures
        concat_of(parts.take(i)).len() <= total_len(parts),
    decreases i,
{
    lemma_total_len_take(parts, i);
}

proof fn lemma_total_len_take(parts: Seq<Seq<u8>>, i: int)
    requires
        0 <= i <= parts.len(),
    ensures
        concat_of(parts.take(i)).len() == total_len(parts.take(i)),
        total_len(parts.take(i)) <= total_len(parts),
    decreases parts.len(),
{
    if parts.len() == 0 || i == 0 {
        assert(parts.take(i) =~= Seq::<Seq<u8>>::empty());
    } else {
        assert(parts.take(i)[0] == parts[0]);
        assert(parts.take(i).skip(1) =~= parts.skip(1).take(i - 1));
        assert(parts.skip(1).len() == parts.len() - 1);
        lemma_total_len_take(parts.skip(1), i - 1);
        lemma_total_len_take(parts.skip(1), parts.len() - 1);
        assert(parts.skip(1).take(parts.len() - 1) =~= parts.skip(1));
    }
}

} // verus!
