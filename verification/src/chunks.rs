//! Fixed-size chunking of file contents.
//!
//! A file's bytes are cut into consecutive chunks of exactly `size` bytes,
//! with one shorter tail chunk when the length is not a multiple of `size`.
//! The cut is deterministic: the same content and chunk size always yield
//! the same chunks, which is what makes deduplication across backups total.

use vstd::prelude::*;

verus! {

/// The chunks of `data` at chunk size `size`: full slices of `size` bytes,
/// then the remainder, if any, as one final shorter chunk.
pub open spec fn chunks_of(data: Seq<u8>, size: nat) -> Seq<Seq<u8>>
    decreases data.len(),
{
    if size == 0 {
        Seq::empty()
    } else if data.len() == 0 {
        Seq::empty()
    } else if data.len() <= size {
        seq![data]
    } else {
        seq![data.take(size as int)] + chunks_of(data.skip(size as int), size)
    }
}

/// The concatenation of a run of byte strings, in order.
pub open spec fn concat_of(parts: Seq<Seq<u8>>) -> Seq<u8>
    decreases parts.len(),
{
    if parts.len() == 0 {
        Seq::empty()
    } else {
        parts[0] + concat_of(parts.skip(1))
    }
}

/// Chunking loses nothing: concatenating the chunks of `data`, in order,
/// yields `data` again.
pub proof fn lemma_chunks_concat(data: Seq<u8>, size: nat)
    requires
        size >= 1,
    ensures
        concat_of(chunks_of(data, size)) == data,
    decreases data.len(),
{
    if data.len() == 0 {
        assert(concat_of(chunks_of(data, size)) =~= data);
    } else if data.len() <= size {
        assert(chunks_of(data, size) == seq![data]);
        assert(chunks_of(data, size)[0] == data);
        assert(chunks_of(data, size).skip(1) =~= Seq::<Seq<u8>>::empty());
        assert(concat_of(chunks_of(data, size).skip(1)) =~= Seq::<u8>::empty());
        assert(concat_of(chunks_of(data, size)) =~= data);
    } else {
        lemma_chunks_concat(data.skip(size as int), size);
        let cs = chunks_of(data, size);
        assert(cs[0] == data.take(size as int));
        assert(cs.skip(1) =~= chunks_of(data.skip(size as int), size));
        assert(concat_of(cs) =~= data.take(size as int) + data.skip(size as int));
        assert(data.take(size as int) + data.skip(size as int) =~= data);
    }
}

/// Every chunk is between one byte and `size` bytes long, and all but the
/// last are exactly `size` bytes.
pub proof fn lemma_chunks_sizes(data: Seq<u8>, size: nat)
    requires
        size >= 1,
    ensures
        forall|i: int|
            0 <= i < chunks_of(data, size).len() ==> 1 <= (#[trigger] chunks_of(data, size)[i]).len()
                <= size,
        forall|i: int|
            0 <= i < chunks_of(data, size).len() - 1 ==> (#[trigger] chunks_of(data, size)[i]).len()
                == size,
    decreases data.len(),
{
    if data.len() > size {
        lemma_chunks_sizes(data.skip(size as int), size);
        let cs = chunks_of(data, size);
        let rest = chunks_of(data.skip(size as int), size);
        assert forall|i: int| 0 <= i < cs.len() implies 1 <= (#[trigger] cs[i]).len() <= size by {
            if i > 0 {
                assert(cs[i] == rest[i - 1]);
            }
        }
        assert forall|i: int| 0 <= i < cs.len() - 1 implies (#[trigger] cs[i]).len() == size by {
            if i > 0 {
                assert(cs[i] == rest[i - 1]);
            }
        }
    }
}

/// A file of exactly `n` whole blocks cuts into exactly `n` chunks, each a
/// whole block: no tail chunk appears.
pub proof fn lemma_chunks_exact_blocks(data: Seq<u8>, size: nat, n: nat)
    requires
        size >= 1,
        data.len() == n * size,
    ensures
        chunks_of(data, size).len() == n,
        forall|i: int|
            0 <= i < n ==> (#[trigger] chunks_of(data, size)[i]).len() == size,
    decreases n,
{
    if n == 0 {
        assert(data.len() == 0) by (nonlinear_arith)
            requires
                data.len() == n * size,
                n == 0,
        ;
    } else if n == 1 {
        assert(data.len() == size) by (nonlinear_arith)
            requires
                data.len() == n * size,
                n == 1,
        ;
        assert(chunks_of(data, size) == seq![data]);
    } else {
        assert(data.len() > size && data.len() - size == (n - 1) * size) by (nonlinear_arith)
            requires
                data.len() == n * size,
                n >= 2,
                size >= 1,
        ;
        lemma_chunks_exact_blocks(data.skip(size as int), size, (n - 1) as nat);
        let cs = chunks_of(data, size);
        let rest = chunks_of(data.skip(size as int), size);
        assert(cs =~= seq![data.take(size as int)] + rest);
        assert forall|i: int| 0 <= i < n implies (#[trigger] cs[i]).len() == size by {
            if i > 0 {
                assert(cs[i] == rest[i - 1]);
            }
        }
    }
}

/// With a chunk size of one byte, every byte is its own chunk.
pub proof fn lemma_chunks_unit(data: Seq<u8>)
    ensures
        chunks_of(data, 1).len() == data.len(),
        forall|i: int| 0 <= i < data.len() ==> #[trigger] chunks_of(data, 1)[i] == seq![data[i]],
    decreases data.len(),
{
    if data.len() == 1 {
        assert(chunks_of(data, 1) == seq![data]);
        assert(data =~= seq![data[0]]);
    } else if data.len() > 1 {
        lemma_chunks_unit(data.skip(1));
        let cs = chunks_of(data, 1);
        let rest = chunks_of(data.skip(1), 1);
        assert(cs =~= seq![data.take(1)] + rest);
        assert(data.take(1) =~= seq![data[0]]);
        assert forall|i: int| 0 <= i < data.len() implies #[trigger] cs[i] == seq![data[i]] by {
            if i > 0 {
                assert(cs[i] == rest[i - 1]);
                assert(data.skip(1)[i - 1] == data[i]);
            }
        }
    }
}

/// Feeding one more chunk onto a stream of whole blocks appends exactly one
/// chunk to the cut, whether the new piece is a whole block or a tail.
pub proof fn lemma_chunks_append(s: Seq<u8>, b: Seq<u8>, size: nat, k: nat)
    requires
        size >= 1,
        s.len() == k * size,
        1 <= b.len() <= size,
    ensures
        chunks_of(s + b, size) == chunks_of(s, size).push(b),
    decreases k,
{
    if k == 0 {
        assert(s.len() == 0) by (nonlinear_arith)
            requires
                s.len() == k * size,
                k == 0,
        ;
        assert(s + b =~= b);
        assert(chunks_of(s, size) =~= Seq::<Seq<u8>>::empty());
        assert(chunks_of(b, size) == seq![b]);
        assert(chunks_of(s, size).push(b) =~= seq![b]);
    } else {
        assert(s.len() >= size && s.len() - size == (k - 1) * size) by (nonlinear_arith)
            requires
                s.len() == k * size,
                k >= 1,
                size >= 1,
        ;
        assert((s + b).len() > size);
        assert((s + b).take(size as int) =~= s.take(size as int));
        assert((s + b).skip(size as int) =~= s.skip(size as int) + b);
        lemma_chunks_append(s.skip(size as int), b, size, (k - 1) as nat);
        if s.len() == size {
            assert(s.skip(size as int) =~= Seq::<u8>::empty());
            assert(chunks_of(s, size) == seq![s]);
            assert(s.take(size as int) =~= s);
            assert(chunks_of(s + b, size) =~= chunks_of(s, size).push(b));
        } else {
            assert(chunks_of(s, size) =~= seq![s.take(size as int)] + chunks_of(
                s.skip(size as int),
                size,
            ));
            assert(chunks_of(s + b, size) =~= chunks_of(s, size).push(b));
        }
    }
}

/// The total length of a run of chunks.
pub open spec fn total_len(parts: Seq<Seq<u8>>) -> nat
    decreases parts.len(),
{
    if parts.len() == 0 {
        0
    } else {
        parts[0].len() + total_len(parts.skip(1))
    }
}

/// The chunks of `data` together hold exactly `data.len()` bytes.
pub proof fn lemma_chunks_total_len(data: Seq<u8>, size: nat)
    requires
        size >= 1,
    ensures
        total_len(chunks_of(data, size)) == data.len(),
    decreases data.len(),
{
    if data.len() == 0 {
    } else if data.len() <= size {
        assert(chunks_of(data, size) == seq![data]);
        assert(chunks_of(data, size)[0] == data);
        assert(chunks_of(data, size).skip(1) =~= Seq::<Seq<u8>>::empty());
        assert(total_len(chunks_of(data, size).skip(1)) == 0);
    } else {
        lemma_chunks_total_len(data.skip(size as int), size);
        assert(chunks_of(data, size).skip(1) =~= chunks_of(data.skip(size as int), size));
        assert(chunks_of(data, size)[0] == data.take(size as int));
        assert(total_len(chunks_of(data, size)) == size + data.skip(size as int).len());
    }
}

} // verus!
