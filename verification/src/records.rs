//! Serialization of the repository's records.
//!
//! Each record is a MessagePack map keyed by field name, in the canonical
//! (minimal) widths on the way out.  Readers accept any width, any field
//! order, skip unknown fields, and tolerate the absence of optional ones;
//! a record missing a required field does not decode.

use vstd::prelude::*;
use crate::msgpack::{
    mp_str, mp_uint, mp_int, mp_map_header, mp_array_header, write_str, write_uint, write_int,
    write_map_header, write_array_header, read_str, read_uint, read_int, read_map_header,
    read_array_header, skip_value, bytes_eq, encoded_at, lemma_encoded_at_split,
};
use crate::metadata::{
    BackupSummary, BackupObject, Backup, PendingBackup, Config, ChunkIndex, str_fits, summary_wf,
    summaries_wf, object_wf, backup_wf, pending_wf, config_wf, tree_keys_unique, tree_contains,
    summary_eq, summaries_eq, object_eq, backup_eq, pending_eq, config_eq, str_list_eq,
};

verus! {

/// The serialized field name `message`.
pub open spec fn key_message() -> Seq<u8> {
    seq![109u8, 101u8, 115u8, 115u8, 97u8, 103u8, 101u8]
}

/// Appends the encoded field name `message`.
pub fn write_key_message(out: &mut Vec<u8>)
    ensures
        final(out)@ == old(out)@ + mp_str(key_message()),
{
    let k: [u8; 7] = [109u8, 101u8, 115u8, 115u8, 97u8, 103u8, 101u8];
    proof {
        assert(k@ =~= key_message());
    }
    write_str(out, k.as_slice());
}

/// The field name `message` as bytes, for key dispatch while reading.
pub fn key_message_bytes() -> (out: Vec<u8>)
    ensures
        out@ == key_message(),
{
    let k: [u8; 7] = [109u8, 101u8, 115u8, 115u8, 97u8, 103u8, 101u8];
    proof {
        assert(k@ =~= key_message());
    }
    vstd::slice::slice_to_vec(k.as_slice())
}

/// The serialized field name `hash`.
pub open spec fn key_hash() -> Seq<u8> {
    seq![104u8, 97u8, 115u8, 104u8]
}

/// Appends the encoded field name `hash`.
pub fn write_key_hash(out: &mut Vec<u8>)
    ensures
        final(out)@ == old(out)@ + mp_str(key_hash()),
{
    let k: [u8; 4] = [104u8, 97u8, 115u8, 104u8];
    proof {
        assert(k@ =~= key_hash());
    }
    write_str(out, k.as_slice());
}

/// The field name `hash` as bytes, for key dispatch while reading.
pub fn key_hash_bytes() -> (out: Vec<u8>)
    ensures
        out@ == key_hash(),
{
    let k: [u8; 4] = [104u8, 97u8, 115u8, 104u8];
    proof {
        assert(k@ =~= key_hash());
    }
    vstd::slice::slice_to_vec(k.as_slice())
}

/// The serialized field name `timestamp`.
pub open spec fn key_timestamp() -> Seq<u8> {
    seq![116u8, 105u8, 109u8, 101u8, 115u8, 116u8, 97u8, 109u8, 112u8]
}

/// Appends the encoded field name `timestamp`.
pub fn write_key_timestamp(out: &mut Vec<u8>)
    ensures
        final(out)@ == old(out)@ + mp_str(key_timestamp()),
{
    let k: [u8; 9] = [116u8, 105u8, 109u8, 101u8, 115u8, 116u8, 97u8, 109u8, 112u8];
    proof {
        assert(k@ =~= key_timestamp());
    }
    write_str(out, k.as_slice());
}

/// The field name `timestamp` as bytes, for key dispatch while reading.
pub fn key_timestamp_bytes() -> (out: Vec<u8>)
    ensures
        out@ == key_timestamp(),
{
    let k: [u8; 9] = [116u8, 105u8, 109u8, 101u8, 115u8, 116u8, 97u8, 109u8, 112u8];
    proof {
        assert(k@ =~= key_timestamp());
    }
    vstd::slice::slice_to_vec(k.as_slice())
}

/// The serialized field name `size`.
pub open spec fn key_size() -> Seq<u8> {
    seq![115u8, 105u8, 122u8, 101u8]
}

/// Appends the encoded field name `size`.
pub fn write_key_size(out: &mut Vec<u8>)
    ensures
        final(out)@ == old(out)@ + mp_str(key_size()),
{
    let k: [u8; 4] = [115u8, 105u8, 122u8, 101u8];
    proof {
        assert(k@ =~= key_size());
    }
    write_str(out, k.as_slice());
}

/// The field name `size` as bytes, for key dispatch while reading.
pub fn key_size_bytes() -> (out: Vec<u8>)
    ensures
        out@ == key_size(),
{
    let k: [u8; 4] = [115u8, 105u8, 122u8, 101u8];
    proof {
        assert(k@ =~= key_size());
    }
    vstd::slice::slice_to_vec(k.as_slice())
}

/// The serialized field name `author`.
pub open spec fn key_author() -> Seq<u8> {
    seq![97u8, 117u8, 116u8, 104u8, 111u8, 114u8]
}

/// Appends the encoded field name `author`.
pub fn write_key_author(out: &mut Vec<u8>)
    ensures
        final(out)@ == old(out)@ + mp_str(key_author()),
{
    let k: [u8; 6] = [97u8, 117u8, 116u8, 104u8, 111u8, 114u8];
    proof {
        assert(k@ =~= key_author());
    }
    write_str(out, k.as_slice());
}

/// The field name `author` as bytes, for key dispatch while reading.
pub fn key_author_bytes() -> (out: Vec<u8>)
    ensures
        out@ == key_author(),
{
    let k: [u8; 6] = [97u8, 117u8, 116u8, 104u8, 111u8, 114u8];
    proof {
        assert(k@ =~= key_author());
    }
    vstd::slice::slice_to_vec(k.as_slice())
}

/// The serialized field name `tree`.
pub open spec fn key_tree() -> Seq<u8> {
    seq![116u8, 114u8, 101u8, 101u8]
}

/// Appends the encoded field name `tree`.
pub fn write_key_tree(out: &mut Vec<u8>)
    ensures
        final(out)@ == old(out)@ + mp_str(key_tree()),
{
    let k: [u8; 4] = [116u8, 114u8, 101u8, 101u8];
    proof {
        assert(k@ =~= key_tree());
    }
    write_str(out, k.as_slice());
}

/// The field name `tree` as bytes, for key dispatch while reading.
pub fn key_tree_bytes() -> (out: Vec<u8>)
    ensures
        out@ == key_tree(),
{
    let k: [u8; 4] = [116u8, 114u8, 101u8, 101u8];
    proof {
        assert(k@ =~= key_tree());
    }
    vstd::slice::slice_to_vec(k.as_slice())
}

/// The serialized field name `content_type`.
pub open spec fn key_content_type() -> Seq<u8> {
    seq![99u8, 111u8, 110u8, 116u8, 101u8, 110u8, 116u8, 95u8, 116u8, 121u8, 112u8, 101u8]
}

/// Appends the encoded field name `content_type`.
pub fn write_key_content_type(out: &mut Vec<u8>)
    ensures
        final(out)@ == old(out)@ + mp_str(key_content_type()),
{
    let k: [u8; 12] = [99u8, 111u8, 110u8, 116u8, 101u8, 110u8, 116u8, 95u8, 116u8, 121u8, 112u8, 101u8];
    proof {
        assert(k@ =~= key_content_type());
    }
    write_str(out, k.as_slice());
}

/// The field name `content_type` as bytes, for key dispatch while reading.
pub fn key_content_type_bytes() -> (out: Vec<u8>)
    ensures
        out@ == key_content_type(),
{
    let k: [u8; 12] = [99u8, 111u8, 110u8, 116u8, 101u8, 110u8, 116u8, 95u8, 116u8, 121u8, 112u8, 101u8];
    proof {
        assert(k@ =~= key_content_type());
    }
    vstd::slice::slice_to_vec(k.as_slice())
}

/// The serialized field name `permissions`.
pub open spec fn key_permissions() -> Seq<u8> {
    seq![112u8, 101u8, 114u8, 109u8, 105u8, 115u8, 115u8, 105u8, 111u8, 110u8, 115u8]
}

/// Appends the encoded field name `permissions`.
pub fn write_key_permissions(out: &mut Vec<u8>)
    ensures
        final(out)@ == old(out)@ + mp_str(key_permissions()),
{
    let k: [u8; 11] = [112u8, 101u8, 114u8, 109u8, 105u8, 115u8, 115u8, 105u8, 111u8, 110u8, 115u8];
    proof {
        assert(k@ =~= key_permissions());
    }
    write_str(out, k.as_slice());
}

/// The field name `permissions` as bytes, for key dispatch while reading.
pub fn key_permissions_bytes() -> (out: Vec<u8>)
    ensures
        out@ == key_permissions(),
{
    let k: [u8; 11] = [112u8, 101u8, 114u8, 109u8, 105u8, 115u8, 115u8, 105u8, 111u8, 110u8, 115u8];
    proof {
        assert(k@ =~= key_permissions());
    }
    vstd::slice::slice_to_vec(k.as_slice())
}

/// The serialized field name `chunks`.
pub open spec fn key_chunks() -> Seq<u8> {
    seq![99u8, 104u8, 117u8, 110u8, 107u8, 115u8]
}

/// Appends the encoded field name `chunks`.
pub fn write_key_chunks(out: &mut Vec<u8>)
    ensures
        final(out)@ == old(out)@ + mp_str(key_chunks()),
{
    let k: [u8; 6] = [99u8, 104u8, 117u8, 110u8, 107u8, 115u8];
    proof {
        assert(k@ =~= key_chunks());
    }
    write_str(out, k.as_slice());
}

/// The field name `chunks` as bytes, for key dispatch while reading.
pub fn key_chunks_bytes() -> (out: Vec<u8>)
    ensures
        out@ == key_chunks(),
{
    let k: [u8; 6] = [99u8, 104u8, 117u8, 110u8, 107u8, 115u8];
    proof {
        assert(k@ =~= key_chunks());
    }
    vstd::slice::slice_to_vec(k.as_slice())
}

/// The serialized field name `refcount`.
pub open spec fn key_refcount() -> Seq<u8> {
    seq![114u8, 101u8, 102u8, 99u8, 111u8, 117u8, 110u8, 116u8]
}

/// Appends the encoded field name `refcount`.
pub fn write_key_refcount(out: &mut Vec<u8>)
    ensures
        final(out)@ == old(out)@ + mp_str(key_refcount()),
{
    let k: [u8; 8] = [114u8, 101u8, 102u8, 99u8, 111u8, 117u8, 110u8, 116u8];
    proof {
        assert(k@ =~= key_refcount());
    }
    write_str(out, k.as_slice());
}

/// The field name `refcount` as bytes, for key dispatch while reading.
pub fn key_refcount_bytes() -> (out: Vec<u8>)
    ensures
        out@ == key_refcount(),
{
    let k: [u8; 8] = [114u8, 101u8, 102u8, 99u8, 111u8, 117u8, 110u8, 116u8];
    proof {
        assert(k@ =~= key_refcount());
    }
    vstd::slice::slice_to_vec(k.as_slice())
}

/// The serialized field name `compress`.
pub open spec fn key_compress() -> Seq<u8> {
    seq![99u8, 111u8, 109u8, 112u8, 114u8, 101u8, 115u8, 115u8]
}

/// Appends the encoded field name `compress`.
pub fn write_key_compress(out: &mut Vec<u8>)
    ensures
        final(out)@ == old(out)@ + mp_str(key_compress()),
{
    let k: [u8; 8] = [99u8, 111u8, 109u8, 112u8, 114u8, 101u8, 115u8, 115u8];
    proof {
        assert(k@ =~= key_compress());
    }
    write_str(out, k.as_slice());
}

/// The field name `compress` as bytes, for key dispatch while reading.
pub fn key_compress_bytes() -> (out: Vec<u8>)
    ensures
        out@ == key_compress(),
{
    let k: [u8; 8] = [99u8, 111u8, 109u8, 112u8, 114u8, 101u8, 115u8, 115u8];
    proof {
        assert(k@ =~= key_compress());
    }
    vstd::slice::slice_to_vec(k.as_slice())
}

/// The serialized field name `chunk_size`.
pub open spec fn key_chunk_size() -> Seq<u8> {
    seq![99u8, 104u8, 117u8, 110u8, 107u8, 95u8, 115u8, 105u8, 122u8, 101u8]
}

/// Appends the encoded field name `chunk_size`.
pub fn write_key_chunk_size(out: &mut Vec<u8>)
    ensures
        final(out)@ == old(out)@ + mp_str(key_chunk_size()),
{
    let k: [u8; 10] = [99u8, 104u8, 117u8, 110u8, 107u8, 95u8, 115u8, 105u8, 122u8, 101u8];
    proof {
        assert(k@ =~= key_chunk_size());
    }
    write_str(out, k.as_slice());
}

/// The field name `chunk_size` as bytes, for key dispatch while reading.
pub fn key_chunk_size_bytes() -> (out: Vec<u8>)
    ensures
        out@ == key_chunk_size(),
{
    let k: [u8; 10] = [99u8, 104u8, 117u8, 110u8, 107u8, 95u8, 115u8, 105u8, 122u8, 101u8];
    proof {
        assert(k@ =~= key_chunk_size());
    }
    vstd::slice::slice_to_vec(k.as_slice())
}

/// The serialized field name `concurrency`.
pub open spec fn key_concurrency() -> Seq<u8> {
    seq![99u8, 111u8, 110u8, 99u8, 117u8, 114u8, 114u8, 101u8, 110u8, 99u8, 121u8]
}

/// Appends the encoded field name `concurrency`.
pub fn write_key_concurrency(out: &mut Vec<u8>)
    ensures
        final(out)@ == old(out)@ + mp_str(key_concurrency()),
{
    let k: [u8; 11] = [99u8, 111u8, 110u8, 99u8, 117u8, 114u8, 114u8, 101u8, 110u8, 99u8, 121u8];
    proof {
        assert(k@ =~= key_concurrency());
    }
    write_str(out, k.as_slice());
}

/// The field name `concurrency` as bytes, for key dispatch while reading.
pub fn key_concurrency_bytes() -> (out: Vec<u8>)
    ensures
        out@ == key_concurrency(),
{
    let k: [u8; 11] = [99u8, 111u8, 110u8, 99u8, 117u8, 114u8, 114u8, 101u8, 110u8, 99u8, 121u8];
    proof {
        assert(k@ =~= key_concurrency());
    }
    vstd::slice::slice_to_vec(k.as_slice())
}

/// The serialized field name `ignore_patterns`.
pub open spec fn key_ignore_patterns() -> Seq<u8> {
    seq![105u8, 103u8, 110u8, 111u8, 114u8, 101u8, 95u8, 112u8, 97u8, 116u8, 116u8, 101u8, 114u8, 110u8, 115u8]
}

/// Appends the encoded field name `ignore_patterns`.
pub fn write_key_ignore_patterns(out: &mut Vec<u8>)
    ensures
        final(out)@ == old(out)@ + mp_str(key_ignore_patterns()),
{
    let k: [u8; 15] = [105u8, 103u8, 110u8, 111u8, 114u8, 101u8, 95u8, 112u8, 97u8, 116u8, 116u8, 101u8, 114u8, 110u8, 115u8];
    proof {
        assert(k@ =~= key_ignore_patterns());
    }
    write_str(out, k.as_slice());
}

/// The field name `ignore_patterns` as bytes, for key dispatch while reading.
pub fn key_ignore_patterns_bytes() -> (out: Vec<u8>)
    ensures
        out@ == key_ignore_patterns(),
{
    let k: [u8; 15] = [105u8, 103u8, 110u8, 111u8, 114u8, 101u8, 95u8, 112u8, 97u8, 116u8, 116u8, 101u8, 114u8, 110u8, 115u8];
    proof {
        assert(k@ =~= key_ignore_patterns());
    }
    vstd::slice::slice_to_vec(k.as_slice())
}

/// The serialized field name `processed_chunks`.
pub open spec fn key_processed_chunks() -> Seq<u8> {
    seq![112u8, 114u8, 111u8, 99u8, 101u8, 115u8, 115u8, 101u8, 100u8, 95u8, 99u8, 104u8, 117u8, 110u8, 107u8, 115u8]
}

/// Appends the encoded field name `processed_chunks`.
pub fn write_key_processed_chunks(out: &mut Vec<u8>)
    ensures
        final(out)@ == old(out)@ + mp_str(key_processed_chunks()),
{
    let k: [u8; 16] = [112u8, 114u8, 111u8, 99u8, 101u8, 115u8, 115u8, 101u8, 100u8, 95u8, 99u8, 104u8, 117u8, 110u8, 107u8, 115u8];
    proof {
        assert(k@ =~= key_processed_chunks());
    }
    write_str(out, k.as_slice());
}

/// The field name `processed_chunks` as bytes, for key dispatch while reading.
pub fn key_processed_chunks_bytes() -> (out: Vec<u8>)
    ensures
        out@ == key_processed_chunks(),
{
    let k: [u8; 16] = [112u8, 114u8, 111u8, 99u8, 101u8, 115u8, 115u8, 101u8, 100u8, 95u8, 99u8, 104u8, 117u8, 110u8, 107u8, 115u8];
    proof {
        assert(k@ =~= key_processed_chunks());
    }
    vstd::slice::slice_to_vec(k.as_slice())
}

/// The serialized field name `storage_type`.
pub open spec fn key_storage_type() -> Seq<u8> {
    seq![115u8, 116u8, 111u8, 114u8, 97u8, 103u8, 101u8, 95u8, 116u8, 121u8, 112u8, 101u8]
}

/// Appends the encoded field name `storage_type`.
pub fn write_key_storage_type(out: &mut Vec<u8>)
    ensures
        final(out)@ == old(out)@ + mp_str(key_storage_type()),
{
    let k: [u8; 12] = [115u8, 116u8, 111u8, 114u8, 97u8, 103u8, 101u8, 95u8, 116u8, 121u8, 112u8, 101u8];
    proof {
        assert(k@ =~= key_storage_type());
    }
    write_str(out, k.as_slice());
}

/// The field name `storage_type` as bytes, for key dispatch while reading.
pub fn key_storage_type_bytes() -> (out: Vec<u8>)
    ensures
        out@ == key_storage_type(),
{
    let k: [u8; 12] = [115u8, 116u8, 111u8, 114u8, 97u8, 103u8, 101u8, 95u8, 116u8, 121u8, 112u8, 101u8];
    proof {
        assert(k@ =~= key_storage_type());
    }
    vstd::slice::slice_to_vec(k.as_slice())
}

/// The serialized field name `fields`.
pub open spec fn key_fields() -> Seq<u8> {
    seq![102u8, 105u8, 101u8, 108u8, 100u8, 115u8]
}

/// Appends the encoded field name `fields`.
pub fn write_key_fields(out: &mut Vec<u8>)
    ensures
        final(out)@ == old(out)@ + mp_str(key_fields()),
{
    let k: [u8; 6] = [102u8, 105u8, 101u8, 108u8, 100u8, 115u8];
    proof {
        assert(k@ =~= key_fields());
    }
    write_str(out, k.as_slice());
}

/// The field name `fields` as bytes, for key dispatch while reading.
pub fn key_fields_bytes() -> (out: Vec<u8>)
    ensures
        out@ == key_fields(),
{
    let k: [u8; 6] = [102u8, 105u8, 101u8, 108u8, 100u8, 115u8];
    proof {
        assert(k@ =~= key_fields());
    }
    vstd::slice::slice_to_vec(k.as_slice())
}

/// The encoding of a run of strings, in order.
pub open spec fn enc_str_list(items: Seq<Vec<u8>>) -> Seq<u8>
    decreases items.len(),
{
    if items.len() == 0 {
        Seq::empty()
    } else {
        mp_str(items[0]@) + enc_str_list(items.skip(1))
    }
}

/// The encoding of an array of strings.
pub open spec fn enc_str_array(items: Seq<Vec<u8>>) -> Seq<u8> {
    mp_array_header(items.len()) + enc_str_list(items)
}

proof fn lemma_enc_str_list_push(items: Seq<Vec<u8>>, x: Vec<u8>)
    ensures
        enc_str_list(items.push(x)) == enc_str_list(items) + mp_str(x@),
    decreases items.len(),
{
    if items.len() == 0 {
        assert(items.push(x).skip(1) =~= Seq::<Vec<u8>>::empty());
        assert(items.push(x)[0] == x);
        assert(enc_str_list(items.push(x).skip(1)) =~= Seq::<u8>::empty());
        assert(enc_str_list(items) =~= Seq::<u8>::empty());
        assert(enc_str_list(items.push(x)) =~= enc_str_list(items) + mp_str(x@));
    } else {
        assert(items.push(x).skip(1) =~= items.skip(1).push(x));
        assert(items.push(x)[0] == items[0]);
        lemma_enc_str_list_push(items.skip(1), x);
        assert(enc_str_list(items.push(x)) =~= enc_str_list(items) + mp_str(x@));
    }
}

/// Appends the encoded array of strings.
pub fn write_str_array(out: &mut Vec<u8>, items: &Vec<Vec<u8>>)
    requires
        items@.len() < 0x100000000,
        forall|i: int| 0 <= i < items@.len() ==> str_fits((#[trigger] items@[i])@),
    ensures
        final(out)@ == old(out)@ + enc_str_array(items@),
{
    write_array_header(out, items.len() as u64);
    let n = items.len();
    let mut i: usize = 0;
    while i < n
        invariant
            i <= n,
            n == items@.len(),
            forall|j: int| 0 <= j < items@.len() ==> str_fits((#[trigger] items@[j])@),
            out@ == old(out)@ + mp_array_header(items@.len()) + enc_str_list(items@.take(i as int)),
        decreases n - i,
    {
        write_str(out, items[i].as_slice());
        proof {
            assert(items@.take(i + 1) =~= items@.take(i as int).push(items@[i as int]));
            lemma_enc_str_list_push(items@.take(i as int), items@[i as int]);
            assert(out@ =~= old(out)@ + mp_array_header(items@.len()) + enc_str_list(
                items@.take(i + 1),
            ));
        }
        i = i + 1;
    }
    proof {
        assert(items@.take(n as int) =~= items@);
        assert(out@ =~= old(out)@ + enc_str_array(items@));
    }
}

/// The encoding of an optional unsigned field: present fields carry their
/// key, absent fields leave no trace.
pub open spec fn enc_opt_uint(key: Seq<u8>, v: Option<u64>) -> Seq<u8> {
    match v {
        Some(x) => mp_str(key) + mp_uint(x as nat),
        None => Seq::empty(),
    }
}

/// How many fields a summary record carries.
pub open spec fn summary_field_count(s: BackupSummary) -> nat {
    2 + (if s.timestamp is Some {
        1nat
    } else {
        0nat
    }) + (if s.size is Some {
        1nat
    } else {
        0nat
    })
}

/// The encoding of one backup summary.
pub open spec fn enc_summary(s: BackupSummary) -> Seq<u8> {
    mp_map_header(summary_field_count(s)) + mp_str(key_message()) + mp_str(s.message@) + mp_str(
        key_hash(),
    ) + mp_str(s.hash@) + enc_opt_uint(key_timestamp(), s.timestamp) + enc_opt_uint(
        key_size(),
        s.size,
    )
}

/// The encoding of a run of summaries, in order.
pub open spec fn enc_summary_list(items: Seq<BackupSummary>) -> Seq<u8>
    decreases items.len(),
{
    if items.len() == 0 {
        Seq::empty()
    } else {
        enc_summary(items[0]) + enc_summary_list(items.skip(1))
    }
}

/// The encoding of the summaries blob: an array of summary records,
/// newest first.
pub open spec fn enc_summaries(items: Seq<BackupSummary>) -> Seq<u8> {
    mp_array_header(items.len()) + enc_summary_list(items)
}

proof fn lemma_enc_summary_list_push(items: Seq<BackupSummary>, x: BackupSummary)
    ensures
        enc_summary_list(items.push(x)) == enc_summary_list(items) + enc_summary(x),
    decreases items.len(),
{
    if items.len() == 0 {
        assert(items.push(x).skip(1) =~= Seq::<BackupSummary>::empty());
        assert(items.push(x)[0] == x);
        assert(enc_summary_list(items.push(x).skip(1)) =~= Seq::<u8>::empty());
        assert(enc_summary_list(items) =~= Seq::<u8>::empty());
        assert(enc_summary_list(items.push(x)) =~= enc_summary_list(items) + enc_summary(x));
    } else {
        assert(items.push(x).skip(1) =~= items.skip(1).push(x));
        assert(items.push(x)[0] == items[0]);
        lemma_enc_summary_list_push(items.skip(1), x);
        assert(enc_summary_list(items.push(x)) =~= enc_summary_list(items) + enc_summary(x));
    }
}

/// Appends the encoding of one summary.
#[verifier::rlimit(60)]
pub fn encode_summary(out: &mut Vec<u8>, s: &BackupSummary)
    requires
        summary_wf(*s),
    ensures
        final(out)@ == old(out)@ + enc_summary(*s),
{
    let mut count: u64 = 2;
    if s.timestamp.is_some() {
        count = count + 1;
    }
    if s.size.is_some() {
        count = count + 1;
    }
    write_map_header(out, count);
    write_key_message(out);
    write_str(out, s.message.as_slice());
    write_key_hash(out);
    write_str(out, s.hash.as_slice());
    match s.timestamp {
        Some(t) => {
            write_key_timestamp(out);
            write_uint(out, t);
        },
        None => {},
    }
    match s.size {
        Some(z) => {
            write_key_size(out);
            write_uint(out, z);
        },
        None => {},
    }
    proof {
        assert(final(out)@ =~= old(out)@ + enc_summary(*s));
    }
}

/// Serializes the summaries blob: an array of summary records.
pub fn encode_summaries(items: &Vec<BackupSummary>) -> (out: Vec<u8>)
    requires
        summaries_wf(items@),
    ensures
        out@ == enc_summaries(items@),
{
    let mut out: Vec<u8> = Vec::new();
    write_array_header(&mut out, items.len() as u64);
    let n = items.len();
    let mut i: usize = 0;
    while i < n
        invariant
            i <= n,
            n == items@.len(),
            summaries_wf(items@),
            out@ == mp_array_header(items@.len()) + enc_summary_list(items@.take(i as int)),
        decreases n - i,
    {
        encode_summary(&mut out, &items[i]);
        proof {
            assert(items@.take(i + 1) =~= items@.take(i as int).push(items@[i as int]));
            lemma_enc_summary_list_push(items@.take(i as int), items@[i as int]);
            assert(out@ =~= mp_array_header(items@.len()) + enc_summary_list(items@.take(i + 1)));
        }
        i = i + 1;
    }
    proof {
        assert(items@.take(n as int) =~= items@);
        assert(out@ =~= enc_summaries(items@));
    }
    out
}

/// The encoding of one manifest file record.
pub open spec fn enc_backup_object(o: BackupObject) -> Seq<u8> {
    mp_map_header(5) + mp_str(key_hash()) + mp_str(o.hash@) + mp_str(key_size()) + mp_uint(
        o.size as nat,
    ) + mp_str(key_content_type()) + mp_str(o.content_type@) + mp_str(key_permissions()) + mp_uint(
        o.permissions as nat,
    ) + mp_str(key_chunks()) + enc_str_array(o.chunks@)
}

/// The encoding of a run of tree entries, in order.
pub open spec fn enc_tree_list(tree: Seq<(Vec<u8>, BackupObject)>) -> Seq<u8>
    decreases tree.len(),
{
    if tree.len() == 0 {
        Seq::empty()
    } else {
        mp_str(tree[0].0@) + enc_backup_object(tree[0].1) + enc_tree_list(tree.skip(1))
    }
}

/// The encoding of a whole backup manifest.
pub open spec fn enc_backup(b: Backup) -> Seq<u8> {
    mp_map_header(5) + mp_str(key_message()) + mp_str(b.message@) + mp_str(key_hash()) + mp_str(
        b.hash@,
    ) + mp_str(key_timestamp()) + mp_uint(b.timestamp as nat) + mp_str(key_author()) + mp_str(
        b.author@,
    ) + mp_str(key_tree()) + mp_map_header(b.tree@.len()) + enc_tree_list(b.tree@)
}

proof fn lemma_enc_tree_list_push(tree: Seq<(Vec<u8>, BackupObject)>, x: (Vec<u8>, BackupObject))
    ensures
        enc_tree_list(tree.push(x)) == enc_tree_list(tree) + mp_str(x.0@) + enc_backup_object(x.1),
    decreases tree.len(),
{
    if tree.len() == 0 {
        assert(tree.push(x).skip(1) =~= Seq::<(Vec<u8>, BackupObject)>::empty());
        assert(tree.push(x)[0] == x);
        assert(enc_tree_list(tree.push(x).skip(1)) =~= Seq::<u8>::empty());
        assert(enc_tree_list(tree) =~= Seq::<u8>::empty());
        assert(enc_tree_list(tree.push(x)) =~= enc_tree_list(tree) + mp_str(x.0@)
            + enc_backup_object(x.1));
    } else {
        assert(tree.push(x).skip(1) =~= tree.skip(1).push(x));
        assert(tree.push(x)[0] == tree[0]);
        lemma_enc_tree_list_push(tree.skip(1), x);
        assert(enc_tree_list(tree.push(x)) =~= enc_tree_list(tree) + mp_str(x.0@)
            + enc_backup_object(x.1));
    }
}

/// Appends the encoding of one manifest file record.
#[verifier::rlimit(60)]
pub fn encode_backup_object(out: &mut Vec<u8>, o: &BackupObject)
    requires
        object_wf(*o),
    ensures
        final(out)@ == old(out)@ + enc_backup_object(*o),
{
    write_map_header(out, 5);
    write_key_hash(out);
    write_str(out, o.hash.as_slice());
    write_key_size(out);
    write_uint(out, o.size);
    write_key_content_type(out);
    write_str(out, o.content_type.as_slice());
    write_key_permissions(out);
    write_uint(out, o.permissions as u64);
    write_key_chunks(out);
    write_str_array(out, &o.chunks);
    proof {
        assert(final(out)@ =~= old(out)@ + enc_backup_object(*o));
    }
}

/// Serializes a backup manifest.
pub fn encode_backup(b: &Backup) -> (out: Vec<u8>)
    requires
        backup_wf(*b),
    ensures
        out@ == enc_backup(*b),
{
    let mut out: Vec<u8> = Vec::new();
    write_map_header(&mut out, 5);
    write_key_message(&mut out);
    write_str(&mut out, b.message.as_slice());
    write_key_hash(&mut out);
    write_str(&mut out, b.hash.as_slice());
    write_key_timestamp(&mut out);
    write_uint(&mut out, b.timestamp);
    write_key_author(&mut out);
    write_str(&mut out, b.author.as_slice());
    write_key_tree(&mut out);
    write_map_header(&mut out, b.tree.len() as u64);
    let ghost prefix = out@;
    let n = b.tree.len();
    let mut i: usize = 0;
    while i < n
        invariant
            i <= n,
            n == b.tree@.len(),
            backup_wf(*b),
            out@ == prefix + enc_tree_list(b.tree@.take(i as int)),
        decreases n - i,
    {
        write_str(&mut out, b.tree[i].0.as_slice());
        encode_backup_object(&mut out, &b.tree[i].1);
        proof {
            assert(b.tree@.take(i + 1) =~= b.tree@.take(i as int).push(b.tree@[i as int]));
            lemma_enc_tree_list_push(b.tree@.take(i as int), b.tree@[i as int]);
            assert(out@ =~= prefix + enc_tree_list(b.tree@.take(i + 1)));
        }
        i = i + 1;
    }
    proof {
        assert(b.tree@.take(n as int) =~= b.tree@);
        assert(out@ =~= enc_backup(*b));
    }
    out
}

/// The encoding of a pending-backup journal.
pub open spec fn enc_pending(p: PendingBackup) -> Seq<u8> {
    mp_map_header(6) + mp_str(key_message()) + mp_str(p.message@) + mp_str(key_compress()) + mp_int(
        p.compress as int,
    ) + mp_str(key_chunk_size()) + mp_uint(p.chunk_size as nat) + mp_str(key_concurrency())
        + mp_uint(p.concurrency as nat) + mp_str(key_ignore_patterns()) + enc_str_array(
        p.ignore_patterns@,
    ) + mp_str(key_processed_chunks()) + enc_str_array(p.processed_chunks@)
}

/// Serializes a pending-backup journal.
pub fn encode_pending(p: &PendingBackup) -> (out: Vec<u8>)
    requires
        pending_wf(*p),
    ensures
        out@ == enc_pending(*p),
{
    let mut out: Vec<u8> = Vec::new();
    write_map_header(&mut out, 6);
    write_key_message(&mut out);
    write_str(&mut out, p.message.as_slice());
    write_key_compress(&mut out);
    write_int(&mut out, p.compress as i64);
    write_key_chunk_size(&mut out);
    write_uint(&mut out, p.chunk_size);
    write_key_concurrency(&mut out);
    write_uint(&mut out, p.concurrency);
    write_key_ignore_patterns(&mut out);
    write_str_array(&mut out, &p.ignore_patterns);
    write_key_processed_chunks(&mut out);
    write_str_array(&mut out, &p.processed_chunks);
    proof {
        assert(out@ =~= enc_pending(*p));
    }
    out
}

/// The encoding of the user configuration.
pub open spec fn enc_config(c: Config) -> Seq<u8> {
    mp_map_header(1) + mp_str(key_author()) + mp_str(c.author@)
}

/// Serializes the user configuration.
pub fn encode_config(c: &Config) -> (out: Vec<u8>)
    requires
        config_wf(*c),
    ensures
        out@ == enc_config(*c),
{
    let mut out: Vec<u8> = Vec::new();
    write_map_header(&mut out, 1);
    write_key_author(&mut out);
    write_str(&mut out, c.author.as_slice());
    proof {
        assert(out@ =~= enc_config(*c));
    }
    out
}

/// Whether a string's length fits the serialized form.
fn fits(v: &Vec<u8>) -> (out: bool)
    ensures
        out == str_fits(v@),
{
    (v.len() as u64) < 0x100000000u64
}

/// The canonical field names of one record never collide, so the key
/// dispatch of a reader takes exactly one branch on a canonical record.
pub proof fn lemma_keys_distinct()
    ensures
        key_message() != key_hash(),
        key_message() != key_timestamp(),
        key_message() != key_size(),
        key_hash() != key_timestamp(),
        key_hash() != key_size(),
        key_timestamp() != key_size(),
        key_message() != key_author(),
        key_message() != key_tree(),
        key_hash() != key_author(),
        key_hash() != key_tree(),
        key_timestamp() != key_author(),
        key_timestamp() != key_tree(),
        key_author() != key_tree(),
        key_size() != key_author(),
        key_size() != key_tree(),
        key_hash() != key_content_type(),
        key_hash() != key_permissions(),
        key_hash() != key_chunks(),
        key_size() != key_content_type(),
        key_size() != key_permissions(),
        key_size() != key_chunks(),
        key_content_type() != key_permissions(),
        key_content_type() != key_chunks(),
        key_permissions() != key_chunks(),
        key_message() != key_compress(),
        key_message() != key_chunk_size(),
        key_message() != key_concurrency(),
        key_message() != key_ignore_patterns(),
        key_message() != key_processed_chunks(),
        key_compress() != key_chunk_size(),
        key_compress() != key_concurrency(),
        key_compress() != key_ignore_patterns(),
        key_compress() != key_processed_chunks(),
        key_chunk_size() != key_concurrency(),
        key_chunk_size() != key_ignore_patterns(),
        key_chunk_size() != key_processed_chunks(),
        key_concurrency() != key_ignore_patterns(),
        key_concurrency() != key_processed_chunks(),
        key_ignore_patterns() != key_processed_chunks(),
        key_storage_type() != key_fields(),
{
    assert(key_message().len() == 7);
    assert(key_hash().len() == 4);
    assert(key_timestamp().len() == 9);
    assert(key_size().len() == 4);
    assert(key_author().len() == 6);
    assert(key_tree().len() == 4);
    assert(key_content_type().len() == 12);
    assert(key_permissions().len() == 11);
    assert(key_chunks().len() == 6);
    assert(key_compress().len() == 8);
    assert(key_chunk_size().len() == 10);
    assert(key_concurrency().len() == 11);
    assert(key_ignore_patterns().len() == 15);
    assert(key_processed_chunks().len() == 16);
    assert(key_storage_type().len() == 12);
    assert(key_fields().len() == 6);
    assert(key_hash()[0] == 104u8 && key_size()[0] == 115u8 && key_tree()[0] == 116u8);
    assert(key_permissions()[0] == 112u8 && key_concurrency()[0] == 99u8);
}

/// The canonical encoding of a summary's field slots from `k` on
/// (message, hash, timestamp, size; the optional slots encode to nothing
/// when absent).
pub open spec fn summary_fields_from(s: BackupSummary, k: int) -> Seq<u8> {
    (if k <= 0 {
        mp_str(key_message()) + mp_str(s.message@)
    } else {
        Seq::<u8>::empty()
    }) + (if k <= 1 {
        mp_str(key_hash()) + mp_str(s.hash@)
    } else {
        Seq::<u8>::empty()
    }) + (if k <= 2 {
        enc_opt_uint(key_timestamp(), s.timestamp)
    } else {
        Seq::<u8>::empty()
    }) + (if k <= 3 {
        enc_opt_uint(key_size(), s.size)
    } else {
        Seq::<u8>::empty()
    })
}

/// What remains of a summary's canonical fields after `i` of them were read.
pub open spec fn summary_suffix(s: BackupSummary, i: int) -> Seq<u8> {
    if i <= 2 {
        summary_fields_from(s, i)
    } else if i == 3 && s.timestamp is Some {
        summary_fields_from(s, 3)
    } else {
        Seq::<u8>::empty()
    }
}

/// The name of the `i`-th field of a summary's canonical record.
pub open spec fn summary_key_at(s: BackupSummary, i: int) -> Seq<u8> {
    if i == 0 {
        key_message()
    } else if i == 1 {
        key_hash()
    } else if i == 2 && s.timestamp is Some {
        key_timestamp()
    } else {
        key_size()
    }
}

/// The encoded value of the `i`-th field of a summary's canonical record.
pub open spec fn summary_val_at(s: BackupSummary, i: int) -> Seq<u8> {
    if i == 0 {
        mp_str(s.message@)
    } else if i == 1 {
        mp_str(s.hash@)
    } else if i == 2 && s.timestamp is Some {
        mp_uint(s.timestamp->0 as nat)
    } else {
        mp_uint(s.size->0 as nat)
    }
}

/// A canonical summary record opens with its field-count header, followed
/// by its fields.
pub proof fn lemma_summary_open(data: Seq<u8>, pos: int, s: BackupSummary)
    requires
        encoded_at(data, pos, enc_summary(s)),
    ensures
        encoded_at(data, pos, mp_map_header(summary_field_count(s))),
        encoded_at(data, pos + mp_map_header(summary_field_count(s)).len(), summary_suffix(s, 0)),
        enc_summary(s).len() == mp_map_header(summary_field_count(s)).len() + summary_suffix(
            s,
            0,
        ).len(),
        summary_field_count(s) <= 4,
{
    assert(enc_summary(s) =~= mp_map_header(summary_field_count(s)) + summary_suffix(s, 0));
    lemma_encoded_at_split(data, pos, mp_map_header(summary_field_count(s)), summary_suffix(s, 0));
}

/// At a canonical summary's `i`-th field: the field's name stands first,
/// its value follows, and the remaining fields follow the value.
pub proof fn lemma_summary_step_facts(data: Seq<u8>, p: int, s: BackupSummary, i: int)
    requires
        0 <= i < summary_field_count(s),
        encoded_at(data, p, summary_suffix(s, i)),
    ensures
        encoded_at(data, p, mp_str(summary_key_at(s, i))),
        encoded_at(data, p + mp_str(summary_key_at(s, i)).len(), summary_val_at(s, i)),
        encoded_at(
            data,
            p + mp_str(summary_key_at(s, i)).len() + summary_val_at(s, i).len(),
            summary_suffix(s, i + 1),
        ),
        summary_suffix(s, i).len() == mp_str(summary_key_at(s, i)).len() + summary_val_at(
            s,
            i,
        ).len() + summary_suffix(s, i + 1).len(),
        summary_key_at(s, i).len() < 32,
{
    let kk = mp_str(summary_key_at(s, i));
    let vv = summary_val_at(s, i);
    if i == 0 {
        assert(summary_suffix(s, 0) =~= kk + vv + summary_suffix(s, 1));
    } else if i == 1 {
        assert(summary_suffix(s, 1) =~= kk + vv + summary_suffix(s, 2));
    } else if i == 2 {
        if s.timestamp is None {
            assert(s.size is Some);
        }
        assert(summary_suffix(s, 2) =~= kk + vv + summary_suffix(s, 3));
    } else {
        assert(i == 3 && s.timestamp is Some && s.size is Some);
        assert(summary_suffix(s, 3) =~= kk + vv + summary_suffix(s, 4));
    }
    assert(summary_suffix(s, i) == kk + vv + summary_suffix(s, i + 1));
    lemma_encoded_at_split(data, p, kk + vv, summary_suffix(s, i + 1));
    lemma_encoded_at_split(data, p, kk, vv);
}

/// The state a summary reader is in after `i` fields of a canonical record:
/// the fields read so far hold the record's values, the rest stand at `p`.
pub open spec fn summary_read_state(
    data: Seq<u8>,
    pos: int,
    s: BackupSummary,
    i: int,
    p: int,
    message: Option<Vec<u8>>,
    hash: Option<Vec<u8>>,
    timestamp: Option<u64>,
    size: Option<u64>,
) -> bool {
    &&& 0 <= i <= summary_field_count(s)
    &&& encoded_at(data, p, summary_suffix(s, i))
    &&& p == pos + enc_summary(s).len() - summary_suffix(s, i).len()
    &&& (if i >= 1 {
        message matches Some(m) && m@ == s.message@
    } else {
        message is None
    })
    &&& (if i >= 2 {
        hash matches Some(h) && h@ == s.hash@
    } else {
        hash is None
    })
    &&& timestamp == (if s.timestamp is Some && i >= 3 {
        s.timestamp
    } else {
        None::<u64>
    })
    &&& size == (if s.size is Some && i >= summary_field_count(s) {
        s.size
    } else {
        None::<u64>
    })
}

/// Whether a tree already holds an entry for `key`.
fn tree_has_key(tree: &Vec<(Vec<u8>, BackupObject)>, key: &[u8]) -> (out: bool)
    ensures
        out == tree_contains(tree@, key@),
{
    let n = tree.len();
    let mut i: usize = 0;
    while i < n
        invariant
            i <= n,
            n == tree@.len(),
            forall|j: int| 0 <= j < i ==> (#[trigger] tree@[j]).0@ != key@,
        decreases n - i,
    {
        if bytes_eq(tree[i].0.as_slice(), key) {
            return true;
        }
        i = i + 1;
    }
    false
}

/// Reads one summary record at `pos`: a map whose `message` and `hash` are
/// required, whose `timestamp` and `size` are optional, and whose other
/// fields are skipped.  On the canonical encoding of any summary it returns
/// exactly that summary and stops exactly past it.
#[verifier::rlimit(100)]
fn decode_summary(data: &[u8], pos: usize) -> (out: Option<(BackupSummary, usize)>)
    ensures
        out matches Some(r) ==> pos < r.1 <= data@.len() && summary_wf(r.0),
        forall|s: BackupSummary|
            summary_wf(s) && encoded_at(data@, pos as int, #[trigger] enc_summary(s)) ==> (
            out matches Some(r) && summary_eq(r.0, s) && r.1 == pos + enc_summary(s).len()),
{
    let (n, start) = match read_map_header(data, pos) {
        Some(r) => r,
        None => {
            proof {
                assert forall|s: BackupSummary|
                    !(summary_wf(s) && encoded_at(data@, pos as int, #[trigger] enc_summary(s))) by {
                    if encoded_at(data@, pos as int, enc_summary(s)) {
                        lemma_summary_open(data@, pos as int, s);
                    }
                }
            }
            return None;
        },
    };
    let mut p = start;
    let mut message: Option<Vec<u8>> = None;
    let mut hash: Option<Vec<u8>> = None;
    let mut timestamp: Option<u64> = None;
    let mut size: Option<u64> = None;
    let k_message = key_message_bytes();
    let k_hash = key_hash_bytes();
    let k_timestamp = key_timestamp_bytes();
    let k_size = key_size_bytes();
    let mut i: u64 = 0;
    proof {
        assert forall|s: BackupSummary|
            summary_wf(s) && encoded_at(data@, pos as int, #[trigger] enc_summary(s)) implies (n
            == summary_field_count(s) && summary_read_state(
            data@,
            pos as int,
            s,
            0,
            start as int,
            None::<Vec<u8>>,
            None::<Vec<u8>>,
            None::<u64>,
            None::<u64>,
        )) by {
            lemma_summary_open(data@, pos as int, s);
        }
    }
    while i < n
        invariant
            i <= n,
            pos < p <= data@.len(),
            message matches Some(v) ==> str_fits(v@),
            hash matches Some(v) ==> str_fits(v@),
            k_message@ == key_message(),
            k_hash@ == key_hash(),
            k_timestamp@ == key_timestamp(),
            k_size@ == key_size(),
            forall|s: BackupSummary|
                summary_wf(s) && encoded_at(data@, pos as int, #[trigger] enc_summary(s)) ==> (n
                    == summary_field_count(s) && summary_read_state(
                    data@,
                    pos as int,
                    s,
                    i as int,
                    p as int,
                    message,
                    hash,
                    timestamp,
                    size,
                )),
        decreases n - i,
    {
        let ghost i0 = i as int;
        let ghost p0 = p as int;
        let (key, p2) = match read_str(data, p) {
            Some(r) => r,
            None => {
                proof {
                    assert forall|s: BackupSummary|
                        !(summary_wf(s) && encoded_at(data@, pos as int, #[trigger] enc_summary(s)))
                        by {
                        if summary_wf(s) && encoded_at(data@, pos as int, enc_summary(s)) {
                            lemma_summary_step_facts(data@, p0, s, i0);
                        }
                    }
                }
                return None;
            },
        };
        if bytes_eq(key.as_slice(), k_message.as_slice()) {
            let (v, p3) = match read_str(data, p2) {
                Some(r) => r,
                None => {
                    proof {
                        assert forall|s: BackupSummary|
                            !(summary_wf(s) && encoded_at(
                                data@,
                                pos as int,
                                #[trigger] enc_summary(s),
                            )) by {
                            if summary_wf(s) && encoded_at(data@, pos as int, enc_summary(s)) {
                                lemma_summary_step_facts(data@, p0, s, i0);
                                lemma_keys_distinct();
                            }
                        }
                    }
                    return None;
                },
            };
            if !fits(&v) {
                proof {
                    assert forall|s: BackupSummary|
                        !(summary_wf(s) && encoded_at(data@, pos as int, #[trigger] enc_summary(s)))
                        by {
                        if summary_wf(s) && encoded_at(data@, pos as int, enc_summary(s)) {
                            lemma_summary_step_facts(data@, p0, s, i0);
                            lemma_keys_distinct();
                        }
                    }
                }
                return None;
            }
            message = Some(v);
            p = p3;
        } else if bytes_eq(key.as_slice(), k_hash.as_slice()) {
            let (v, p3) = match read_str(data, p2) {
                Some(r) => r,
                None => {
                    proof {
                        assert forall|s: BackupSummary|
                            !(summary_wf(s) && encoded_at(
                                data@,
                                pos as int,
                                #[trigger] enc_summary(s),
                            )) by {
                            if summary_wf(s) && encoded_at(data@, pos as int, enc_summary(s)) {
                                lemma_summary_step_facts(data@, p0, s, i0);
                                lemma_keys_distinct();
                            }
                        }
                    }
                    return None;
                },
            };
            if !fits(&v) {
                proof {
                    assert forall|s: BackupSummary|
                        !(summary_wf(s) && encoded_at(data@, pos as int, #[trigger] enc_summary(s)))
                        by {
                        if summary_wf(s) && encoded_at(data@, pos as int, enc_summary(s)) {
                            lemma_summary_step_facts(data@, p0, s, i0);
                            lemma_keys_distinct();
                        }
                    }
                }
                return None;
            }
            hash = Some(v);
            p = p3;
        } else if bytes_eq(key.as_slice(), k_timestamp.as_slice()) {
            let (v, p3) = match read_uint(data, p2) {
                Some(r) => r,
                None => {
                    proof {
                        assert forall|s: BackupSummary|
                            !(summary_wf(s) && encoded_at(
                                data@,
                                pos as int,
                                #[trigger] enc_summary(s),
                            )) by {
                            if summary_wf(s) && encoded_at(data@, pos as int, enc_summary(s)) {
                                lemma_summary_step_facts(data@, p0, s, i0);
                                lemma_keys_distinct();
                            }
                        }
                    }
                    return None;
                },
            };
            timestamp = Some(v);
            p = p3;
        } else if bytes_eq(key.as_slice(), k_size.as_slice()) {
            let (v, p3) = match read_uint(data, p2) {
                Some(r) => r,
                None => {
                    proof {
                        assert forall|s: BackupSummary|
                            !(summary_wf(s) && encoded_at(
                                data@,
                                pos as int,
                                #[trigger] enc_summary(s),
                            )) by {
                            if summary_wf(s) && encoded_at(data@, pos as int, enc_summary(s)) {
                                lemma_summary_step_facts(data@, p0, s, i0);
                                lemma_keys_distinct();
                            }
                        }
                    }
                    return None;
                },
            };
            size = Some(v);
            p = p3;
        } else {
            p = match skip_value(data, p2) {
                Some(r) => r,
                None => {
                    proof {
                        assert forall|s: BackupSummary|
                            !(summary_wf(s) && encoded_at(
                                data@,
                                pos as int,
                                #[trigger] enc_summary(s),
                            )) by {
                            if summary_wf(s) && encoded_at(data@, pos as int, enc_summary(s)) {
                                lemma_summary_step_facts(data@, p0, s, i0);
                            }
                        }
                    }
                    return None;
                },
            };
            proof {
                assert forall|s: BackupSummary|
                    !(summary_wf(s) && encoded_at(data@, pos as int, #[trigger] enc_summary(s))) by {
                    if summary_wf(s) && encoded_at(data@, pos as int, enc_summary(s)) {
                        lemma_summary_step_facts(data@, p0, s, i0);
                    }
                }
            }
        }
        proof {
            assert forall|s: BackupSummary|
                summary_wf(s) && encoded_at(data@, pos as int, #[trigger] enc_summary(s)) implies summary_read_state(
                data@,
                pos as int,
                s,
                i0 + 1,
                p as int,
                message,
                hash,
                timestamp,
                size,
            ) by {
                lemma_summary_step_facts(data@, p0, s, i0);
                lemma_keys_distinct();
                if i0 == 0 {
                    assert(summary_key_at(s, i0) == key_message());
                    assert(summary_val_at(s, i0) == mp_str(s.message@));
                    assert(key@ == key_message());
                    assert(summary_read_state(
                        data@,
                        pos as int,
                        s,
                        i0 + 1,
                        p as int,
                        message,
                        hash,
                        timestamp,
                        size,
                    ));
                } else if i0 == 1 {
                    assert(summary_key_at(s, i0) == key_hash());
                    assert(summary_val_at(s, i0) == mp_str(s.hash@));
                    assert(key@ == key_hash());
                    assert(summary_read_state(
                        data@,
                        pos as int,
                        s,
                        i0 + 1,
                        p as int,
                        message,
                        hash,
                        timestamp,
                        size,
                    ));
                } else if i0 == 2 && s.timestamp is Some {
                    assert(summary_key_at(s, i0) == key_timestamp());
                    assert(summary_val_at(s, i0) == mp_uint(s.timestamp->0 as nat));
                    assert(key@ == key_timestamp());
                    assert(summary_read_state(
                        data@,
                        pos as int,
                        s,
                        i0 + 1,
                        p as int,
                        message,
                        hash,
                        timestamp,
                        size,
                    ));
                } else {
                    assert(summary_key_at(s, i0) == key_size());
                    assert(summary_val_at(s, i0) == mp_uint(s.size->0 as nat));
                    assert(key@ == key_size());
                    assert(s.size is Some);
                    assert(i0 + 1 == summary_field_count(s));
                    assert(summary_read_state(
                        data@,
                        pos as int,
                        s,
                        i0 + 1,
                        p as int,
                        message,
                        hash,
                        timestamp,
                        size,
                    ));
                }
            }
        }
        i = i + 1;
    }
    match (message, hash) {
        (Some(message), Some(hash)) => Some((BackupSummary { message, hash, timestamp, size }, p)),
        _ => None,
    }
}

/// A run of summary encodings splits at any record boundary.
proof fn lemma_summary_list_split(items: Seq<BackupSummary>, k: int)
    requires
        0 <= k < items.len(),
    ensures
        enc_summary_list(items.skip(k)) == enc_summary(items[k]) + enc_summary_list(
            items.skip(k + 1),
        ),
{
    assert(items.skip(k)[0] == items[k]);
    assert(items.skip(k).skip(1) =~= items.skip(k + 1));
}

/// Reads the summaries blob: an array of summary records.  On the canonical
/// encoding of any well-formed list it returns exactly that list.
pub fn decode_summaries(data: &[u8]) -> (out: Option<Vec<BackupSummary>>)
    ensures
        out matches Some(list) ==> summaries_wf(list@),
        forall|l: Seq<BackupSummary>|
            summaries_wf(l) && data@ == #[trigger] enc_summaries(l) ==> (out matches Some(r)
                && summaries_eq(r@, l)),
{
    let (n, start) = match read_array_header(data, 0) {
        Some(r) => r,
        None => {
            proof {
                assert forall|l: Seq<BackupSummary>|
                    !(summaries_wf(l) && data@ == #[trigger] enc_summaries(l)) by {
                    if summaries_wf(l) && data@ == enc_summaries(l) {
                        assert(data@.subrange(0, data@.len() as int) =~= data@);
                        lemma_encoded_at_split(
                            data@,
                            0,
                            mp_array_header(l.len()),
                            enc_summary_list(l),
                        );
                    }
                }
            }
            return None;
        },
    };
    let mut p = start;
    let mut list: Vec<BackupSummary> = Vec::new();
    let mut i: u64 = 0;
    proof {
        assert forall|l: Seq<BackupSummary>|
            summaries_wf(l) && data@ == #[trigger] enc_summaries(l) implies (n == l.len()
            && encoded_at(data@, start as int, enc_summary_list(l.skip(0))) && start == data@.len()
            - enc_summary_list(l.skip(0)).len()) by {
            assert(data@.subrange(0, data@.len() as int) =~= data@);
            lemma_encoded_at_split(data@, 0, mp_array_header(l.len()), enc_summary_list(l));
            assert(l.skip(0) =~= l);
        }
    }
    while i < n
        invariant
            i <= n,
            n < 0x100000000,
            p <= data@.len(),
            list@.len() == i,
            forall|j: int| 0 <= j < list@.len() ==> summary_wf(#[trigger] list@[j]),
            forall|l: Seq<BackupSummary>|
                summaries_wf(l) && data@ == #[trigger] enc_summaries(l) ==> (n == l.len()
                    && encoded_at(data@, p as int, enc_summary_list(l.skip(i as int))) && p
                    == data@.len() - enc_summary_list(l.skip(i as int)).len() && (forall|j: int|
                    0 <= j < i ==> summary_eq(#[trigger] list@[j], l[j]))),
        decreases n - i,
    {
        let ghost i0 = i as int;
        let ghost p0 = p as int;
        let (s, p2) = match decode_summary(data, p) {
            Some(r) => r,
            None => {
                proof {
                    assert forall|l: Seq<BackupSummary>|
                        !(summaries_wf(l) && data@ == #[trigger] enc_summaries(l)) by {
                        if summaries_wf(l) && data@ == enc_summaries(l) {
                            lemma_summary_list_split(l, i0);
                            lemma_encoded_at_split(
                                data@,
                                p0,
                                enc_summary(l[i0]),
                                enc_summary_list(l.skip(i0 + 1)),
                            );
                        }
                    }
                }
                return None;
            },
        };
        list.push(s);
        p = p2;
        proof {
            assert forall|l: Seq<BackupSummary>|
                summaries_wf(l) && data@ == #[trigger] enc_summaries(l) implies (encoded_at(
                data@,
                p as int,
                enc_summary_list(l.skip(i0 + 1)),
            ) && p == data@.len() - enc_summary_list(l.skip(i0 + 1)).len() && (forall|j: int|
                0 <= j < i0 + 1 ==> summary_eq(#[trigger] list@[j], l[j]))) by {
                lemma_summary_list_split(l, i0);
                lemma_encoded_at_split(
                    data@,
                    p0,
                    enc_summary(l[i0]),
                    enc_summary_list(l.skip(i0 + 1)),
                );
            }
        }
        i = i + 1;
    }
    Some(list)
}

/// Whether every string of a list fits the serialized form.
pub open spec fn str_list_wf(items: Seq<Vec<u8>>) -> bool {
    &&& items.len() < 0x100000000
    &&& forall|j: int| 0 <= j < items.len() ==> str_fits((#[trigger] items[j])@)
}

/// The canonical encoding of a file record's field slots from `k` on
/// (hash, size, content_type, permissions, chunks).
pub open spec fn object_fields_from(o: BackupObject, k: int) -> Seq<u8> {
    (if k <= 0 {
        mp_str(key_hash()) + mp_str(o.hash@)
    } else {
        Seq::<u8>::empty()
    }) + (if k <= 1 {
        mp_str(key_size()) + mp_uint(o.size as nat)
    } else {
        Seq::<u8>::empty()
    }) + (if k <= 2 {
        mp_str(key_content_type()) + mp_str(o.content_type@)
    } else {
        Seq::<u8>::empty()
    }) + (if k <= 3 {
        mp_str(key_permissions()) + mp_uint(o.permissions as nat)
    } else {
        Seq::<u8>::empty()
    }) + (if k <= 4 {
        mp_str(key_chunks()) + enc_str_array(o.chunks@)
    } else {
        Seq::<u8>::empty()
    })
}

/// The name of the `i`-th field of a file record's canonical form.
pub open spec fn object_key_at(i: int) -> Seq<u8> {
    if i == 0 {
        key_hash()
    } else if i == 1 {
        key_size()
    } else if i == 2 {
        key_content_type()
    } else if i == 3 {
        key_permissions()
    } else {
        key_chunks()
    }
}

/// The encoded value of the `i`-th field of a file record's canonical form.
pub open spec fn object_val_at(o: BackupObject, i: int) -> Seq<u8> {
    if i == 0 {
        mp_str(o.hash@)
    } else if i == 1 {
        mp_uint(o.size as nat)
    } else if i == 2 {
        mp_str(o.content_type@)
    } else if i == 3 {
        mp_uint(o.permissions as nat)
    } else {
        enc_str_array(o.chunks@)
    }
}

/// A canonical file record opens with a five-pair header, then its fields.
pub proof fn lemma_object_open(data: Seq<u8>, pos: int, o: BackupObject)
    requires
        encoded_at(data, pos, enc_backup_object(o)),
    ensures
        encoded_at(data, pos, mp_map_header(5)),
        encoded_at(data, pos + mp_map_header(5).len(), object_fields_from(o, 0)),
        enc_backup_object(o).len() == mp_map_header(5).len() + object_fields_from(o, 0).len(),
{
    assert(enc_backup_object(o) =~= mp_map_header(5) + object_fields_from(o, 0));
    lemma_encoded_at_split(data, pos, mp_map_header(5), object_fields_from(o, 0));
}

/// At a canonical file record's `i`-th field: the field's name stands first,
/// its value follows, and the remaining fields follow the value.
pub proof fn lemma_object_step_facts(data: Seq<u8>, p: int, o: BackupObject, i: int)
    requires
        0 <= i < 5,
        encoded_at(data, p, object_fields_from(o, i)),
    ensures
        encoded_at(data, p, mp_str(object_key_at(i))),
        encoded_at(data, p + mp_str(object_key_at(i)).len(), object_val_at(o, i)),
        encoded_at(
            data,
            p + mp_str(object_key_at(i)).len() + object_val_at(o, i).len(),
            object_fields_from(o, i + 1),
        ),
        object_fields_from(o, i).len() == mp_str(object_key_at(i)).len() + object_val_at(
            o,
            i,
        ).len() + object_fields_from(o, i + 1).len(),
        object_key_at(i).len() < 32,
{
    let kk = mp_str(object_key_at(i));
    let vv = object_val_at(o, i);
    if i == 0 {
        assert(object_fields_from(o, 0) =~= kk + vv + object_fields_from(o, 1));
    } else if i == 1 {
        assert(object_fields_from(o, 1) =~= kk + vv + object_fields_from(o, 2));
    } else if i == 2 {
        assert(object_fields_from(o, 2) =~= kk + vv + object_fields_from(o, 3));
    } else if i == 3 {
        assert(object_fields_from(o, 3) =~= kk + vv + object_fields_from(o, 4));
    } else {
        assert(object_fields_from(o, 4) =~= kk + vv + object_fields_from(o, 5));
    }
    assert(object_fields_from(o, i) == kk + vv + object_fields_from(o, i + 1));
    lemma_encoded_at_split(data, p, kk + vv, object_fields_from(o, i + 1));
    lemma_encoded_at_split(data, p, kk, vv);
}

/// The state a file-record reader is in after `i` fields of a canonical
/// record.
pub open spec fn object_read_state(
    data: Seq<u8>,
    pos: int,
    o: BackupObject,
    i: int,
    p: int,
    hash: Option<Vec<u8>>,
    size: Option<u64>,
    content_type: Option<Vec<u8>>,
    permissions: Option<u32>,
    chunks: Option<Vec<Vec<u8>>>,
) -> bool {
    &&& 0 <= i <= 5
    &&& encoded_at(data, p, object_fields_from(o, i))
    &&& p == pos + enc_backup_object(o).len() - object_fields_from(o, i).len()
    &&& (if i >= 1 {
        hash matches Some(h) && h@ == o.hash@
    } else {
        hash is None
    })
    &&& (if i >= 2 {
        size == Some(o.size)
    } else {
        size is None
    })
    &&& (if i >= 3 {
        content_type matches Some(c) && c@ == o.content_type@
    } else {
        content_type is None
    })
    &&& (if i >= 4 {
        permissions == Some(o.permissions)
    } else {
        permissions is None
    })
    &&& (if i >= 5 {
        chunks matches Some(cs) && str_list_eq(cs@, o.chunks@)
    } else {
        chunks is None
    })
}

/// Reads one manifest file record at `pos`.  On the canonical encoding of
/// any well-formed record it returns exactly that record and stops exactly
/// past it.
#[verifier::rlimit(100)]
fn decode_backup_object(data: &[u8], pos: usize) -> (out: Option<(BackupObject, usize)>)
    ensures
        out matches Some(r) ==> pos < r.1 <= data@.len() && object_wf(r.0),
        forall|o: BackupObject|
            object_wf(o) && encoded_at(data@, pos as int, #[trigger] enc_backup_object(o)) ==> (
            out matches Some(r) && object_eq(r.0, o) && r.1 == pos + enc_backup_object(o).len()),
{
    let (n, start) = match read_map_header(data, pos) {
        Some(r) => r,
        None => {
            proof {
                assert forall|o: BackupObject|
                    !(object_wf(o) && encoded_at(
                        data@,
                        pos as int,
                        #[trigger] enc_backup_object(o),
                    )) by {
                    if encoded_at(data@, pos as int, enc_backup_object(o)) {
                        lemma_object_open(data@, pos as int, o);
                    }
                }
            }
            return None;
        },
    };
    let mut p = start;
    let mut hash: Option<Vec<u8>> = None;
    let mut size: Option<u64> = None;
    let mut content_type: Option<Vec<u8>> = None;
    let mut permissions: Option<u32> = None;
    let mut chunks: Option<Vec<Vec<u8>>> = None;
    let k_hash = key_hash_bytes();
    let k_size = key_size_bytes();
    let k_content_type = key_content_type_bytes();
    let k_permissions = key_permissions_bytes();
    let k_chunks = key_chunks_bytes();
    let mut i: u64 = 0;
    proof {
        assert forall|o: BackupObject|
            object_wf(o) && encoded_at(
                data@,
                pos as int,
                #[trigger] enc_backup_object(o),
            ) implies (n == 5 && object_read_state(
            data@,
            pos as int,
            o,
            0,
            start as int,
            None::<Vec<u8>>,
            None::<u64>,
            None::<Vec<u8>>,
            None::<u32>,
            None::<Vec<Vec<u8>>>,
        )) by {
            lemma_object_open(data@, pos as int, o);
        }
    }
    while i < n
        invariant
            i <= n,
            pos < p <= data@.len(),
            hash matches Some(v) ==> str_fits(v@),
            content_type matches Some(v) ==> str_fits(v@),
            chunks matches Some(cs) ==> cs@.len() < 0x100000000 && (forall|j: int|
                0 <= j < cs@.len() ==> str_fits((#[trigger] cs@[j])@)),
            k_hash@ == key_hash(),
            k_size@ == key_size(),
            k_content_type@ == key_content_type(),
            k_permissions@ == key_permissions(),
            k_chunks@ == key_chunks(),
            forall|o: BackupObject|
                object_wf(o) && encoded_at(data@, pos as int, #[trigger] enc_backup_object(o))
                    ==> (n == 5 && object_read_state(
                    data@,
                    pos as int,
                    o,
                    i as int,
                    p as int,
                    hash,
                    size,
                    content_type,
                    permissions,
                    chunks,
                )),
        decreases n - i,
    {
        let ghost i0 = i as int;
        let ghost p0 = p as int;
        let (key, p2) = match read_str(data, p) {
            Some(r) => r,
            None => {
                proof {
                    assert forall|o: BackupObject|
                        !(object_wf(o) && encoded_at(
                            data@,
                            pos as int,
                            #[trigger] enc_backup_object(o),
                        )) by {
                        if object_wf(o) && encoded_at(data@, pos as int, enc_backup_object(o)) {
                            lemma_object_step_facts(data@, p0, o, i0);
                        }
                    }
                }
                return None;
            },
        };
        if bytes_eq(key.as_slice(), k_hash.as_slice()) {
            let (v, p3) = match read_str(data, p2) {
                Some(r) => r,
                None => {
                    proof {
                        assert forall|o: BackupObject|
                            !(object_wf(o) && encoded_at(
                                data@,
                                pos as int,
                                #[trigger] enc_backup_object(o),
                            )) by {
                            if object_wf(o) && encoded_at(data@, pos as int, enc_backup_object(o)) {
                                lemma_object_step_facts(data@, p0, o, i0);
                                lemma_keys_distinct();
                            }
                        }
                    }
                    return None;
                },
            };
            if !fits(&v) {
                proof {
                    assert forall|o: BackupObject|
                        !(object_wf(o) && encoded_at(
                            data@,
                            pos as int,
                            #[trigger] enc_backup_object(o),
                        )) by {
                        if object_wf(o) && encoded_at(data@, pos as int, enc_backup_object(o)) {
                            lemma_object_step_facts(data@, p0, o, i0);
                            lemma_keys_distinct();
                        }
                    }
                }
                return None;
            }
            hash = Some(v);
            p = p3;
        } else if bytes_eq(key.as_slice(), k_size.as_slice()) {
            let (v, p3) = match read_uint(data, p2) {
                Some(r) => r,
                None => {
                    proof {
                        assert forall|o: BackupObject|
                            !(object_wf(o) && encoded_at(
                                data@,
                                pos as int,
                                #[trigger] enc_backup_object(o),
                            )) by {
                            if object_wf(o) && encoded_at(data@, pos as int, enc_backup_object(o)) {
                                lemma_object_step_facts(data@, p0, o, i0);
                                lemma_keys_distinct();
                            }
                        }
                    }
                    return None;
                },
            };
            size = Some(v);
            p = p3;
        } else if bytes_eq(key.as_slice(), k_content_type.as_slice()) {
            let (v, p3) = match read_str(data, p2) {
                Some(r) => r,
                None => {
                    proof {
                        assert forall|o: BackupObject|
                            !(object_wf(o) && encoded_at(
                                data@,
                                pos as int,
                                #[trigger] enc_backup_object(o),
                            )) by {
                            if object_wf(o) && encoded_at(data@, pos as int, enc_backup_object(o)) {
                                lemma_object_step_facts(data@, p0, o, i0);
                                lemma_keys_distinct();
                            }
                        }
                    }
                    return None;
                },
            };
            if !fits(&v) {
                proof {
                    assert forall|o: BackupObject|
                        !(object_wf(o) && encoded_at(
                            data@,
                            pos as int,
                            #[trigger] enc_backup_object(o),
                        )) by {
                        if object_wf(o) && encoded_at(data@, pos as int, enc_backup_object(o)) {
                            lemma_object_step_facts(data@, p0, o, i0);
                            lemma_keys_distinct();
                        }
                    }
                }
                return None;
            }
            content_type = Some(v);
            p = p3;
        } else if bytes_eq(key.as_slice(), k_permissions.as_slice()) {
            let (v, p3) = match read_uint(data, p2) {
                Some(r) => r,
                None => {
                    proof {
                        assert forall|o: BackupObject|
                            !(object_wf(o) && encoded_at(
                                data@,
                                pos as int,
                                #[trigger] enc_backup_object(o),
                            )) by {
                            if object_wf(o) && encoded_at(data@, pos as int, enc_backup_object(o)) {
                                lemma_object_step_facts(data@, p0, o, i0);
                                lemma_keys_distinct();
                            }
                        }
                    }
                    return None;
                },
            };
            if v > 0xffffffffu64 {
                proof {
                    assert forall|o: BackupObject|
                        !(object_wf(o) && encoded_at(
                            data@,
                            pos as int,
                            #[trigger] enc_backup_object(o),
                        )) by {
                        if object_wf(o) && encoded_at(data@, pos as int, enc_backup_object(o)) {
                            lemma_object_step_facts(data@, p0, o, i0);
                            lemma_keys_distinct();
                        }
                    }
                }
                return None;
            }
            permissions = Some(v as u32);
            p = p3;
        } else if bytes_eq(key.as_slice(), k_chunks.as_slice()) {
            let (v, p3) = match decode_str_array(data, p2) {
                Some(r) => r,
                None => {
                    proof {
                        assert forall|o: BackupObject|
                            !(object_wf(o) && encoded_at(
                                data@,
                                pos as int,
                                #[trigger] enc_backup_object(o),
                            )) by {
                            if object_wf(o) && encoded_at(data@, pos as int, enc_backup_object(o)) {
                                lemma_object_step_facts(data@, p0, o, i0);
                                lemma_keys_distinct();
                            }
                        }
                    }
                    return None;
                },
            };
            chunks = Some(v);
            p = p3;
        } else {
            p = match skip_value(data, p2) {
                Some(r) => r,
                None => {
                    proof {
                        assert forall|o: BackupObject|
                            !(object_wf(o) && encoded_at(
                                data@,
                                pos as int,
                                #[trigger] enc_backup_object(o),
                            )) by {
                            if object_wf(o) && encoded_at(data@, pos as int, enc_backup_object(o)) {
                                lemma_object_step_facts(data@, p0, o, i0);
                            }
                        }
                    }
                    return None;
                },
            };
            proof {
                assert forall|o: BackupObject|
                    !(object_wf(o) && encoded_at(
                        data@,
                        pos as int,
                        #[trigger] enc_backup_object(o),
                    )) by {
                    if object_wf(o) && encoded_at(data@, pos as int, enc_backup_object(o)) {
                        lemma_object_step_facts(data@, p0, o, i0);
                    }
                }
            }
        }
        proof {
            assert forall|o: BackupObject|
                object_wf(o) && encoded_at(
                    data@,
                    pos as int,
                    #[trigger] enc_backup_object(o),
                ) implies object_read_state(
                data@,
                pos as int,
                o,
                i0 + 1,
                p as int,
                hash,
                size,
                content_type,
                permissions,
                chunks,
            ) by {
                lemma_object_step_facts(data@, p0, o, i0);
                lemma_keys_distinct();
                if i0 == 0 {
                    assert(object_key_at(i0) == key_hash());
                    assert(object_val_at(o, i0) == mp_str(o.hash@));
                    assert(key@ == key_hash());
                } else if i0 == 1 {
                    assert(object_key_at(i0) == key_size());
                    assert(object_val_at(o, i0) == mp_uint(o.size as nat));
                    assert(key@ == key_size());
                } else if i0 == 2 {
                    assert(object_key_at(i0) == key_content_type());
                    assert(object_val_at(o, i0) == mp_str(o.content_type@));
                    assert(key@ == key_content_type());
                } else if i0 == 3 {
                    assert(object_key_at(i0) == key_permissions());
                    assert(object_val_at(o, i0) == mp_uint(o.permissions as nat));
                    assert(key@ == key_permissions());
                } else {
                    assert(object_key_at(i0) == key_chunks());
                    assert(object_val_at(o, i0) == enc_str_array(o.chunks@));
                    assert(key@ == key_chunks());
                }
            }
        }
        i = i + 1;
    }
    match (hash, size, content_type, permissions, chunks) {
        (Some(hash), Some(size), Some(content_type), Some(permissions), Some(chunks)) => Some(
            (BackupObject { hash, size, content_type, permissions, chunks }, p),
        ),
        _ => None,
    }
}

/// A run of string encodings splits at any string boundary.
proof fn lemma_str_list_split(items: Seq<Vec<u8>>, k: int)
    requires
        0 <= k < items.len(),
    ensures
        enc_str_list(items.skip(k)) == mp_str(items[k]@) + enc_str_list(items.skip(k + 1)),
{
    assert(items.skip(k)[0] == items[k]);
    assert(items.skip(k).skip(1) =~= items.skip(k + 1));
}

/// Reads an array of strings at `pos`.  On the canonical encoding of any
/// well-formed string list it returns exactly that list and stops exactly
/// past it.
fn decode_str_array(data: &[u8], pos: usize) -> (out: Option<(Vec<Vec<u8>>, usize)>)
    ensures
        out matches Some(r) ==> pos < r.1 <= data@.len() && r.0@.len() < 0x100000000 && (forall|
            j: int,
        |
            0 <= j < r.0@.len() ==> str_fits((#[trigger] r.0@[j])@)),
        forall|items: Seq<Vec<u8>>|
            str_list_wf(items) && encoded_at(data@, pos as int, #[trigger] enc_str_array(items))
                ==> (out matches Some(r) && str_list_eq(r.0@, items) && r.1 == pos + enc_str_array(
                items,
            ).len()),
{
    let (n, start) = match read_array_header(data, pos) {
        Some(r) => r,
        None => {
            proof {
                assert forall|items: Seq<Vec<u8>>|
                    !(str_list_wf(items) && encoded_at(
                        data@,
                        pos as int,
                        #[trigger] enc_str_array(items),
                    )) by {
                    if str_list_wf(items) && encoded_at(data@, pos as int, enc_str_array(items)) {
                        lemma_encoded_at_split(
                            data@,
                            pos as int,
                            mp_array_header(items.len()),
                            enc_str_list(items),
                        );
                    }
                }
            }
            return None;
        },
    };
    let mut p = start;
    let mut list: Vec<Vec<u8>> = Vec::new();
    let mut i: u64 = 0;
    proof {
        assert forall|items: Seq<Vec<u8>>|
            str_list_wf(items) && encoded_at(
                data@,
                pos as int,
                #[trigger] enc_str_array(items),
            ) implies (n == items.len() && encoded_at(
            data@,
            start as int,
            enc_str_list(items.skip(0)),
        ) && start == pos + enc_str_array(items).len() - enc_str_list(items.skip(0)).len()) by {
            lemma_encoded_at_split(
                data@,
                pos as int,
                mp_array_header(items.len()),
                enc_str_list(items),
            );
            assert(items.skip(0) =~= items);
        }
    }
    while i < n
        invariant
            i <= n,
            n < 0x100000000,
            pos < p <= data@.len(),
            list@.len() == i,
            forall|j: int| 0 <= j < list@.len() ==> str_fits((#[trigger] list@[j])@),
            forall|items: Seq<Vec<u8>>|
                str_list_wf(items) && encoded_at(
                    data@,
                    pos as int,
                    #[trigger] enc_str_array(items),
                ) ==> (n == items.len() && encoded_at(
                    data@,
                    p as int,
                    enc_str_list(items.skip(i as int)),
                ) && p == pos + enc_str_array(items).len() - enc_str_list(items.skip(i as int)).len()
                    && (forall|j: int| 0 <= j < i ==> (#[trigger] list@[j])@ == items[j]@)),
        decreases n - i,
    {
        let ghost i0 = i as int;
        let ghost p0 = p as int;
        let (v, p2) = match read_str(data, p) {
            Some(r) => r,
            None => {
                proof {
                    assert forall|items: Seq<Vec<u8>>|
                        !(str_list_wf(items) && encoded_at(
                            data@,
                            pos as int,
                            #[trigger] enc_str_array(items),
                        )) by {
                        if str_list_wf(items) && encoded_at(
                            data@,
                            pos as int,
                            enc_str_array(items),
                        ) {
                            lemma_str_list_split(items, i0);
                            lemma_encoded_at_split(
                                data@,
                                p0,
                                mp_str(items[i0]@),
                                enc_str_list(items.skip(i0 + 1)),
                            );
                        }
                    }
                }
                return None;
            },
        };
        if !fits(&v) {
            proof {
                assert forall|items: Seq<Vec<u8>>|
                    !(str_list_wf(items) && encoded_at(
                        data@,
                        pos as int,
                        #[trigger] enc_str_array(items),
                    )) by {
                    if str_list_wf(items) && encoded_at(data@, pos as int, enc_str_array(items)) {
                        lemma_str_list_split(items, i0);
                        lemma_encoded_at_split(
                            data@,
                            p0,
                            mp_str(items[i0]@),
                            enc_str_list(items.skip(i0 + 1)),
                        );
                    }
                }
            }
            return None;
        }
        list.push(v);
        p = p2;
        proof {
            assert forall|items: Seq<Vec<u8>>|
                str_list_wf(items) && encoded_at(
                    data@,
                    pos as int,
                    #[trigger] enc_str_array(items),
                ) implies (encoded_at(data@, p as int, enc_str_list(items.skip(i0 + 1))) && p == pos
                + enc_str_array(items).len() - enc_str_list(items.skip(i0 + 1)).len() && (forall|
                j: int,
            |
                0 <= j < i0 + 1 ==> (#[trigger] list@[j])@ == items[j]@)) by {
                lemma_str_list_split(items, i0);
                lemma_encoded_at_split(
                    data@,
                    p0,
                    mp_str(items[i0]@),
                    enc_str_list(items.skip(i0 + 1)),
                );
            }
        }
        i = i + 1;
    }
    Some((list, p))
}

/// The canonical encoding of a manifest's field slots from `k` on
/// (message, hash, timestamp, author, tree).
pub open spec fn backup_fields_from(b: Backup, k: int) -> Seq<u8> {
    (if k <= 0 {
        mp_str(key_message()) + mp_str(b.message@)
    } else {
        Seq::<u8>::empty()
    }) + (if k <= 1 {
        mp_str(key_hash()) + mp_str(b.hash@)
    } else {
        Seq::<u8>::empty()
    }) + (if k <= 2 {
        mp_str(key_timestamp()) + mp_uint(b.timestamp as nat)
    } else {
        Seq::<u8>::empty()
    }) + (if k <= 3 {
        mp_str(key_author()) + mp_str(b.author@)
    } else {
        Seq::<u8>::empty()
    }) + (if k <= 4 {
        mp_str(key_tree()) + mp_map_header(b.tree@.len()) + enc_tree_list(b.tree@)
    } else {
        Seq::<u8>::empty()
    })
}

/// The name of the `i`-th field of a manifest's canonical form.
pub open spec fn backup_key_at(i: int) -> Seq<u8> {
    if i == 0 {
        key_message()
    } else if i == 1 {
        key_hash()
    } else if i == 2 {
        key_timestamp()
    } else if i == 3 {
        key_author()
    } else {
        key_tree()
    }
}

/// The encoded value of the `i`-th field of a manifest's canonical form.
pub open spec fn backup_val_at(b: Backup, i: int) -> Seq<u8> {
    if i == 0 {
        mp_str(b.message@)
    } else if i == 1 {
        mp_str(b.hash@)
    } else if i == 2 {
        mp_uint(b.timestamp as nat)
    } else if i == 3 {
        mp_str(b.author@)
    } else {
        mp_map_header(b.tree@.len()) + enc_tree_list(b.tree@)
    }
}

/// A canonical manifest opens with a five-pair header, then its fields.
#[verifier::rlimit(100)]
pub proof fn lemma_backup_open(data: Seq<u8>, b: Backup)
    requires
        data == enc_backup(b),
    ensures
        encoded_at(data, 0, mp_map_header(5)),
        encoded_at(data, mp_map_header(5).len() as int, backup_fields_from(b, 0)),
        data.len() == mp_map_header(5).len() + backup_fields_from(b, 0).len(),
{
    assert(data.subrange(0, data.len() as int) =~= data);
    assert(enc_backup(b) =~= mp_map_header(5) + backup_fields_from(b, 0));
    lemma_encoded_at_split(data, 0, mp_map_header(5), backup_fields_from(b, 0));
}

/// At a canonical manifest's `i`-th field: the field's name stands first,
/// its value follows, and the remaining fields follow the value.
#[verifier::rlimit(100)]
pub proof fn lemma_backup_step_facts(data: Seq<u8>, p: int, b: Backup, i: int)
    requires
        0 <= i < 5,
        encoded_at(data, p, backup_fields_from(b, i)),
    ensures
        encoded_at(data, p, mp_str(backup_key_at(i))),
        encoded_at(data, p + mp_str(backup_key_at(i)).len(), backup_val_at(b, i)),
        encoded_at(
            data,
            p + mp_str(backup_key_at(i)).len() + backup_val_at(b, i).len(),
            backup_fields_from(b, i + 1),
        ),
        backup_fields_from(b, i).len() == mp_str(backup_key_at(i)).len() + backup_val_at(
            b,
            i,
        ).len() + backup_fields_from(b, i + 1).len(),
        backup_key_at(i).len() < 32,
{
    let kk = mp_str(backup_key_at(i));
    let vv = backup_val_at(b, i);
    if i == 0 {
        assert(backup_fields_from(b, 0) =~= kk + vv + backup_fields_from(b, 1));
    } else if i == 1 {
        assert(backup_fields_from(b, 1) =~= kk + vv + backup_fields_from(b, 2));
    } else if i == 2 {
        assert(backup_fields_from(b, 2) =~= kk + vv + backup_fields_from(b, 3));
    } else if i == 3 {
        assert(backup_fields_from(b, 3) =~= kk + vv + backup_fields_from(b, 4));
    } else {
        assert(backup_fields_from(b, 4) =~= kk + vv + backup_fields_from(b, 5));
    }
    assert(backup_fields_from(b, i) == kk + vv + backup_fields_from(b, i + 1));
    lemma_encoded_at_split(data, p, kk + vv, backup_fields_from(b, i + 1));
    lemma_encoded_at_split(data, p, kk, vv);
}

/// A run of tree-entry encodings splits at any entry boundary.
proof fn lemma_tree_list_split(tree: Seq<(Vec<u8>, BackupObject)>, k: int)
    requires
        0 <= k < tree.len(),
    ensures
        enc_tree_list(tree.skip(k)) == mp_str(tree[k].0@) + enc_backup_object(tree[k].1)
            + enc_tree_list(tree.skip(k + 1)),
{
    assert(tree.skip(k)[0] == tree[k]);
    assert(tree.skip(k).skip(1) =~= tree.skip(k + 1));
}

/// The state a manifest reader is in after `i` fields of a canonical record.
pub open spec fn backup_read_state(
    data: Seq<u8>,
    b: Backup,
    i: int,
    p: int,
    message: Option<Vec<u8>>,
    hash: Option<Vec<u8>>,
    timestamp: Option<u64>,
    author: Option<Vec<u8>>,
    tree: Option<Vec<(Vec<u8>, BackupObject)>>,
) -> bool {
    &&& 0 <= i <= 5
    &&& encoded_at(data, p, backup_fields_from(b, i))
    &&& p == data.len() - backup_fields_from(b, i).len()
    &&& (if i >= 1 {
        message matches Some(m) && m@ == b.message@
    } else {
        message is None
    })
    &&& (if i >= 2 {
        hash matches Some(h) && h@ == b.hash@
    } else {
        hash is None
    })
    &&& (if i >= 3 {
        timestamp == Some(b.timestamp)
    } else {
        timestamp is None
    })
    &&& (if i >= 4 {
        author matches Some(a) && a@ == b.author@
    } else {
        author is None
    })
    &&& (if i >= 5 {
        tree matches Some(t) && t@.len() == b.tree@.len() && (forall|j: int|
            0 <= j < t@.len() ==> (#[trigger] t@[j]).0@ == b.tree@[j].0@ && object_eq(
                t@[j].1,
                b.tree@[j].1,
            ))
    } else {
        tree is None
    })
}

/// Reads a backup manifest: `message`, `hash`, `timestamp`, `author` and the
/// `tree` are all required; a tree naming a path twice does not decode.  On
/// the canonical encoding of any well-formed manifest it returns exactly
/// that manifest.
#[verifier::rlimit(100)]
pub fn decode_backup(data: &[u8]) -> (out: Option<Backup>)
    ensures
        out matches Some(b) ==> backup_wf(b),
        forall|b: Backup|
            backup_wf(b) && data@ == #[trigger] enc_backup(b) ==> (out matches Some(r)
                && backup_eq(r, b)),
{
    let (n, start) = match read_map_header(data, 0) {
        Some(r) => r,
        None => {
            proof {
                assert forall|b: Backup| !(backup_wf(b) && data@ == #[trigger] enc_backup(b)) by {
                    if data@ == enc_backup(b) {
                        lemma_backup_open(data@, b);
                    }
                }
            }
            return None;
        },
    };
    let mut p = start;
    let mut message: Option<Vec<u8>> = None;
    let mut hash: Option<Vec<u8>> = None;
    let mut timestamp: Option<u64> = None;
    let mut author: Option<Vec<u8>> = None;
    let mut tree: Option<Vec<(Vec<u8>, BackupObject)>> = None;
    let k_message = key_message_bytes();
    let k_hash = key_hash_bytes();
    let k_timestamp = key_timestamp_bytes();
    let k_author = key_author_bytes();
    let k_tree = key_tree_bytes();
    let mut i: u64 = 0;
    proof {
        assert forall|b: Backup|
            backup_wf(b) && data@ == #[trigger] enc_backup(b) implies (n == 5 && backup_read_state(
            data@,
            b,
            0,
            start as int,
            None::<Vec<u8>>,
            None::<Vec<u8>>,
            None::<u64>,
            None::<Vec<u8>>,
            None::<Vec<(Vec<u8>, BackupObject)>>,
        )) by {
            lemma_backup_open(data@, b);
        }
    }
    while i < n
        invariant
            i <= n,
            p <= data@.len(),
            message matches Some(v) ==> str_fits(v@),
            hash matches Some(v) ==> str_fits(v@),
            author matches Some(v) ==> str_fits(v@),
            tree matches Some(t) ==> t@.len() < 0x100000000 && tree_keys_unique(t@) && (forall|
                j: int,
            |
                0 <= j < t@.len() ==> str_fits((#[trigger] t@[j]).0@) && object_wf(t@[j].1)),
            k_message@ == key_message(),
            k_hash@ == key_hash(),
            k_timestamp@ == key_timestamp(),
            k_author@ == key_author(),
            k_tree@ == key_tree(),
            forall|b: Backup|
                backup_wf(b) && data@ == #[trigger] enc_backup(b) ==> (n == 5 && backup_read_state(
                    data@,
                    b,
                    i as int,
                    p as int,
                    message,
                    hash,
                    timestamp,
                    author,
                    tree,
                )),
        decreases n - i,
    {
        let ghost i0 = i as int;
        let ghost p0 = p as int;
        let (key, p2) = match read_str(data, p) {
            Some(r) => r,
            None => {
                proof {
                    assert forall|b: Backup|
                        !(backup_wf(b) && data@ == #[trigger] enc_backup(b)) by {
                        if backup_wf(b) && data@ == enc_backup(b) {
                            lemma_backup_step_facts(data@, p0, b, i0);
                        }
                    }
                }
                return None;
            },
        };
        if bytes_eq(key.as_slice(), k_message.as_slice()) {
            let (v, p3) = match read_str(data, p2) {
                Some(r) => r,
                None => {
                    proof {
                        assert forall|b: Backup|
                            !(backup_wf(b) && data@ == #[trigger] enc_backup(b)) by {
                            if backup_wf(b) && data@ == enc_backup(b) {
                                lemma_backup_step_facts(data@, p0, b, i0);
                                lemma_keys_distinct();
                            }
                        }
                    }
                    return None;
                },
            };
            if !fits(&v) {
                proof {
                    assert forall|b: Backup|
                        !(backup_wf(b) && data@ == #[trigger] enc_backup(b)) by {
                        if backup_wf(b) && data@ == enc_backup(b) {
                            lemma_backup_step_facts(data@, p0, b, i0);
                            lemma_keys_distinct();
                        }
                    }
                }
                return None;
            }
            message = Some(v);
            p = p3;
        } else if bytes_eq(key.as_slice(), k_hash.as_slice()) {
            let (v, p3) = match read_str(data, p2) {
                Some(r) => r,
                None => {
                    proof {
                        assert forall|b: Backup|
                            !(backup_wf(b) && data@ == #[trigger] enc_backup(b)) by {
                            if backup_wf(b) && data@ == enc_backup(b) {
                                lemma_backup_step_facts(data@, p0, b, i0);
                                lemma_keys_distinct();
                            }
                        }
                    }
                    return None;
                },
            };
            if !fits(&v) {
                proof {
                    assert forall|b: Backup|
                        !(backup_wf(b) && data@ == #[trigger] enc_backup(b)) by {
                        if backup_wf(b) && data@ == enc_backup(b) {
                            lemma_backup_step_facts(data@, p0, b, i0);
                            lemma_keys_distinct();
                        }
                    }
                }
                return None;
            }
            hash = Some(v);
            p = p3;
        } else if bytes_eq(key.as_slice(), k_timestamp.as_slice()) {
            let (v, p3) = match read_uint(data, p2) {
                Some(r) => r,
                None => {
                    proof {
                        assert forall|b: Backup|
                            !(backup_wf(b) && data@ == #[trigger] enc_backup(b)) by {
                            if backup_wf(b) && data@ == enc_backup(b) {
                                lemma_backup_step_facts(data@, p0, b, i0);
                                lemma_keys_distinct();
                            }
                        }
                    }
                    return None;
                },
            };
            timestamp = Some(v);
            p = p3;
        } else if bytes_eq(key.as_slice(), k_author.as_slice()) {
            let (v, p3) = match read_str(data, p2) {
                Some(r) => r,
                None => {
                    proof {
                        assert forall|b: Backup|
                            !(backup_wf(b) && data@ == #[trigger] enc_backup(b)) by {
                            if backup_wf(b) && data@ == enc_backup(b) {
                                lemma_backup_step_facts(data@, p0, b, i0);
                                lemma_keys_distinct();
                            }
                        }
                    }
                    return None;
                },
            };
            if !fits(&v) {
                proof {
                    assert forall|b: Backup|
                        !(backup_wf(b) && data@ == #[trigger] enc_backup(b)) by {
                        if backup_wf(b) && data@ == enc_backup(b) {
                            lemma_backup_step_facts(data@, p0, b, i0);
                            lemma_keys_distinct();
                        }
                    }
                }
                return None;
            }
            author = Some(v);
            p = p3;
        } else if bytes_eq(key.as_slice(), k_tree.as_slice()) {
            proof {
                assert forall|b: Backup|
                    backup_wf(b) && data@ == #[trigger] enc_backup(b) implies (i0 == 4
                    && encoded_at(data@, p2 as int, mp_map_header(b.tree@.len())) && encoded_at(
                    data@,
                    p2 + mp_map_header(b.tree@.len()).len(),
                    enc_tree_list(b.tree@),
                ) && p2 + mp_map_header(b.tree@.len()).len() == data@.len() - enc_tree_list(
                    b.tree@,
                ).len()) by {
                    lemma_backup_step_facts(data@, p0, b, i0);
                    lemma_keys_distinct();
                    assert(backup_key_at(i0) == key_tree());
                    assert(backup_val_at(b, 4) == mp_map_header(b.tree@.len()) + enc_tree_list(
                        b.tree@,
                    ));
                    lemma_encoded_at_split(
                        data@,
                        p2 as int,
                        mp_map_header(b.tree@.len()),
                        enc_tree_list(b.tree@),
                    );
                    assert(backup_fields_from(b, 5) =~= Seq::<u8>::empty());
                }
            }
            let (m, tstart) = match read_map_header(data, p2) {
                Some(r) => r,
                None => {
                    proof {
                        assert forall|b: Backup|
                            !(backup_wf(b) && data@ == #[trigger] enc_backup(b)) by {}
                    }
                    return None;
                },
            };
            let mut tp = tstart;
            let mut entries: Vec<(Vec<u8>, BackupObject)> = Vec::new();
            let mut t: u64 = 0;
            proof {
                assert forall|b: Backup|
                    backup_wf(b) && data@ == #[trigger] enc_backup(b) implies (m == b.tree@.len()
                    && encoded_at(data@, tstart as int, enc_tree_list(b.tree@.skip(0))) && tstart
                    == data@.len() - enc_tree_list(b.tree@.skip(0)).len()) by {
                    assert(b.tree@.skip(0) =~= b.tree@);
                }
            }
            while t < m
                invariant
                    t <= m,
                    m < 0x100000000,
                    tp <= data@.len(),
                    entries@.len() == t,
                    tree_keys_unique(entries@),
                    forall|j: int|
                        0 <= j < entries@.len() ==> str_fits((#[trigger] entries@[j]).0@)
                            && object_wf(entries@[j].1),
                    forall|b: Backup|
                        backup_wf(b) && data@ == #[trigger] enc_backup(b) ==> (m == b.tree@.len()
                            && encoded_at(data@, tp as int, enc_tree_list(b.tree@.skip(t as int)))
                            && tp == data@.len() - enc_tree_list(b.tree@.skip(t as int)).len() && (
                        forall|j: int|
                            0 <= j < t ==> (#[trigger] entries@[j]).0@ == b.tree@[j].0@ && object_eq(
                                entries@[j].1,
                                b.tree@[j].1,
                            ))),
                decreases m - t,
            {
                let ghost t0 = t as int;
                let ghost tp0 = tp as int;
                let (path, tp2) = match read_str(data, tp) {
                    Some(r) => r,
                    None => {
                        proof {
                            assert forall|b: Backup|
                                !(backup_wf(b) && data@ == #[trigger] enc_backup(b)) by {
                                if backup_wf(b) && data@ == enc_backup(b) {
                                    lemma_tree_list_split(b.tree@, t0);
                                    lemma_encoded_at_split(
                                        data@,
                                        tp0,
                                        mp_str(b.tree@[t0].0@) + enc_backup_object(b.tree@[t0].1),
                                        enc_tree_list(b.tree@.skip(t0 + 1)),
                                    );
                                    lemma_encoded_at_split(
                                        data@,
                                        tp0,
                                        mp_str(b.tree@[t0].0@),
                                        enc_backup_object(b.tree@[t0].1),
                                    );
                                }
                            }
                        }
                        return None;
                    },
                };
                if !fits(&path) {
                    proof {
                        assert forall|b: Backup|
                            !(backup_wf(b) && data@ == #[trigger] enc_backup(b)) by {
                            if backup_wf(b) && data@ == enc_backup(b) {
                                lemma_tree_list_split(b.tree@, t0);
                                lemma_encoded_at_split(
                                    data@,
                                    tp0,
                                    mp_str(b.tree@[t0].0@) + enc_backup_object(b.tree@[t0].1),
                                    enc_tree_list(b.tree@.skip(t0 + 1)),
                                );
                                lemma_encoded_at_split(
                                    data@,
                                    tp0,
                                    mp_str(b.tree@[t0].0@),
                                    enc_backup_object(b.tree@[t0].1),
                                );
                            }
                        }
                    }
                    return None;
                }
                if tree_has_key(&entries, path.as_slice()) {
                    proof {
                        assert forall|b: Backup|
                            !(backup_wf(b) && data@ == #[trigger] enc_backup(b)) by {
                            if backup_wf(b) && data@ == enc_backup(b) {
                                lemma_tree_list_split(b.tree@, t0);
                                lemma_encoded_at_split(
                                    data@,
                                    tp0,
                                    mp_str(b.tree@[t0].0@) + enc_backup_object(b.tree@[t0].1),
                                    enc_tree_list(b.tree@.skip(t0 + 1)),
                                );
                                lemma_encoded_at_split(
                                    data@,
                                    tp0,
                                    mp_str(b.tree@[t0].0@),
                                    enc_backup_object(b.tree@[t0].1),
                                );
                                let j = choose|j: int|
                                    0 <= j < entries@.len() && (#[trigger] entries@[j]).0@
                                        == path@;
                                assert(b.tree@[j].0@ == b.tree@[t0].0@);
                            }
                        }
                    }
                    return None;
                }
                let (obj, tp3) = match decode_backup_object(data, tp2) {
                    Some(r) => r,
                    None => {
                        proof {
                            assert forall|b: Backup|
                                !(backup_wf(b) && data@ == #[trigger] enc_backup(b)) by {
                                if backup_wf(b) && data@ == enc_backup(b) {
                                    lemma_tree_list_split(b.tree@, t0);
                                    lemma_encoded_at_split(
                                        data@,
                                        tp0,
                                        mp_str(b.tree@[t0].0@) + enc_backup_object(b.tree@[t0].1),
                                        enc_tree_list(b.tree@.skip(t0 + 1)),
                                    );
                                    lemma_encoded_at_split(
                                        data@,
                                        tp0,
                                        mp_str(b.tree@[t0].0@),
                                        enc_backup_object(b.tree@[t0].1),
                                    );
                                }
                            }
                        }
                        return None;
                    },
                };
                proof {
                    assert(forall|j: int|
                        0 <= j < entries@.len() ==> (#[trigger] entries@[j]).0@ != path@);
                }
                entries.push((path, obj));
                tp = tp3;
                proof {
                    assert forall|b: Backup|
                        backup_wf(b) && data@ == #[trigger] enc_backup(b) implies (encoded_at(
                        data@,
                        tp as int,
                        enc_tree_list(b.tree@.skip(t0 + 1)),
                    ) && tp == data@.len() - enc_tree_list(b.tree@.skip(t0 + 1)).len() && (forall|
                        j: int,
                    |
                        0 <= j < t0 + 1 ==> (#[trigger] entries@[j]).0@ == b.tree@[j].0@
                            && object_eq(entries@[j].1, b.tree@[j].1))) by {
                        lemma_tree_list_split(b.tree@, t0);
                        lemma_encoded_at_split(
                            data@,
                            tp0,
                            mp_str(b.tree@[t0].0@) + enc_backup_object(b.tree@[t0].1),
                            enc_tree_list(b.tree@.skip(t0 + 1)),
                        );
                        lemma_encoded_at_split(
                            data@,
                            tp0,
                            mp_str(b.tree@[t0].0@),
                            enc_backup_object(b.tree@[t0].1),
                        );
                    }
                }
                t = t + 1;
            }
            tree = Some(entries);
            p = tp;
            proof {
                assert forall|b: Backup|
                    backup_wf(b) && data@ == #[trigger] enc_backup(b) implies (encoded_at(
                    data@,
                    p as int,
                    backup_fields_from(b, 5),
                ) && p == data@.len() - backup_fields_from(b, 5).len()) by {
                    assert(b.tree@.skip(m as int) =~= Seq::<(Vec<u8>, BackupObject)>::empty());
                    assert(enc_tree_list(b.tree@.skip(m as int)) =~= Seq::<u8>::empty());
                    assert(backup_fields_from(b, 5) =~= Seq::<u8>::empty());
                    assert(data@.subrange(p as int, p as int) =~= Seq::<u8>::empty());
                }
            }
        } else {
            p = match skip_value(data, p2) {
                Some(r) => r,
                None => {
                    proof {
                        assert forall|b: Backup|
                            !(backup_wf(b) && data@ == #[trigger] enc_backup(b)) by {
                            if backup_wf(b) && data@ == enc_backup(b) {
                                lemma_backup_step_facts(data@, p0, b, i0);
                            }
                        }
                    }
                    return None;
                },
            };
            proof {
                assert forall|b: Backup| !(backup_wf(b) && data@ == #[trigger] enc_backup(b)) by {
                    if backup_wf(b) && data@ == enc_backup(b) {
                        lemma_backup_step_facts(data@, p0, b, i0);
                    }
                }
            }
        }
        proof {
            assert forall|b: Backup|
                backup_wf(b) && data@ == #[trigger] enc_backup(b) implies backup_read_state(
                data@,
                b,
                i0 + 1,
                p as int,
                message,
                hash,
                timestamp,
                author,
                tree,
            ) by {
                lemma_backup_step_facts(data@, p0, b, i0);
                lemma_keys_distinct();
                if i0 == 0 {
                    assert(backup_key_at(i0) == key_message());
                    assert(backup_val_at(b, i0) == mp_str(b.message@));
                    assert(key@ == key_message());
                } else if i0 == 1 {
                    assert(backup_key_at(i0) == key_hash());
                    assert(backup_val_at(b, i0) == mp_str(b.hash@));
                    assert(key@ == key_hash());
                } else if i0 == 2 {
                    assert(backup_key_at(i0) == key_timestamp());
                    assert(backup_val_at(b, i0) == mp_uint(b.timestamp as nat));
                    assert(key@ == key_timestamp());
                } else if i0 == 3 {
                    assert(backup_key_at(i0) == key_author());
                    assert(backup_val_at(b, i0) == mp_str(b.author@));
                    assert(key@ == key_author());
                } else {
                    assert(backup_key_at(i0) == key_tree());
                    assert(key@ == key_tree());
                }
            }
        }
        i = i + 1;
    }
    match (message, hash, timestamp, author, tree) {
        (Some(message), Some(hash), Some(timestamp), Some(author), Some(tree)) => Some(
            Backup { message, hash, timestamp, author, tree },
        ),
        _ => None,
    }
}

/// The canonical encoding of a journal's field slots from `k` on (message,
/// compress, chunk_size, concurrency, ignore_patterns, processed_chunks).
pub open spec fn pending_fields_from(pb: PendingBackup, k: int) -> Seq<u8> {
    (if k <= 0 {
        mp_str(key_message()) + mp_str(pb.message@)
    } else {
        Seq::<u8>::empty()
    }) + (if k <= 1 {
        mp_str(key_compress()) + mp_int(pb.compress as int)
    } else {
        Seq::<u8>::empty()
    }) + (if k <= 2 {
        mp_str(key_chunk_size()) + mp_uint(pb.chunk_size as nat)
    } else {
        Seq::<u8>::empty()
    }) + (if k <= 3 {
        mp_str(key_concurrency()) + mp_uint(pb.concurrency as nat)
    } else {
        Seq::<u8>::empty()
    }) + (if k <= 4 {
        mp_str(key_ignore_patterns()) + enc_str_array(pb.ignore_patterns@)
    } else {
        Seq::<u8>::empty()
    }) + (if k <= 5 {
        mp_str(key_processed_chunks()) + enc_str_array(pb.processed_chunks@)
    } else {
        Seq::<u8>::empty()
    })
}

/// The name of the `i`-th field of a journal's canonical form.
pub open spec fn pending_key_at(i: int) -> Seq<u8> {
    if i == 0 {
        key_message()
    } else if i == 1 {
        key_compress()
    } else if i == 2 {
        key_chunk_size()
    } else if i == 3 {
        key_concurrency()
    } else if i == 4 {
        key_ignore_patterns()
    } else {
        key_processed_chunks()
    }
}

/// The encoded value of the `i`-th field of a journal's canonical form.
pub open spec fn pending_val_at(pb: PendingBackup, i: int) -> Seq<u8> {
    if i == 0 {
        mp_str(pb.message@)
    } else if i == 1 {
        mp_int(pb.compress as int)
    } else if i == 2 {
        mp_uint(pb.chunk_size as nat)
    } else if i == 3 {
        mp_uint(pb.concurrency as nat)
    } else if i == 4 {
        enc_str_array(pb.ignore_patterns@)
    } else {
        enc_str_array(pb.processed_chunks@)
    }
}

/// A canonical journal opens with a six-pair header, then its fields.
pub proof fn lemma_pending_open(data: Seq<u8>, pb: PendingBackup)
    requires
        data == enc_pending(pb),
    ensures
        encoded_at(data, 0, mp_map_header(6)),
        encoded_at(data, mp_map_header(6).len() as int, pending_fields_from(pb, 0)),
        data.len() == mp_map_header(6).len() + pending_fields_from(pb, 0).len(),
{
    assert(data.subrange(0, data.len() as int) =~= data);
    assert(enc_pending(pb) =~= mp_map_header(6) + pending_fields_from(pb, 0));
    lemma_encoded_at_split(data, 0, mp_map_header(6), pending_fields_from(pb, 0));
}

/// At a canonical journal's `i`-th field: the field's name stands first,
/// its value follows, and the remaining fields follow the value.
#[verifier::rlimit(100)]
pub proof fn lemma_pending_step_facts(data: Seq<u8>, p: int, pb: PendingBackup, i: int)
    requires
        0 <= i < 6,
        encoded_at(data, p, pending_fields_from(pb, i)),
    ensures
        encoded_at(data, p, mp_str(pending_key_at(i))),
        encoded_at(data, p + mp_str(pending_key_at(i)).len(), pending_val_at(pb, i)),
        encoded_at(
            data,
            p + mp_str(pending_key_at(i)).len() + pending_val_at(pb, i).len(),
            pending_fields_from(pb, i + 1),
        ),
        pending_fields_from(pb, i).len() == mp_str(pending_key_at(i)).len() + pending_val_at(
            pb,
            i,
        ).len() + pending_fields_from(pb, i + 1).len(),
        pending_key_at(i).len() < 32,
{
    let kk = mp_str(pending_key_at(i));
    let vv = pending_val_at(pb, i);
    if i == 0 {
        assert(pending_fields_from(pb, 0) =~= kk + vv + pending_fields_from(pb, 1));
    } else if i == 1 {
        assert(pending_fields_from(pb, 1) =~= kk + vv + pending_fields_from(pb, 2));
    } else if i == 2 {
        assert(pending_fields_from(pb, 2) =~= kk + vv + pending_fields_from(pb, 3));
    } else if i == 3 {
        assert(pending_fields_from(pb, 3) =~= kk + vv + pending_fields_from(pb, 4));
    } else if i == 4 {
        assert(pending_fields_from(pb, 4) =~= kk + vv + pending_fields_from(pb, 5));
    } else {
        assert(pending_fields_from(pb, 5) =~= kk + vv + pending_fields_from(pb, 6));
    }
    assert(pending_fields_from(pb, i) == kk + vv + pending_fields_from(pb, i + 1));
    lemma_encoded_at_split(data, p, kk + vv, pending_fields_from(pb, i + 1));
    lemma_encoded_at_split(data, p, kk, vv);
}

/// The state a journal reader is in after `i` fields of a canonical record.
pub open spec fn pending_read_state(
    data: Seq<u8>,
    pb: PendingBackup,
    i: int,
    p: int,
    message: Option<Vec<u8>>,
    compress: Option<i32>,
    chunk_size: Option<u64>,
    concurrency: Option<u64>,
    ignore_patterns: Option<Vec<Vec<u8>>>,
    processed_chunks: Option<Vec<Vec<u8>>>,
) -> bool {
    &&& 0 <= i <= 6
    &&& encoded_at(data, p, pending_fields_from(pb, i))
    &&& p == data.len() - pending_fields_from(pb, i).len()
    &&& (if i >= 1 {
        message matches Some(m) && m@ == pb.message@
    } else {
        message is None
    })
    &&& (if i >= 2 {
        compress == Some(pb.compress)
    } else {
        compress is None
    })
    &&& (if i >= 3 {
        chunk_size == Some(pb.chunk_size)
    } else {
        chunk_size is None
    })
    &&& (if i >= 4 {
        concurrency == Some(pb.concurrency)
    } else {
        concurrency is None
    })
    &&& (if i >= 5 {
        ignore_patterns matches Some(g) && str_list_eq(g@, pb.ignore_patterns@)
    } else {
        ignore_patterns is None
    })
    &&& (if i >= 6 {
        processed_chunks matches Some(c) && str_list_eq(c@, pb.processed_chunks@)
    } else {
        processed_chunks is None
    })
}

/// Reads a pending-backup journal; all six fields are required.  On the
/// canonical encoding of any well-formed journal it returns exactly that
/// journal.
#[verifier::rlimit(100)]
pub fn decode_pending(data: &[u8]) -> (out: Option<PendingBackup>)
    ensures
        out matches Some(r) ==> pending_wf(r),
        forall|j: PendingBackup|
            pending_wf(j) && data@ == #[trigger] enc_pending(j) ==> (out matches Some(r)
                && pending_eq(r, j)),
{
    let (n, start) = match read_map_header(data, 0) {
        Some(r) => r,
        None => {
            proof {
                assert forall|j: PendingBackup|
                    !(pending_wf(j) && data@ == #[trigger] enc_pending(j)) by {
                    if data@ == enc_pending(j) {
                        lemma_pending_open(data@, j);
                    }
                }
            }
            return None;
        },
    };
    let mut p = start;
    let mut message: Option<Vec<u8>> = None;
    let mut compress: Option<i32> = None;
    let mut chunk_size: Option<u64> = None;
    let mut concurrency: Option<u64> = None;
    let mut ignore_patterns: Option<Vec<Vec<u8>>> = None;
    let mut processed_chunks: Option<Vec<Vec<u8>>> = None;
    let k_message = key_message_bytes();
    let k_compress = key_compress_bytes();
    let k_chunk_size = key_chunk_size_bytes();
    let k_concurrency = key_concurrency_bytes();
    let k_ignore_patterns = key_ignore_patterns_bytes();
    let k_processed_chunks = key_processed_chunks_bytes();
    let mut i: u64 = 0;
    proof {
        assert forall|j: PendingBackup|
            pending_wf(j) && data@ == #[trigger] enc_pending(j) implies (n == 6
            && pending_read_state(
            data@,
            j,
            0,
            start as int,
            None::<Vec<u8>>,
            None::<i32>,
            None::<u64>,
            None::<u64>,
            None::<Vec<Vec<u8>>>,
            None::<Vec<Vec<u8>>>,
        )) by {
            lemma_pending_open(data@, j);
        }
    }
    while i < n
        invariant
            i <= n,
            p <= data@.len(),
            message matches Some(v) ==> str_fits(v@),
            ignore_patterns matches Some(cs) ==> cs@.len() < 0x100000000 && (forall|j: int|
                0 <= j < cs@.len() ==> str_fits((#[trigger] cs@[j])@)),
            processed_chunks matches Some(cs) ==> cs@.len() < 0x100000000 && (forall|j: int|
                0 <= j < cs@.len() ==> str_fits((#[trigger] cs@[j])@)),
            k_message@ == key_message(),
            k_compress@ == key_compress(),
            k_chunk_size@ == key_chunk_size(),
            k_concurrency@ == key_concurrency(),
            k_ignore_patterns@ == key_ignore_patterns(),
            k_processed_chunks@ == key_processed_chunks(),
            forall|j: PendingBackup|
                pending_wf(j) && data@ == #[trigger] enc_pending(j) ==> (n == 6
                    && pending_read_state(
                    data@,
                    j,
                    i as int,
                    p as int,
                    message,
                    compress,
                    chunk_size,
                    concurrency,
                    ignore_patterns,
                    processed_chunks,
                )),
        decreases n - i,
    {
        let ghost i0 = i as int;
        let ghost p0 = p as int;
        let (key, p2) = match read_str(data, p) {
            Some(r) => r,
            None => {
                proof {
                    assert forall|j: PendingBackup|
                        !(pending_wf(j) && data@ == #[trigger] enc_pending(j)) by {
                        if pending_wf(j) && data@ == enc_pending(j) {
                            lemma_pending_step_facts(data@, p0, j, i0);
                        }
                    }
                }
                return None;
            },
        };
        if bytes_eq(key.as_slice(), k_message.as_slice()) {
            let (v, p3) = match read_str(data, p2) {
                Some(r) => r,
                None => {
                    proof {
                        assert forall|j: PendingBackup|
                            !(pending_wf(j) && data@ == #[trigger] enc_pending(j)) by {
                            if pending_wf(j) && data@ == enc_pending(j) {
                                lemma_pending_step_facts(data@, p0, j, i0);
                                lemma_keys_distinct();
                            }
                        }
                    }
                    return None;
                },
            };
            if !fits(&v) {
                proof {
                    assert forall|j: PendingBackup|
                        !(pending_wf(j) && data@ == #[trigger] enc_pending(j)) by {
                        if pending_wf(j) && data@ == enc_pending(j) {
                            lemma_pending_step_facts(data@, p0, j, i0);
                            lemma_keys_distinct();
                        }
                    }
                }
                return None;
            }
            message = Some(v);
            p = p3;
        } else if bytes_eq(key.as_slice(), k_compress.as_slice()) {
            let (v, p3) = match read_int(data, p2) {
                Some(r) => r,
                None => {
                    proof {
                        assert forall|j: PendingBackup|
                            !(pending_wf(j) && data@ == #[trigger] enc_pending(j)) by {
                            if pending_wf(j) && data@ == enc_pending(j) {
                                lemma_pending_step_facts(data@, p0, j, i0);
                                lemma_keys_distinct();
                            }
                        }
                    }
                    return None;
                },
            };
            if v < -0x80000000i64 || v > 0x7fffffffi64 {
                proof {
                    assert forall|j: PendingBackup|
                        !(pending_wf(j) && data@ == #[trigger] enc_pending(j)) by {
                        if pending_wf(j) && data@ == enc_pending(j) {
                            lemma_pending_step_facts(data@, p0, j, i0);
                            lemma_keys_distinct();
                        }
                    }
                }
                return None;
            }
            compress = Some(v as i32);
            p = p3;
        } else if bytes_eq(key.as_slice(), k_chunk_size.as_slice()) {
            let (v, p3) = match read_uint(data, p2) {
                Some(r) => r,
                None => {
                    proof {
                        assert forall|j: PendingBackup|
                            !(pending_wf(j) && data@ == #[trigger] enc_pending(j)) by {
                            if pending_wf(j) && data@ == enc_pending(j) {
                                lemma_pending_step_facts(data@, p0, j, i0);
                                lemma_keys_distinct();
                            }
                        }
                    }
                    return None;
                },
            };
            chunk_size = Some(v);
            p = p3;
        } else if bytes_eq(key.as_slice(), k_concurrency.as_slice()) {
            let (v, p3) = match read_uint(data, p2) {
                Some(r) => r,
                None => {
                    proof {
                        assert forall|j: PendingBackup|
                            !(pending_wf(j) && data@ == #[trigger] enc_pending(j)) by {
                            if pending_wf(j) && data@ == enc_pending(j) {
                                lemma_pending_step_facts(data@, p0, j, i0);
                                lemma_keys_distinct();
                            }
                        }
                    }
                    return None;
                },
            };
            concurrency = Some(v);
            p = p3;
        } else if bytes_eq(key.as_slice(), k_ignore_patterns.as_slice()) {
            let (v, p3) = match decode_str_array(data, p2) {
                Some(r) => r,
                None => {
                    proof {
                        assert forall|j: PendingBackup|
                            !(pending_wf(j) && data@ == #[trigger] enc_pending(j)) by {
                            if pending_wf(j) && data@ == enc_pending(j) {
                                lemma_pending_step_facts(data@, p0, j, i0);
                                lemma_keys_distinct();
                            }
                        }
                    }
                    return None;
                },
            };
            ignore_patterns = Some(v);
            p = p3;
        } else if bytes_eq(key.as_slice(), k_processed_chunks.as_slice()) {
            let (v, p3) = match decode_str_array(data, p2) {
                Some(r) => r,
                None => {
                    proof {
                        assert forall|j: PendingBackup|
                            !(pending_wf(j) && data@ == #[trigger] enc_pending(j)) by {
                            if pending_wf(j) && data@ == enc_pending(j) {
                                lemma_pending_step_facts(data@, p0, j, i0);
                                lemma_keys_distinct();
                            }
                        }
                    }
                    return None;
                },
            };
            processed_chunks = Some(v);
            p = p3;
        } else {
            p = match skip_value(data, p2) {
                Some(r) => r,
                None => {
                    proof {
                        assert forall|j: PendingBackup|
                            !(pending_wf(j) && data@ == #[trigger] enc_pending(j)) by {
                            if pending_wf(j) && data@ == enc_pending(j) {
                                lemma_pending_step_facts(data@, p0, j, i0);
                            }
                        }
                    }
                    return None;
                },
            };
            proof {
                assert forall|j: PendingBackup|
                    !(pending_wf(j) && data@ == #[trigger] enc_pending(j)) by {
                    if pending_wf(j) && data@ == enc_pending(j) {
                        lemma_pending_step_facts(data@, p0, j, i0);
                    }
                }
            }
        }
        proof {
            assert forall|j: PendingBackup|
                pending_wf(j) && data@ == #[trigger] enc_pending(j) implies pending_read_state(
                data@,
                j,
                i0 + 1,
                p as int,
                message,
                compress,
                chunk_size,
                concurrency,
                ignore_patterns,
                processed_chunks,
            ) by {
                lemma_pending_step_facts(data@, p0, j, i0);
                lemma_keys_distinct();
                if i0 == 0 {
                    assert(pending_key_at(i0) == key_message());
                    assert(pending_val_at(j, i0) == mp_str(j.message@));
                    assert(key@ == key_message());
                } else if i0 == 1 {
                    assert(pending_key_at(i0) == key_compress());
                    assert(pending_val_at(j, i0) == mp_int(j.compress as int));
                    assert(key@ == key_compress());
                } else if i0 == 2 {
                    assert(pending_key_at(i0) == key_chunk_size());
                    assert(pending_val_at(j, i0) == mp_uint(j.chunk_size as nat));
                    assert(key@ == key_chunk_size());
                } else if i0 == 3 {
                    assert(pending_key_at(i0) == key_concurrency());
                    assert(pending_val_at(j, i0) == mp_uint(j.concurrency as nat));
                    assert(key@ == key_concurrency());
                } else if i0 == 4 {
                    assert(pending_key_at(i0) == key_ignore_patterns());
                    assert(pending_val_at(j, i0) == enc_str_array(j.ignore_patterns@));
                    assert(key@ == key_ignore_patterns());
                } else {
                    assert(pending_key_at(i0) == key_processed_chunks());
                    assert(pending_val_at(j, i0) == enc_str_array(j.processed_chunks@));
                    assert(key@ == key_processed_chunks());
                }
            }
        }
        i = i + 1;
    }
    match (message, compress, chunk_size, concurrency, ignore_patterns, processed_chunks) {
        (
            Some(message),
            Some(compress),
            Some(chunk_size),
            Some(concurrency),
            Some(ignore_patterns),
            Some(processed_chunks),
        ) => Some(
            PendingBackup {
                message,
                compress,
                chunk_size,
                concurrency,
                ignore_patterns,
                processed_chunks,
            },
        ),
        _ => None,
    }
}

/// A canonical configuration opens with a one-pair header, then its field.
proof fn lemma_config_open(data: Seq<u8>, c: Config)
    requires
        data == enc_config(c),
    ensures
        encoded_at(data, 0, mp_map_header(1)),
        encoded_at(data, mp_map_header(1).len() as int, mp_str(key_author())),
        encoded_at(
            data,
            (mp_map_header(1).len() + mp_str(key_author()).len()) as int,
            mp_str(c.author@),
        ),
        data.len() == mp_map_header(1).len() + mp_str(key_author()).len() + mp_str(c.author@).len(),
{
    assert(data.subrange(0, data.len() as int) =~= data);
    assert(enc_config(c) =~= mp_map_header(1) + (mp_str(key_author()) + mp_str(c.author@)));
    lemma_encoded_at_split(data, 0, mp_map_header(1), mp_str(key_author()) + mp_str(c.author@));
    lemma_encoded_at_split(
        data,
        mp_map_header(1).len() as int,
        mp_str(key_author()),
        mp_str(c.author@),
    );
}

/// Reads the user configuration; `author` is required.  On the canonical
/// encoding of any well-formed configuration it returns exactly that
/// configuration.
pub fn decode_config(data: &[u8]) -> (out: Option<Config>)
    ensures
        out matches Some(c) ==> config_wf(c),
        forall|c: Config|
            config_wf(c) && data@ == #[trigger] enc_config(c) ==> (out matches Some(r) && config_eq(
                r,
                c,
            )),
{
    let (n, start) = match read_map_header(data, 0) {
        Some(r) => r,
        None => {
            proof {
                assert forall|c: Config| !(config_wf(c) && data@ == #[trigger] enc_config(c)) by {
                    if data@ == enc_config(c) {
                        lemma_config_open(data@, c);
                    }
                }
            }
            return None;
        },
    };
    let mut p = start;
    let mut author: Option<Vec<u8>> = None;
    let k_author = key_author_bytes();
    let mut i: u64 = 0;
    proof {
        assert forall|c: Config|
            config_wf(c) && data@ == #[trigger] enc_config(c) implies (n == 1 && start
            == mp_map_header(1).len()) by {
            lemma_config_open(data@, c);
        }
    }
    while i < n
        invariant
            i <= n,
            p <= data@.len(),
            author matches Some(v) ==> str_fits(v@),
            k_author@ == key_author(),
            forall|c: Config|
                config_wf(c) && data@ == #[trigger] enc_config(c) ==> (n == 1 && (i == 0 ==> (p
                    == mp_map_header(1).len() && author is None)) && (i == 1 ==> (p == data@.len()
                    && (author matches Some(a) && a@ == c.author@)))),
        decreases n - i,
    {
        let ghost i0 = i as int;
        let (key, p2) = match read_str(data, p) {
            Some(r) => r,
            None => {
                proof {
                    assert forall|c: Config|
                        !(config_wf(c) && data@ == #[trigger] enc_config(c)) by {
                        if config_wf(c) && data@ == enc_config(c) {
                            lemma_config_open(data@, c);
                        }
                    }
                }
                return None;
            },
        };
        if bytes_eq(key.as_slice(), k_author.as_slice()) {
            let (v, p3) = match read_str(data, p2) {
                Some(r) => r,
                None => {
                    proof {
                        assert forall|c: Config|
                            !(config_wf(c) && data@ == #[trigger] enc_config(c)) by {
                            if config_wf(c) && data@ == enc_config(c) {
                                lemma_config_open(data@, c);
                            }
                        }
                    }
                    return None;
                },
            };
            if !fits(&v) {
                proof {
                    assert forall|c: Config|
                        !(config_wf(c) && data@ == #[trigger] enc_config(c)) by {
                        if config_wf(c) && data@ == enc_config(c) {
                            lemma_config_open(data@, c);
                        }
                    }
                }
                return None;
            }
            author = Some(v);
            p = p3;
        } else {
            p = match skip_value(data, p2) {
                Some(r) => r,
                None => {
                    proof {
                        assert forall|c: Config|
                            !(config_wf(c) && data@ == #[trigger] enc_config(c)) by {
                            if config_wf(c) && data@ == enc_config(c) {
                                lemma_config_open(data@, c);
                            }
                        }
                    }
                    return None;
                },
            };
            proof {
                assert forall|c: Config| !(config_wf(c) && data@ == #[trigger] enc_config(c)) by {
                    if config_wf(c) && data@ == enc_config(c) {
                        lemma_config_open(data@, c);
                    }
                }
            }
        }
        proof {
            assert forall|c: Config|
                config_wf(c) && data@ == #[trigger] enc_config(c) implies (i0 == 0 && p
                == data@.len() && (author matches Some(a) && a@ == c.author@)) by {
                lemma_config_open(data@, c);
            }
        }
        i = i + 1;
    }
    match author {
        Some(author) => Some(Config { author }),
        None => None,
    }
}

} // verus!
