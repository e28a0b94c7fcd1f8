//! Storage back-end definitions and their stored configuration records.
//!
//! A storage is configured once and saved as a record naming its type and a
//! table of fields.  Two back-end types exist: a local directory (one field,
//! `path`) and an S3-compatible object store (region, bucket, access key,
//! secret key, endpoint).  Records written by older versions use a bare
//! array with a numeric type tag; both forms load.

use vstd::prelude::*;
use crate::msgpack::{
    mp_str, mp_map_header, write_str, write_map_header, read_str, read_map_header,
    read_array_header, read_uint, skip_value, bytes_eq, clone_bytes, encoded_at,
    lemma_encoded_at_split,
};
use crate::records::{key_storage_type, key_fields, write_key_storage_type, write_key_fields,
    key_storage_type_bytes, key_fields_bytes};
use crate::metadata::str_fits;

verus! {

/// A saved storage record written by an older version: a numeric type tag
/// and one optional slot per field.
#[derive(Clone, Debug, PartialEq, Eq)]
pub struct Storage {
    pub storage_type: u8,
    pub path: Option<Vec<u8>>,
    pub region: Option<Vec<u8>>,
    pub bucket: Option<Vec<u8>>,
    pub access_key: Option<Vec<u8>>,
    pub secret_key: Option<Vec<u8>>,
    pub endpoint: Option<Vec<u8>>,
}

/// A saved storage record: the back-end type's name and its field table.
#[derive(Clone, Debug, PartialEq, Eq)]
pub struct StorageConfig {
    pub storage_type: Vec<u8>,
    pub fields: Vec<(Vec<u8>, Vec<u8>)>,
}

/// One configurable field of a back-end type.
#[derive(Clone, Debug, PartialEq, Eq)]
pub struct StorageField {
    pub key: Vec<u8>,
    pub arg_name: Vec<u8>,
    pub value_name: Vec<u8>,
    pub short: Option<u8>,
    pub help: Vec<u8>,
    pub prompt: Vec<u8>,
    pub required: bool,
    pub secret: bool,
}

/// One back-end type: its name, its legacy numeric tag, and its fields.
#[derive(Clone, Debug, PartialEq, Eq)]
pub struct StorageDefinition {
    pub id: Vec<u8>,
    pub label: Vec<u8>,
    pub legacy_type: Option<u8>,
    pub fields: Vec<StorageField>,
}

/// The name of the directory back-end.
pub open spec fn local_id() -> Seq<u8> {
    seq![108u8, 111u8, 99u8, 97u8, 108u8]
}

/// The name of the object-store back-end.
pub open spec fn s3_id() -> Seq<u8> {
    seq![115u8, 51u8]
}

/// The field keys of the directory back-end, in order.
pub open spec fn local_field_keys() -> Seq<Seq<u8>> {
    seq![seq![112u8, 97u8, 116u8, 104u8]]
}

/// The field keys of the object-store back-end, in order.
pub open spec fn s3_field_keys() -> Seq<Seq<u8>> {
    seq![
        seq![114u8, 101u8, 103u8, 105u8, 111u8, 110u8],
        seq![98u8, 117u8, 99u8, 107u8, 101u8, 116u8],
        seq![97u8, 99u8, 99u8, 101u8, 115u8, 115u8, 95u8, 107u8, 101u8, 121u8],
        seq![115u8, 101u8, 99u8, 114u8, 101u8, 116u8, 95u8, 107u8, 101u8, 121u8],
        seq![101u8, 110u8, 100u8, 112u8, 111u8, 105u8, 110u8, 116u8],
    ]
}

/// Which field keys carry secrets and are masked when shown.
pub open spec fn is_secret_key(k: Seq<u8>) -> bool {
    k == s3_field_keys()[2] || k == s3_field_keys()[3]
}

fn field(key: Vec<u8>, secret: bool) -> (out: StorageField)
    ensures
        out.key@ == key@,
        out.arg_name@ == key@,
        out.value_name@ == key@,
        out.secret == secret,
        out.required == true,
        out.short is None,
    {
    let arg_name = clone_bytes(&key);
    let value_name = clone_bytes(&key);
    let help = clone_bytes(&key);
    let prompt = clone_bytes(&key);
    StorageField {
        key,
        arg_name,
        value_name,
        short: None,
        help,
        prompt,
        required: true,
        secret,
    }
}

/// The known back-end definitions: the directory back-end (legacy tag 0)
/// with its `path` field, then the object-store back-end (legacy tag 1)
/// with region, bucket, access key, secret key and endpoint; the two keys
/// that carry credentials are marked secret.
pub fn storage_definitions() -> (out: Vec<StorageDefinition>)
    ensures
        out@.len() == 2,
        out@[0].id@ == local_id(),
        out@[0].legacy_type == Some(0u8),
        out@[0].fields@.len() == 1,
        out@[0].fields@[0].key@ == local_field_keys()[0],
        !out@[0].fields@[0].secret,
        out@[1].id@ == s3_id(),
        out@[1].legacy_type == Some(1u8),
        out@[1].fields@.len() == 5,
        forall|i: int|
            0 <= i < 5 ==> (#[trigger] out@[1].fields@[i]).key@ == s3_field_keys()[i],
        forall|i: int|
            0 <= i < 5 ==> (#[trigger] out@[1].fields@[i]).secret == is_secret_key(
                s3_field_keys()[i],
            ),
{
    let local_name: [u8; 5] = [108u8, 111u8, 99u8, 97u8, 108u8];
    let s3_name: [u8; 2] = [115u8, 51u8];
    let path_key: [u8; 4] = [112u8, 97u8, 116u8, 104u8];
    let region_key: [u8; 6] = [114u8, 101u8, 103u8, 105u8, 111u8, 110u8];
    let bucket_key: [u8; 6] = [98u8, 117u8, 99u8, 107u8, 101u8, 116u8];
    let access_key: [u8; 10] = [97u8, 99u8, 99u8, 101u8, 115u8, 115u8, 95u8, 107u8, 101u8, 121u8];
    let secret_key: [u8; 10] = [115u8, 101u8, 99u8, 114u8, 101u8, 116u8, 95u8, 107u8, 101u8, 121u8];
    let endpoint_key: [u8; 8] = [101u8, 110u8, 100u8, 112u8, 111u8, 105u8, 110u8, 116u8];
    proof {
        assert(local_name@ =~= local_id());
        assert(s3_name@ =~= s3_id());
        assert(path_key@ =~= local_field_keys()[0]);
        assert(region_key@ =~= s3_field_keys()[0]);
        assert(bucket_key@ =~= s3_field_keys()[1]);
        assert(access_key@ =~= s3_field_keys()[2]);
        assert(secret_key@ =~= s3_field_keys()[3]);
        assert(endpoint_key@ =~= s3_field_keys()[4]);
    }
    let mut local_fields: Vec<StorageField> = Vec::new();
    local_fields.push(field(vstd::slice::slice_to_vec(path_key.as_slice()), false));
    let mut s3_fields: Vec<StorageField> = Vec::new();
    s3_fields.push(field(vstd::slice::slice_to_vec(region_key.as_slice()), false));
    s3_fields.push(field(vstd::slice::slice_to_vec(bucket_key.as_slice()), false));
    s3_fields.push(field(vstd::slice::slice_to_vec(access_key.as_slice()), true));
    s3_fields.push(field(vstd::slice::slice_to_vec(secret_key.as_slice()), true));
    s3_fields.push(field(vstd::slice::slice_to_vec(endpoint_key.as_slice()), false));
    let mut out: Vec<StorageDefinition> = Vec::new();
    out.push(
        StorageDefinition {
            id: vstd::slice::slice_to_vec(local_name.as_slice()),
            label: vstd::slice::slice_to_vec(local_name.as_slice()),
            legacy_type: Some(0),
            fields: local_fields,
        },
    );
    out.push(
        StorageDefinition {
            id: vstd::slice::slice_to_vec(s3_name.as_slice()),
            label: vstd::slice::slice_to_vec(s3_name.as_slice()),
            legacy_type: Some(1),
            fields: s3_fields,
        },
    );
    out
}

/// The names of the known definitions and their field keys, told apart:
/// only the two credential keys of the object store are secret.
pub proof fn lemma_storage_keys_distinct()
    ensures
        local_id() != s3_id(),
        !is_secret_key(local_field_keys()[0]),
        !is_secret_key(s3_field_keys()[0]),
        !is_secret_key(s3_field_keys()[1]),
        is_secret_key(s3_field_keys()[2]),
        is_secret_key(s3_field_keys()[3]),
        !is_secret_key(s3_field_keys()[4]),
{
    assert(local_id().len() == 5 && s3_id().len() == 2);
    assert(local_field_keys()[0].len() == 4);
    assert(s3_field_keys()[0].len() == 6);
    assert(s3_field_keys()[1].len() == 6);
    assert(s3_field_keys()[2].len() == 10);
    assert(s3_field_keys()[3].len() == 10);
    assert(s3_field_keys()[4].len() == 8);
    assert(s3_field_keys()[2][0] == 97u8 && s3_field_keys()[3][0] == 115u8);
}

/// Whether a definition carries exactly the fields its type name stands
/// for, with the two credential keys of the object store marked secret.
pub open spec fn def_fields_ok(d: StorageDefinition) -> bool {
    &&& (d.id@ == local_id() ==> (d.fields@.len() == 1 && d.fields@[0].key@ == local_field_keys()[0]
        && d.fields@[0].secret == false))
    &&& (d.id@ == s3_id() ==> (d.fields@.len() == 5 && (forall|i: int|
        0 <= i < 5 ==> (#[trigger] d.fields@[i]).key@ == s3_field_keys()[i] && d.fields@[i].secret
            == is_secret_key(s3_field_keys()[i]))))
}

/// The definition a type name picks out, if the name is known.
pub fn storage_definition(storage_type: &[u8]) -> (out: Option<StorageDefinition>)
    ensures
        out is Some <==> (storage_type@ == local_id() || storage_type@ == s3_id()),
        out matches Some(d) ==> d.id@ == storage_type@ && def_fields_ok(d),
{
    let defs = storage_definitions();
    let mut defs = defs;
    let second = defs.pop().unwrap();
    let first = defs.pop().unwrap();
    if bytes_eq(first.id.as_slice(), storage_type) {
        Some(first)
    } else if bytes_eq(second.id.as_slice(), storage_type) {
        Some(second)
    } else {
        None
    }
}

/// The definition a legacy numeric tag picks out, if the tag is known.
pub fn storage_definition_by_legacy_type(legacy_type: u8) -> (out: Option<StorageDefinition>)
    ensures
        out is Some <==> legacy_type == 0 || legacy_type == 1,
        out matches Some(d) ==> d.legacy_type == Some(legacy_type) && (legacy_type == 0 ==> d.id@
            == local_id()) && (legacy_type == 1 ==> d.id@ == s3_id()),
{
    let defs = storage_definitions();
    let mut defs = defs;
    let second = defs.pop().unwrap();
    let first = defs.pop().unwrap();
    if legacy_type == 0 {
        Some(first)
    } else if legacy_type == 1 {
        Some(second)
    } else {
        None
    }
}

/// The names of the known back-end types, in definition order.
pub fn storage_type_values() -> (out: Vec<Vec<u8>>)
    ensures
        out@.len() == 2,
        out@[0]@ == local_id(),
        out@[1]@ == s3_id(),
{
    let local_name: [u8; 5] = [108u8, 111u8, 99u8, 97u8, 108u8];
    let s3_name: [u8; 2] = [115u8, 51u8];
    proof {
        assert(local_name@ =~= local_id());
        assert(s3_name@ =~= s3_id());
    }
    let mut out: Vec<Vec<u8>> = Vec::new();
    out.push(vstd::slice::slice_to_vec(local_name.as_slice()));
    out.push(vstd::slice::slice_to_vec(s3_name.as_slice()));
    out
}

/// Every distinct field over all back-end types, in definition order: what
/// a storage-creation surface offers.
pub fn storage_add_fields() -> (out: Vec<StorageField>)
    ensures
        out@.len() == 6,
        out@[0].key@ == local_field_keys()[0],
        forall|i: int| 0 <= i < 5 ==> (#[trigger] out@[i + 1].key@) == s3_field_keys()[i],
{
    let defs = storage_definitions();
    let mut defs = defs;
    let s3_def = defs.pop().unwrap();
    let local_def = defs.pop().unwrap();
    let mut out: Vec<StorageField> = Vec::new();
    let mut local_fields = local_def.fields;
    let mut s3_fields = s3_def.fields;
    out.append(&mut local_fields);
    out.append(&mut s3_fields);
    proof {
        assert forall|i: int| 0 <= i < 5 implies (#[trigger] out@[i + 1].key@)
            == s3_field_keys()[i] by {}
    }
    out
}

/// The value a field table holds for `key`, if any: the first match wins.
pub open spec fn field_lookup(fields: Seq<(Vec<u8>, Vec<u8>)>, key: Seq<u8>) -> Option<Seq<u8>>
    decreases fields.len(),
{
    if fields.len() == 0 {
        None
    } else if fields[0].0@ == key {
        Some(fields[0].1@)
    } else {
        field_lookup(fields.skip(1), key)
    }
}

/// Looks a field's value up in a storage record's table.
pub fn lookup_field(cfg: &StorageConfig, key: &[u8]) -> (out: Option<Vec<u8>>)
    ensures
        out matches Some(v) ==> field_lookup(cfg.fields@, key@) matches Some(s) && v@ == s,
        out is None <==> field_lookup(cfg.fields@, key@) is None,
{
    let n = cfg.fields.len();
    let mut i: usize = 0;
    proof {
        assert(cfg.fields@.skip(0) =~= cfg.fields@);
    }
    while i < n
        invariant
            i <= n,
            n == cfg.fields@.len(),
            field_lookup(cfg.fields@, key@) == field_lookup(cfg.fields@.skip(i as int), key@),
        decreases n - i,
    {
        proof {
            assert(cfg.fields@.skip(i as int)[0] == cfg.fields@[i as int]);
            assert(cfg.fields@.skip(i as int).skip(1) =~= cfg.fields@.skip(i + 1));
        }
        if bytes_eq(cfg.fields[i].0.as_slice(), key) {
            return Some(clone_bytes(&cfg.fields[i].1));
        }
        i = i + 1;
    }
    proof {
        assert(cfg.fields@.skip(n as int) =~= Seq::<(Vec<u8>, Vec<u8>)>::empty());
    }
    None
}

/// The non-secret fields of a record that its definition knows, as
/// key-value pairs in definition order; a record of an unknown type shows
/// all of its fields in table order.  Of a known type, no returned key is a
/// field its definition marks secret: the credentials never leave the table.
pub fn public_fields(cfg: &StorageConfig) -> (out: Vec<(Vec<u8>, Vec<u8>)>)
    ensures
        forall|i: int|
            0 <= i < out@.len() ==> (field_lookup(cfg.fields@, (#[trigger] out@[i]).0@) matches Some(
                v,
            ) && out@[i].1@ == v),
        (cfg.storage_type@ == local_id() || cfg.storage_type@ == s3_id()) ==> (forall|i: int|
            0 <= i < out@.len() ==> !is_secret_key((#[trigger] out@[i]).0@)),
        cfg.storage_type@ == local_id() ==> (forall|i: int|
            0 <= i < out@.len() ==> (#[trigger] out@[i]).0@ == local_field_keys()[0]),
        cfg.storage_type@ == s3_id() ==> (forall|i: int|
            0 <= i < out@.len() ==> ((#[trigger] out@[i]).0@ == s3_field_keys()[0] || out@[i].0@
                == s3_field_keys()[1] || out@[i].0@ == s3_field_keys()[4])),
{
    proof {
        lemma_storage_keys_distinct();
    }
    match storage_definition(cfg.storage_type.as_slice()) {
        Some(def) => {
            let mut out: Vec<(Vec<u8>, Vec<u8>)> = Vec::new();
            let n = def.fields.len();
            let mut i: usize = 0;
            while i < n
                invariant
                    i <= n,
                    n == def.fields@.len(),
                    def_fields_ok(def),
                    def.id@ == cfg.storage_type@,
                    def.id@ == local_id() || def.id@ == s3_id(),
                    forall|j: int|
                        0 <= j < out@.len() ==> (field_lookup(
                            cfg.fields@,
                            (#[trigger] out@[j]).0@,
                        ) matches Some(v) && out@[j].1@ == v),
                    forall|j: int|
                        0 <= j < out@.len() ==> exists|g: int|
                            0 <= g < def.fields@.len() && !(#[trigger] def.fields@[g]).secret && (
                            #[trigger] out@[j]).0@ == def.fields@[g].key@,
                decreases n - i,
            {
                if !def.fields[i].secret {
                    match lookup_field(cfg, def.fields[i].key.as_slice()) {
                        Some(v) => {
                            let ghost gi = i as int;
                            out.push((clone_bytes(&def.fields[i].key), v));
                            proof {
                                assert(out@[out@.len() - 1].0@ == def.fields@[gi].key@
                                    && !def.fields@[gi].secret);
                            }
                        },
                        None => {},
                    }
                }
                i = i + 1;
            }
            proof {
                lemma_storage_keys_distinct();
                assert forall|j: int| 0 <= j < out@.len() implies !is_secret_key(
                    (#[trigger] out@[j]).0@,
                ) by {
                    let g = choose|g: int|
                        0 <= g < def.fields@.len() && !(#[trigger] def.fields@[g]).secret && out@[j].0@
                            == def.fields@[g].key@;
                    if def.id@ == s3_id() {
                        assert(def.fields@[g].secret == is_secret_key(s3_field_keys()[g]));
                    }
                }
            }
            out
        },
        None => {
            let mut out: Vec<(Vec<u8>, Vec<u8>)> = Vec::new();
            let n = cfg.fields.len();
            let mut i: usize = 0;
            while i < n
                invariant
                    i <= n,
                    n == cfg.fields@.len(),
                    forall|j: int|
                        0 <= j < out@.len() ==> (field_lookup(
                            cfg.fields@,
                            (#[trigger] out@[j]).0@,
                        ) matches Some(v) && out@[j].1@ == v),
                decreases n - i,
            {
                match lookup_field(cfg, cfg.fields[i].0.as_slice()) {
                    Some(v) => {
                        out.push((clone_bytes(&cfg.fields[i].0), v));
                    },
                    None => {},
                }
                i = i + 1;
            }
            out
        },
    }
}

/// The masked rendering of a secret value.
pub open spec fn mask_bytes() -> Seq<u8> {
    seq![42u8, 42u8, 42u8, 42u8, 42u8, 42u8, 42u8, 42u8]
}

/// The key and secrecy of each field of a known back-end type, in
/// definition order.
pub open spec fn def_field_specs(storage_type: Seq<u8>) -> Seq<(Seq<u8>, bool)> {
    if storage_type == local_id() {
        seq![(local_field_keys()[0], false)]
    } else {
        seq![
            (s3_field_keys()[0], false),
            (s3_field_keys()[1], false),
            (s3_field_keys()[2], true),
            (s3_field_keys()[3], true),
            (s3_field_keys()[4], false),
        ]
    }
}

/// The rendered `key: value` items of the fields a record holds, in
/// definition order.  A secret field renders as the mask: its value never
/// enters the rendering.
pub open spec fn shown_fields(fields: Seq<(Seq<u8>, bool)>, cfg: StorageConfig) -> Seq<Seq<u8>>
    decreases fields.len(),
{
    if fields.len() == 0 {
        Seq::empty()
    } else {
        (match field_lookup(cfg.fields@, fields[0].0) {
            Some(v) => seq![
                fields[0].0 + seq![0x3au8, 0x20u8] + (if fields[0].1 {
                    mask_bytes()
                } else {
                    v
                }),
            ],
            None => Seq::<Seq<u8>>::empty(),
        }) + shown_fields(fields.skip(1), cfg)
    }
}

/// Byte strings joined with `, `.
pub open spec fn joined(items: Seq<Seq<u8>>) -> Seq<u8>
    decreases items.len(),
{
    if items.len() == 0 {
        Seq::empty()
    } else if items.len() == 1 {
        items[0]
    } else {
        items[0] + seq![0x2cu8, 0x20u8] + joined(items.skip(1))
    }
}

proof fn lemma_shown_fields_push(fields: Seq<(Seq<u8>, bool)>, x: (Seq<u8>, bool), cfg: StorageConfig)
    ensures
        shown_fields(fields.push(x), cfg) == shown_fields(fields, cfg) + (
        match field_lookup(cfg.fields@, x.0) {
            Some(v) => seq![
                x.0 + seq![0x3au8, 0x20u8] + (if x.1 {
                    mask_bytes()
                } else {
                    v
                }),
            ],
            None => Seq::<Seq<u8>>::empty(),
        }),
    decreases fields.len(),
{
    if fields.len() == 0 {
        assert(fields.push(x).skip(1) =~= Seq::<(Seq<u8>, bool)>::empty());
        assert(fields.push(x)[0] == x);
        assert(fields =~= Seq::<(Seq<u8>, bool)>::empty());
        assert(shown_fields(Seq::<(Seq<u8>, bool)>::empty(), cfg) == Seq::<Seq<u8>>::empty());
        assert(shown_fields(fields.push(x), cfg) =~= shown_fields(fields, cfg) + (
        match field_lookup(cfg.fields@, x.0) {
            Some(v) => seq![
                x.0 + seq![0x3au8, 0x20u8] + (if x.1 {
                    mask_bytes()
                } else {
                    v
                }),
            ],
            None => Seq::<Seq<u8>>::empty(),
        }));
    } else {
        assert(fields.push(x).skip(1) =~= fields.skip(1).push(x));
        assert(fields.push(x)[0] == fields[0]);
        lemma_shown_fields_push(fields.skip(1), x, cfg);
        assert(shown_fields(fields.push(x), cfg) =~= shown_fields(fields, cfg) + (
        match field_lookup(cfg.fields@, x.0) {
            Some(v) => seq![
                x.0 + seq![0x3au8, 0x20u8] + (if x.1 {
                    mask_bytes()
                } else {
                    v
                }),
            ],
            None => Seq::<Seq<u8>>::empty(),
        }));
    }
}

proof fn lemma_joined_push(items: Seq<Seq<u8>>, x: Seq<u8>)
    ensures
        joined(items.push(x)) == (if items.len() == 0 {
            x
        } else {
            joined(items) + seq![0x2cu8, 0x20u8] + x
        }),
    decreases items.len(),
{
    if items.len() == 0 {
        assert(items.push(x)[0] == x);
        assert(joined(items.push(x)) =~= x);
    } else if items.len() == 1 {
        assert(items.push(x)[0] == items[0]);
        assert(items.push(x).skip(1) =~= seq![x]);
        assert(seq![x].len() == 1);
        assert(joined(seq![x]) == seq![x][0]);
        assert(seq![x][0] == x);
        assert(joined(items.push(x)) =~= joined(items) + seq![0x2cu8, 0x20u8] + x);
    } else {
        assert(items.push(x).skip(1) =~= items.skip(1).push(x));
        assert(items.push(x)[0] == items[0]);
        lemma_joined_push(items.skip(1), x);
        assert(joined(items.push(x)) =~= joined(items) + seq![0x2cu8, 0x20u8] + x);
    }
}

/// A one-line rendering of a record's fields for listings: the `key: value`
/// items of `shown_fields` joined with commas, so a secret value is always
/// masked.  An unknown type reads `unknown`; a record with no known fields
/// reads `no details`.
pub fn storage_details(cfg: &StorageConfig) -> (out: Vec<u8>)
    ensures
        !(cfg.storage_type@ == local_id() || cfg.storage_type@ == s3_id()) ==> out@ == seq![
            117u8, 110u8, 107u8, 110u8, 111u8, 119u8, 110u8,
        ],
        (cfg.storage_type@ == local_id() || cfg.storage_type@ == s3_id()) && shown_fields(
            def_field_specs(cfg.storage_type@),
            *cfg,
        ).len() == 0 ==> out@ == seq![
            110u8, 111u8, 32u8, 100u8, 101u8, 116u8, 97u8, 105u8, 108u8, 115u8,
        ],
        (cfg.storage_type@ == local_id() || cfg.storage_type@ == s3_id()) && shown_fields(
            def_field_specs(cfg.storage_type@),
            *cfg,
        ).len() > 0 ==> out@ == joined(shown_fields(def_field_specs(cfg.storage_type@), *cfg)),
{
    let def = match storage_definition(cfg.storage_type.as_slice()) {
        Some(d) => d,
        None => {
            let unknown: [u8; 7] = [117u8, 110u8, 107u8, 110u8, 111u8, 119u8, 110u8];
            return vstd::slice::slice_to_vec(unknown.as_slice());
        },
    };
    let ghost specs = def_field_specs(cfg.storage_type@);
    proof {
        lemma_storage_keys_distinct();
        assert(specs.len() == def.fields@.len());
        assert forall|g: int| 0 <= g < specs.len() implies ((#[trigger] specs[g]).0
            == def.fields@[g].key@ && specs[g].1 == def.fields@[g].secret) by {
            if def.id@ == s3_id() {
                assert(def.fields@[g].secret == is_secret_key(s3_field_keys()[g]));
            }
        }
        assert(specs.take(0) =~= Seq::<(Seq<u8>, bool)>::empty());
    }
    let mut items: Vec<Vec<u8>> = Vec::new();
    let n = def.fields.len();
    let mut i: usize = 0;
    while i < n
        invariant
            i <= n,
            n == def.fields@.len(),
            specs == def_field_specs(cfg.storage_type@),
            specs.len() == n,
            forall|g: int|
                0 <= g < specs.len() ==> ((#[trigger] specs[g]).0 == def.fields@[g].key@
                    && specs[g].1 == def.fields@[g].secret),
            items@.map_values(|v: Vec<u8>| v@) == shown_fields(specs.take(i as int), *cfg),
        decreases n - i,
    {
        let ghost items0 = items@.map_values(|v: Vec<u8>| v@);
        match lookup_field(cfg, def.fields[i].key.as_slice()) {
            Some(v) => {
                let mut item = clone_bytes(&def.fields[i].key);
                item.push(0x3a);
                item.push(0x20);
                if def.fields[i].secret {
                    let mask: [u8; 8] = [42u8, 42u8, 42u8, 42u8, 42u8, 42u8, 42u8, 42u8];
                    item.extend_from_slice(mask.as_slice());
                    proof {
                        assert(item@ =~= specs[i as int].0 + seq![0x3au8, 0x20u8] + mask_bytes());
                    }
                } else {
                    item.extend_from_slice(v.as_slice());
                    proof {
                        assert(item@ =~= specs[i as int].0 + seq![0x3au8, 0x20u8] + v@);
                    }
                }
                items.push(item);
            },
            None => {},
        }
        proof {
            assert(specs.take(i + 1) =~= specs.take(i as int).push(specs[i as int]));
            lemma_shown_fields_push(specs.take(i as int), specs[i as int], *cfg);
            assert(items@.map_values(|v: Vec<u8>| v@) =~= shown_fields(specs.take(i + 1), *cfg));
        }
        i = i + 1;
    }
    proof {
        assert(specs.take(n as int) =~= specs);
    }
    if items.len() == 0 {
        let none_text: [u8; 10] = [110u8, 111u8, 32u8, 100u8, 101u8, 116u8, 97u8, 105u8, 108u8,
            115u8];
        return vstd::slice::slice_to_vec(none_text.as_slice());
    }
    let mut out: Vec<u8> = Vec::new();
    let m = items.len();
    let mut k: usize = 0;
    proof {
        assert(items@.map_values(|v: Vec<u8>| v@).take(0) =~= Seq::<Seq<u8>>::empty());
    }
    while k < m
        invariant
            k <= m,
            m == items@.len(),
            m > 0,
            items@.map_values(|v: Vec<u8>| v@) == shown_fields(specs, *cfg),
            specs == def_field_specs(cfg.storage_type@),
            k == 0 ==> out@ == Seq::<u8>::empty(),
            k > 0 ==> out@ == joined(items@.map_values(|v: Vec<u8>| v@).take(k as int)),
        decreases m - k,
    {
        if k > 0 {
            out.push(0x2c);
            out.push(0x20);
        }
        out.extend_from_slice(items[k].as_slice());
        proof {
            let views = items@.map_values(|v: Vec<u8>| v@);
            assert(views.take(k + 1) =~= views.take(k as int).push(views[k as int]));
            lemma_joined_push(views.take(k as int), views[k as int]);
            assert(out@ =~= joined(views.take(k + 1)));
        }
        k = k + 1;
    }
    proof {
        assert(items@.map_values(|v: Vec<u8>| v@).take(m as int) =~= items@.map_values(
            |v: Vec<u8>| v@,
        ));
    }
    out
}

/// Whether every string in a storage record fits the serialized form.
pub open spec fn storage_config_wf(cfg: StorageConfig) -> bool {
    &&& str_fits(cfg.storage_type@)
    &&& cfg.fields@.len() < 0x100000000
    &&& forall|i: int|
        0 <= i < cfg.fields@.len() ==> str_fits((#[trigger] cfg.fields@[i]).0@) && str_fits(
            cfg.fields@[i].1@,
        )
}

/// Whether two storage records hold the same contents, compared by bytes.
pub open spec fn storage_config_eq(a: StorageConfig, b: StorageConfig) -> bool {
    &&& a.storage_type@ == b.storage_type@
    &&& a.fields@.len() == b.fields@.len()
    &&& forall|i: int|
        0 <= i < a.fields@.len() ==> (#[trigger] a.fields@[i]).0@ == b.fields@[i].0@
            && a.fields@[i].1@ == b.fields@[i].1@
}

/// A run of field-pair encodings splits at any pair boundary.
proof fn lemma_field_list_split(fields: Seq<(Vec<u8>, Vec<u8>)>, k: int)
    requires
        0 <= k < fields.len(),
    ensures
        enc_field_list(fields.skip(k)) == mp_str(fields[k].0@) + mp_str(fields[k].1@)
            + enc_field_list(fields.skip(k + 1)),
{
    assert(fields.skip(k)[0] == fields[k]);
    assert(fields.skip(k).skip(1) =~= fields.skip(k + 1));
}

/// A canonical storage record opens with a two-pair header; the type name
/// stands first, the field table follows it.
proof fn lemma_storage_config_open(data: Seq<u8>, cfg: StorageConfig)
    requires
        data == enc_storage_config(cfg),
    ensures
        encoded_at(data, 0, mp_map_header(2)),
        encoded_at(data, mp_map_header(2).len() as int, mp_str(key_storage_type())),
        encoded_at(
            data,
            (mp_map_header(2).len() + mp_str(key_storage_type()).len()) as int,
            mp_str(cfg.storage_type@),
        ),
        encoded_at(
            data,
            (mp_map_header(2).len() + mp_str(key_storage_type()).len() + mp_str(
                cfg.storage_type@,
            ).len()) as int,
            mp_str(key_fields()),
        ),
        encoded_at(
            data,
            (mp_map_header(2).len() + mp_str(key_storage_type()).len() + mp_str(
                cfg.storage_type@,
            ).len() + mp_str(key_fields()).len()) as int,
            mp_map_header(cfg.fields@.len()),
        ),
        encoded_at(
            data,
            (mp_map_header(2).len() + mp_str(key_storage_type()).len() + mp_str(
                cfg.storage_type@,
            ).len() + mp_str(key_fields()).len() + mp_map_header(cfg.fields@.len()).len()) as int,
            enc_field_list(cfg.fields@),
        ),
        data.len() == mp_map_header(2).len() + mp_str(key_storage_type()).len() + mp_str(
            cfg.storage_type@,
        ).len() + mp_str(key_fields()).len() + mp_map_header(cfg.fields@.len()).len()
            + enc_field_list(cfg.fields@).len(),
{
    assert(data.subrange(0, data.len() as int) =~= data);
    let a = mp_map_header(2);
    let b = mp_str(key_storage_type());
    let c = mp_str(cfg.storage_type@);
    let d = mp_str(key_fields());
    let e = mp_map_header(cfg.fields@.len());
    let f = enc_field_list(cfg.fields@);
    assert(enc_storage_config(cfg) == a + b + c + d + e + f);
    lemma_encoded_at_split(data, 0, a + b + c + d + e, f);
    lemma_encoded_at_split(data, 0, a + b + c + d, e);
    lemma_encoded_at_split(data, 0, a + b + c, d);
    lemma_encoded_at_split(data, 0, a + b, c);
    lemma_encoded_at_split(data, 0, a, b);
}

/// Reads a saved storage record: the named form (a map with `storage_type`
/// and `fields`) first, else the older bare-array form, whose numeric tag
/// is translated through the known definitions.  On the canonical named
/// encoding of any well-formed record it returns exactly that record.
pub fn parse_storage_config(bytes: &[u8]) -> (out: Option<StorageConfig>)
    ensures
        out matches Some(cfg) ==> storage_config_wf(cfg),
        forall|cfg: StorageConfig|
            storage_config_wf(cfg) && bytes@ == #[trigger] enc_storage_config(cfg) ==> (out matches
                Some(r) && storage_config_eq(r, cfg)),
{
    match parse_named_storage(bytes) {
        Some(cfg) => Some(cfg),
        None => {
            let out = parse_legacy_storage(bytes);
            proof {
                assert forall|cfg: StorageConfig|
                    !(storage_config_wf(cfg) && bytes@ == #[trigger] enc_storage_config(cfg)) by {}
            }
            out
        },
    }
}

#[verifier::rlimit(100)]
fn parse_named_storage(bytes: &[u8]) -> (out: Option<StorageConfig>)
    ensures
        out matches Some(cfg) ==> storage_config_wf(cfg),
        forall|cfg: StorageConfig|
            storage_config_wf(cfg) && bytes@ == #[trigger] enc_storage_config(cfg) ==> (out matches
                Some(r) && storage_config_eq(r, cfg)),
{
    let (n, start) = match read_map_header(bytes, 0) {
        Some(r) => r,
        None => {
            proof {
                assert forall|cfg: StorageConfig|
                    !(storage_config_wf(cfg) && bytes@ == #[trigger] enc_storage_config(cfg)) by {
                    if bytes@ == enc_storage_config(cfg) {
                        lemma_storage_config_open(bytes@, cfg);
                    }
                }
            }
            return None;
        },
    };
    let mut p = start;
    let mut storage_type: Option<Vec<u8>> = None;
    let mut fields: Option<Vec<(Vec<u8>, Vec<u8>)>> = None;
    let k_storage_type = key_storage_type_bytes();
    let k_fields = key_fields_bytes();
    let mut i: u64 = 0;
    proof {
        assert forall|cfg: StorageConfig|
            storage_config_wf(cfg) && bytes@ == #[trigger] enc_storage_config(cfg) implies (n == 2
            && start == mp_map_header(2).len()) by {
            lemma_storage_config_open(bytes@, cfg);
        }
    }
    while i < n
        invariant
            i <= n,
            p <= bytes@.len(),
            storage_type matches Some(v) ==> str_fits(v@),
            fields matches Some(fs) ==> fs@.len() < 0x100000000 && (forall|j: int|
                0 <= j < fs@.len() ==> str_fits((#[trigger] fs@[j]).0@) && str_fits(fs@[j].1@)),
            k_storage_type@ == key_storage_type(),
            k_fields@ == key_fields(),
            forall|cfg: StorageConfig|
                storage_config_wf(cfg) && bytes@ == #[trigger] enc_storage_config(cfg) ==> (n == 2
                    && (i == 0 ==> (p == mp_map_header(2).len() && storage_type is None && fields
                    is None)) && (i == 1 ==> (p == mp_map_header(2).len() + mp_str(
                    key_storage_type(),
                ).len() + mp_str(cfg.storage_type@).len() && (storage_type matches Some(v) && v@
                    == cfg.storage_type@) && fields is None)) && (i == 2 ==> (p == bytes@.len() && (
                storage_type matches Some(v) && v@ == cfg.storage_type@) && (fields matches Some(fs)
                    && fs@.len() == cfg.fields@.len() && (forall|j: int|
                    0 <= j < fs@.len() ==> (#[trigger] fs@[j]).0@ == cfg.fields@[j].0@ && fs@[j].1@
                        == cfg.fields@[j].1@))))),
        decreases n - i,
    {
        let ghost i0 = i as int;
        let ghost p0 = p as int;
        let (key, p2) = match read_str(bytes, p) {
            Some(r) => r,
            None => {
                proof {
                    assert forall|cfg: StorageConfig|
                        !(storage_config_wf(cfg) && bytes@ == #[trigger] enc_storage_config(cfg)) by {
                        if storage_config_wf(cfg) && bytes@ == enc_storage_config(cfg) {
                            lemma_storage_config_open(bytes@, cfg);
                        }
                    }
                }
                return None;
            },
        };
        if bytes_eq(key.as_slice(), k_storage_type.as_slice()) {
            let (v, p3) = match read_str(bytes, p2) {
                Some(r) => r,
                None => {
                    proof {
                        assert forall|cfg: StorageConfig|
                            !(storage_config_wf(cfg) && bytes@ == #[trigger] enc_storage_config(
                                cfg,
                            )) by {
                            if storage_config_wf(cfg) && bytes@ == enc_storage_config(cfg) {
                                lemma_storage_config_open(bytes@, cfg);
                                crate::records::lemma_keys_distinct();
                            }
                        }
                    }
                    return None;
                },
            };
            if (v.len() as u64) >= 0x100000000u64 {
                proof {
                    assert forall|cfg: StorageConfig|
                        !(storage_config_wf(cfg) && bytes@ == #[trigger] enc_storage_config(cfg)) by {
                        if storage_config_wf(cfg) && bytes@ == enc_storage_config(cfg) {
                            lemma_storage_config_open(bytes@, cfg);
                            crate::records::lemma_keys_distinct();
                        }
                    }
                }
                return None;
            }
            storage_type = Some(v);
            p = p3;
        } else if bytes_eq(key.as_slice(), k_fields.as_slice()) {
            let (m, fstart) = match read_map_header(bytes, p2) {
                Some(r) => r,
                None => {
                    proof {
                        assert forall|cfg: StorageConfig|
                            !(storage_config_wf(cfg) && bytes@ == #[trigger] enc_storage_config(
                                cfg,
                            )) by {
                            if storage_config_wf(cfg) && bytes@ == enc_storage_config(cfg) {
                                lemma_storage_config_open(bytes@, cfg);
                                crate::records::lemma_keys_distinct();
                            }
                        }
                    }
                    return None;
                },
            };
            let mut fp = fstart;
            let mut table: Vec<(Vec<u8>, Vec<u8>)> = Vec::new();
            let mut j: u64 = 0;
            proof {
                assert forall|cfg: StorageConfig|
                    storage_config_wf(cfg) && bytes@ == #[trigger] enc_storage_config(
                        cfg,
                    ) implies (m == cfg.fields@.len() && encoded_at(
                    bytes@,
                    fstart as int,
                    enc_field_list(cfg.fields@.skip(0)),
                ) && fstart == bytes@.len() - enc_field_list(cfg.fields@.skip(0)).len()) by {
                    lemma_storage_config_open(bytes@, cfg);
                    crate::records::lemma_keys_distinct();
                    assert(cfg.fields@.skip(0) =~= cfg.fields@);
                }
            }
            while j < m
                invariant
                    j <= m,
                    m < 0x100000000,
                    fp <= bytes@.len(),
                    table@.len() == j,
                    forall|a: int|
                        0 <= a < table@.len() ==> str_fits((#[trigger] table@[a]).0@) && str_fits(
                            table@[a].1@,
                        ),
                    forall|cfg: StorageConfig|
                        storage_config_wf(cfg) && bytes@ == #[trigger] enc_storage_config(cfg)
                            ==> (m == cfg.fields@.len() && encoded_at(
                            bytes@,
                            fp as int,
                            enc_field_list(cfg.fields@.skip(j as int)),
                        ) && fp == bytes@.len() - enc_field_list(cfg.fields@.skip(j as int)).len()
                            && (forall|a: int|
                            0 <= a < j ==> (#[trigger] table@[a]).0@ == cfg.fields@[a].0@
                                && table@[a].1@ == cfg.fields@[a].1@)),
                decreases m - j,
            {
                let ghost j0 = j as int;
                let ghost fp0 = fp as int;
                let (fk, fp2) = match read_str(bytes, fp) {
                    Some(r) => r,
                    None => {
                        proof {
                            assert forall|cfg: StorageConfig|
                                !(storage_config_wf(cfg) && bytes@ == #[trigger] enc_storage_config(
                                    cfg,
                                )) by {
                                if storage_config_wf(cfg) && bytes@ == enc_storage_config(cfg) {
                                    lemma_field_list_split(cfg.fields@, j0);
                                    lemma_encoded_at_split(
                                        bytes@,
                                        fp0,
                                        mp_str(cfg.fields@[j0].0@) + mp_str(cfg.fields@[j0].1@),
                                        enc_field_list(cfg.fields@.skip(j0 + 1)),
                                    );
                                    lemma_encoded_at_split(
                                        bytes@,
                                        fp0,
                                        mp_str(cfg.fields@[j0].0@),
                                        mp_str(cfg.fields@[j0].1@),
                                    );
                                }
                            }
                        }
                        return None;
                    },
                };
                let (fv, fp3) = match read_str(bytes, fp2) {
                    Some(r) => r,
                    None => {
                        proof {
                            assert forall|cfg: StorageConfig|
                                !(storage_config_wf(cfg) && bytes@ == #[trigger] enc_storage_config(
                                    cfg,
                                )) by {
                                if storage_config_wf(cfg) && bytes@ == enc_storage_config(cfg) {
                                    lemma_field_list_split(cfg.fields@, j0);
                                    lemma_encoded_at_split(
                                        bytes@,
                                        fp0,
                                        mp_str(cfg.fields@[j0].0@) + mp_str(cfg.fields@[j0].1@),
                                        enc_field_list(cfg.fields@.skip(j0 + 1)),
                                    );
                                    lemma_encoded_at_split(
                                        bytes@,
                                        fp0,
                                        mp_str(cfg.fields@[j0].0@),
                                        mp_str(cfg.fields@[j0].1@),
                                    );
                                }
                            }
                        }
                        return None;
                    },
                };
                if (fk.len() as u64) >= 0x100000000u64 || (fv.len() as u64) >= 0x100000000u64 {
                    proof {
                        assert forall|cfg: StorageConfig|
                            !(storage_config_wf(cfg) && bytes@ == #[trigger] enc_storage_config(
                                cfg,
                            )) by {
                            if storage_config_wf(cfg) && bytes@ == enc_storage_config(cfg) {
                                lemma_field_list_split(cfg.fields@, j0);
                                lemma_encoded_at_split(
                                    bytes@,
                                    fp0,
                                    mp_str(cfg.fields@[j0].0@) + mp_str(cfg.fields@[j0].1@),
                                    enc_field_list(cfg.fields@.skip(j0 + 1)),
                                );
                                lemma_encoded_at_split(
                                    bytes@,
                                    fp0,
                                    mp_str(cfg.fields@[j0].0@),
                                    mp_str(cfg.fields@[j0].1@),
                                );
                            }
                        }
                    }
                    return None;
                }
                table.push((fk, fv));
                fp = fp3;
                proof {
                    assert forall|cfg: StorageConfig|
                        storage_config_wf(cfg) && bytes@ == #[trigger] enc_storage_config(
                            cfg,
                        ) implies (encoded_at(
                        bytes@,
                        fp as int,
                        enc_field_list(cfg.fields@.skip(j0 + 1)),
                    ) && fp == bytes@.len() - enc_field_list(cfg.fields@.skip(j0 + 1)).len() && (
                    forall|a: int|
                        0 <= a < j0 + 1 ==> (#[trigger] table@[a]).0@ == cfg.fields@[a].0@
                            && table@[a].1@ == cfg.fields@[a].1@)) by {
                        lemma_field_list_split(cfg.fields@, j0);
                        lemma_encoded_at_split(
                            bytes@,
                            fp0,
                            mp_str(cfg.fields@[j0].0@) + mp_str(cfg.fields@[j0].1@),
                            enc_field_list(cfg.fields@.skip(j0 + 1)),
                        );
                        lemma_encoded_at_split(
                            bytes@,
                            fp0,
                            mp_str(cfg.fields@[j0].0@),
                            mp_str(cfg.fields@[j0].1@),
                        );
                    }
                }
                j = j + 1;
            }
            fields = Some(table);
            p = fp;
            proof {
                assert forall|cfg: StorageConfig|
                    storage_config_wf(cfg) && bytes@ == #[trigger] enc_storage_config(
                        cfg,
                    ) implies (p == bytes@.len()) by {
                    assert(cfg.fields@.skip(m as int) =~= Seq::<(Vec<u8>, Vec<u8>)>::empty());
                    assert(enc_field_list(cfg.fields@.skip(m as int)) =~= Seq::<u8>::empty());
                }
            }
        } else {
            p = match skip_value(bytes, p2) {
                Some(r) => r,
                None => {
                    proof {
                        assert forall|cfg: StorageConfig|
                            !(storage_config_wf(cfg) && bytes@ == #[trigger] enc_storage_config(
                                cfg,
                            )) by {
                            if storage_config_wf(cfg) && bytes@ == enc_storage_config(cfg) {
                                lemma_storage_config_open(bytes@, cfg);
                                crate::records::lemma_keys_distinct();
                            }
                        }
                    }
                    return None;
                },
            };
            proof {
                assert forall|cfg: StorageConfig|
                    !(storage_config_wf(cfg) && bytes@ == #[trigger] enc_storage_config(cfg)) by {
                    if storage_config_wf(cfg) && bytes@ == enc_storage_config(cfg) {
                        lemma_storage_config_open(bytes@, cfg);
                        crate::records::lemma_keys_distinct();
                    }
                }
            }
        }
        proof {
            assert forall|cfg: StorageConfig|
                storage_config_wf(cfg) && bytes@ == #[trigger] enc_storage_config(cfg) implies ((i0
                + 1 == 1 ==> (p == mp_map_header(2).len() + mp_str(key_storage_type()).len()
                + mp_str(cfg.storage_type@).len() && (storage_type matches Some(v) && v@
                == cfg.storage_type@) && fields is None)) && (i0 + 1 == 2 ==> (p == bytes@.len() && (
            storage_type matches Some(v) && v@ == cfg.storage_type@) && (fields matches Some(fs)
                && fs@.len() == cfg.fields@.len() && (forall|a: int|
                0 <= a < fs@.len() ==> (#[trigger] fs@[a]).0@ == cfg.fields@[a].0@ && fs@[a].1@
                    == cfg.fields@[a].1@))))) by {
                lemma_storage_config_open(bytes@, cfg);
                crate::records::lemma_keys_distinct();
            }
        }
        i = i + 1;
    }
    match (storage_type, fields) {
        (Some(storage_type), Some(fields)) => Some(StorageConfig { storage_type, fields }),
        _ => None,
    }
}

fn read_optional_str(bytes: &[u8], pos: usize) -> (out: Option<(Option<Vec<u8>>, usize)>)
    ensures
        out matches Some(r) ==> pos < r.1 <= bytes@.len(),
        out matches Some(r) ==> (r.0 matches Some(v) ==> str_fits(v@)),
{
    if pos >= bytes.len() {
        return None;
    }
    if bytes[pos] == 0xc0 {
        return Some((None, pos + 1));
    }
    match read_str(bytes, pos) {
        Some((v, p2)) => {
            if (v.len() as u64) >= 0x100000000u64 {
                None
            } else {
                Some((Some(v), p2))
            }
        },
        None => None,
    }
}

fn parse_legacy_storage(bytes: &[u8]) -> (out: Option<StorageConfig>)
    ensures
        out matches Some(cfg) ==> storage_config_wf(cfg),
{
    let (n, start) = match read_array_header(bytes, 0) {
        Some(r) => r,
        None => {
            return None;
        },
    };
    if n != 7 {
        return None;
    }
    let (tag, p1) = match read_uint(bytes, start) {
        Some(r) => r,
        None => {
            return None;
        },
    };
    if tag > 1 {
        return None;
    }
    let (path, p2) = match read_optional_str(bytes, p1) {
        Some(r) => r,
        None => {
            return None;
        },
    };
    let (region, p3) = match read_optional_str(bytes, p2) {
        Some(r) => r,
        None => {
            return None;
        },
    };
    let (bucket, p4) = match read_optional_str(bytes, p3) {
        Some(r) => r,
        None => {
            return None;
        },
    };
    let (access_key, p5) = match read_optional_str(bytes, p4) {
        Some(r) => r,
        None => {
            return None;
        },
    };
    let (secret_key, p6) = match read_optional_str(bytes, p5) {
        Some(r) => r,
        None => {
            return None;
        },
    };
    let (endpoint, _p7) = match read_optional_str(bytes, p6) {
        Some(r) => r,
        None => {
            return None;
        },
    };
    let def = match storage_definition_by_legacy_type(tag as u8) {
        Some(d) => d,
        None => {
            return None;
        },
    };
    let mut fields: Vec<(Vec<u8>, Vec<u8>)> = Vec::new();
    push_legacy_field(&mut fields, 0, path);
    push_legacy_field(&mut fields, 1, region);
    push_legacy_field(&mut fields, 2, bucket);
    push_legacy_field(&mut fields, 3, access_key);
    push_legacy_field(&mut fields, 4, secret_key);
    push_legacy_field(&mut fields, 5, endpoint);
    Some(StorageConfig { storage_type: def.id, fields })
}

/// Appends one legacy slot's value under its modern key, when present.
fn push_legacy_field(fields: &mut Vec<(Vec<u8>, Vec<u8>)>, slot: u8, value: Option<Vec<u8>>)
    requires
        slot < 6,
        forall|i: int|
            0 <= i < old(fields)@.len() ==> str_fits((#[trigger] old(fields)@[i]).0@) && str_fits(
                old(fields)@[i].1@,
            ),
        old(fields)@.len() < 0xffffffff,
        value matches Some(v) ==> str_fits(v@),
    ensures
        final(fields)@.len() <= old(fields)@.len() + 1,
        forall|i: int|
            0 <= i < final(fields)@.len() ==> str_fits((#[trigger] final(fields)@[i]).0@)
                && str_fits(final(fields)@[i].1@),
{
    let v = match value {
        Some(v) => v,
        None => {
            return ;
        },
    };
    let key: Vec<u8> = if slot == 0 {
        let k: [u8; 4] = [112u8, 97u8, 116u8, 104u8];
        vstd::slice::slice_to_vec(k.as_slice())
    } else if slot == 1 {
        let k: [u8; 6] = [114u8, 101u8, 103u8, 105u8, 111u8, 110u8];
        vstd::slice::slice_to_vec(k.as_slice())
    } else if slot == 2 {
        let k: [u8; 6] = [98u8, 117u8, 99u8, 107u8, 101u8, 116u8];
        vstd::slice::slice_to_vec(k.as_slice())
    } else if slot == 3 {
        let k: [u8; 10] = [97u8, 99u8, 99u8, 101u8, 115u8, 115u8, 95u8, 107u8, 101u8, 121u8];
        vstd::slice::slice_to_vec(k.as_slice())
    } else if slot == 4 {
        let k: [u8; 10] = [115u8, 101u8, 99u8, 114u8, 101u8, 116u8, 95u8, 107u8, 101u8, 121u8];
        vstd::slice::slice_to_vec(k.as_slice())
    } else {
        let k: [u8; 8] = [101u8, 110u8, 100u8, 112u8, 111u8, 105u8, 110u8, 116u8];
        vstd::slice::slice_to_vec(k.as_slice())
    };
    fields.push((key, v));
}

/// The serialized form of a storage record: a map with `storage_type` and
/// `fields`.
pub open spec fn enc_storage_config(cfg: StorageConfig) -> Seq<u8> {
    mp_map_header(2) + mp_str(key_storage_type()) + mp_str(cfg.storage_type@) + mp_str(key_fields())
        + mp_map_header(cfg.fields@.len()) + enc_field_list(cfg.fields@)
}

/// The encoding of a field table, in order.
pub open spec fn enc_field_list(fields: Seq<(Vec<u8>, Vec<u8>)>) -> Seq<u8>
    decreases fields.len(),
{
    if fields.len() == 0 {
        Seq::empty()
    } else {
        mp_str(fields[0].0@) + mp_str(fields[0].1@) + enc_field_list(fields.skip(1))
    }
}

proof fn lemma_enc_field_list_push(fields: Seq<(Vec<u8>, Vec<u8>)>, x: (Vec<u8>, Vec<u8>))
    ensures
        enc_field_list(fields.push(x)) == enc_field_list(fields) + mp_str(x.0@) + mp_str(x.1@),
    decreases fields.len(),
{
    if fields.len() == 0 {
        assert(fields.push(x).skip(1) =~= Seq::<(Vec<u8>, Vec<u8>)>::empty());
        assert(fields.push(x)[0] == x);
        assert(enc_field_list(fields.push(x).skip(1)) =~= Seq::<u8>::empty());
        assert(enc_field_list(fields) =~= Seq::<u8>::empty());
        assert(enc_field_list(fields.push(x)) =~= enc_field_list(fields) + mp_str(x.0@) + mp_str(
            x.1@,
        ));
    } else {
        assert(fields.push(x).skip(1) =~= fields.skip(1).push(x));
        assert(fields.push(x)[0] == fields[0]);
        lemma_enc_field_list_push(fields.skip(1), x);
        assert(enc_field_list(fields.push(x)) =~= enc_field_list(fields) + mp_str(x.0@) + mp_str(
            x.1@,
        ));
    }
}

/// Serializes a storage record in the named form.
pub fn encode_storage_config(cfg: &StorageConfig) -> (out: Vec<u8>)
    requires
        storage_config_wf(*cfg),
    ensures
        out@ == enc_storage_config(*cfg),
{
    let mut out: Vec<u8> = Vec::new();
    write_map_header(&mut out, 2);
    write_key_storage_type(&mut out);
    write_str(&mut out, cfg.storage_type.as_slice());
    write_key_fields(&mut out);
    write_map_header(&mut out, cfg.fields.len() as u64);
    let ghost prefix = out@;
    let n = cfg.fields.len();
    let mut i: usize = 0;
    while i < n
        invariant
            i <= n,
            n == cfg.fields@.len(),
            storage_config_wf(*cfg),
            out@ == prefix + enc_field_list(cfg.fields@.take(i as int)),
        decreases n - i,
    {
        write_str(&mut out, cfg.fields[i].0.as_slice());
        write_str(&mut out, cfg.fields[i].1.as_slice());
        proof {
            assert(cfg.fields@.take(i + 1) =~= cfg.fields@.take(i as int).push(
                cfg.fields@[i as int],
            ));
            lemma_enc_field_list_push(cfg.fields@.take(i as int), cfg.fields@[i as int]);
            assert(out@ =~= prefix + enc_field_list(cfg.fields@.take(i + 1)));
        }
        i = i + 1;
    }
    proof {
        assert(cfg.fields@.take(n as int) =~= cfg.fields@);
        assert(out@ =~= enc_storage_config(*cfg));
    }
    out
}

} // verus!
