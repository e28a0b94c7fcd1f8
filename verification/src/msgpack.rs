//! MessagePack primitives for the repository's records.
//!
//! Every persisted record (chunk index, backup manifest, summaries, pending
//! journal, storage definition) is a MessagePack map of field names.  The
//! writers here emit the minimal (canonical) encoding of each value; the
//! readers accept any width of the same value and skip values they do not
//! know, so records written by other versions still load.

use vstd::prelude::*;

verus! {

/// The value of a big-endian byte string.
pub open spec fn be_val(s: Seq<u8>) -> nat
    decreases s.len(),
{
    if s.len() == 0 {
        0
    } else {
        (be_val(s.drop_last()) * 256 + s.last()) as nat
    }
}

/// The `n`-byte big-endian encoding of `v` (low bytes of `v` if it is wider).
pub open spec fn be_bytes(v: nat, n: nat) -> Seq<u8>
    decreases n,
{
    if n == 0 {
        Seq::empty()
    } else {
        be_bytes(v / 256, (n - 1) as nat) + seq![(v % 256) as u8]
    }
}

pub proof fn lemma_be_bytes_len(v: nat, n: nat)
    ensures
        be_bytes(v, n).len() == n,
    decreases n,
{
    if n > 0 {
        lemma_be_bytes_len(v / 256, (n - 1) as nat);
    }
}

/// Big-endian encoding is invertible: reading the bytes back yields the
/// value, as long as the value fits the width.
pub proof fn lemma_be_val_inverse(v: nat, n: nat)
    requires
        v < pow256(n),
    ensures
        be_val(be_bytes(v, n)) == v,
    decreases n,
{
    if n == 0 {
    } else {
        assert(v / 256 < pow256((n - 1) as nat)) by (nonlinear_arith)
            requires
                v < pow256(n),
                pow256(n) == 256 * pow256((n - 1) as nat),
        ;
        lemma_be_val_inverse(v / 256, (n - 1) as nat);
        let enc = be_bytes(v, n);
        lemma_be_bytes_len(v / 256, (n - 1) as nat);
        assert(enc.drop_last() =~= be_bytes(v / 256, (n - 1) as nat));
        assert(enc.last() == (v % 256) as u8);
    }
}

/// The canonical MessagePack encoding of an unsigned integer: the smallest
/// of positive fixint, uint 8, uint 16, uint 32 and uint 64 that holds it.
pub open spec fn mp_uint(v: nat) -> Seq<u8> {
    if v < 0x80 {
        seq![v as u8]
    } else if v < 0x100 {
        seq![0xccu8, v as u8]
    } else if v < 0x10000 {
        seq![0xcdu8] + be_bytes(v, 2)
    } else if v < 0x100000000 {
        seq![0xceu8] + be_bytes(v, 4)
    } else {
        seq![0xcfu8] + be_bytes(v, 8)
    }
}

/// The canonical MessagePack encoding of a signed integer: an unsigned form
/// when the value is not negative, else the smallest signed form.
pub open spec fn mp_int(v: int) -> Seq<u8> {
    if v >= 0 {
        mp_uint(v as nat)
    } else if v >= -32 {
        seq![(256 + v) as u8]
    } else if v >= -0x80 {
        seq![0xd0u8, (256 + v) as u8]
    } else if v >= -0x8000 {
        seq![0xd1u8] + be_bytes((0x10000 + v) as nat, 2)
    } else if v >= -0x80000000 {
        seq![0xd2u8] + be_bytes((0x100000000 + v) as nat, 4)
    } else {
        seq![0xd3u8] + be_bytes((0x10000000000000000 + v) as nat, 8)
    }
}

/// The canonical MessagePack encoding of a string given as its UTF-8 bytes.
pub open spec fn mp_str(s: Seq<u8>) -> Seq<u8> {
    if s.len() < 32 {
        seq![(0xa0 + s.len()) as u8] + s
    } else if s.len() < 0x100 {
        seq![0xd9u8, s.len() as u8] + s
    } else if s.len() < 0x10000 {
        seq![0xdau8] + be_bytes(s.len(), 2) + s
    } else {
        seq![0xdbu8] + be_bytes(s.len(), 4) + s
    }
}

/// The canonical MessagePack header of a map with `n` key-value pairs.
pub open spec fn mp_map_header(n: nat) -> Seq<u8> {
    if n < 16 {
        seq![(0x80 + n) as u8]
    } else if n < 0x10000 {
        seq![0xdeu8] + be_bytes(n, 2)
    } else {
        seq![0xdfu8] + be_bytes(n, 4)
    }
}

/// The canonical MessagePack header of an array with `n` elements.
pub open spec fn mp_array_header(n: nat) -> Seq<u8> {
    if n < 16 {
        seq![(0x90 + n) as u8]
    } else if n < 0x10000 {
        seq![0xdcu8] + be_bytes(n, 2)
    } else {
        seq![0xddu8] + be_bytes(n, 4)
    }
}

/// The MessagePack nil value.
pub open spec fn mp_nil() -> Seq<u8> {
    seq![0xc0u8]
}

/// Appends the `n`-byte big-endian form of `v`.
pub fn push_be(out: &mut Vec<u8>, v: u64, n: usize)
    requires
        n <= 8,
    ensures
        final(out)@ == old(out)@ + be_bytes(v as nat, n as nat),
    decreases n,
{
    if n == 0 {
        proof {
            assert(old(out)@ + be_bytes(v as nat, 0) =~= old(out)@);
        }
        return ;
    }
    push_be(out, v / 256, n - 1);
    out.push((v % 256) as u8);
    proof {
        assert(final(out)@ =~= old(out)@ + be_bytes(v as nat, n as nat));
    }
}

/// Appends the canonical encoding of an unsigned integer.
pub fn write_uint(out: &mut Vec<u8>, v: u64)
    ensures
        final(out)@ == old(out)@ + mp_uint(v as nat),
{
    if v < 0x80 {
        out.push(v as u8);
        proof {
            assert(final(out)@ =~= old(out)@ + mp_uint(v as nat));
        }
    } else if v < 0x100 {
        out.push(0xcc);
        out.push(v as u8);
        proof {
            assert(final(out)@ =~= old(out)@ + mp_uint(v as nat));
        }
    } else if v < 0x10000 {
        out.push(0xcd);
        push_be(out, v, 2);
        proof {
            assert(final(out)@ =~= old(out)@ + mp_uint(v as nat));
        }
    } else if v < 0x100000000 {
        out.push(0xce);
        push_be(out, v, 4);
        proof {
            assert(final(out)@ =~= old(out)@ + mp_uint(v as nat));
        }
    } else {
        out.push(0xcf);
        push_be(out, v, 8);
        proof {
            assert(final(out)@ =~= old(out)@ + mp_uint(v as nat));
        }
    }
}

/// Appends the canonical encoding of a signed integer.
pub fn write_int(out: &mut Vec<u8>, v: i64)
    ensures
        final(out)@ == old(out)@ + mp_int(v as int),
{
    if v >= 0 {
        write_uint(out, v as u64);
    } else if v >= -32 {
        out.push((v + 256) as u8);
        proof {
            assert(final(out)@ =~= old(out)@ + mp_int(v as int));
        }
    } else if v >= -0x80 {
        out.push(0xd0);
        out.push((v + 256) as u8);
        proof {
            assert(final(out)@ =~= old(out)@ + mp_int(v as int));
        }
    } else if v >= -0x8000 {
        out.push(0xd1);
        push_be(out, (v + 0x10000) as u64, 2);
        proof {
            assert(final(out)@ =~= old(out)@ + mp_int(v as int));
        }
    } else if v >= -0x80000000 {
        out.push(0xd2);
        push_be(out, (v + 0x100000000) as u64, 4);
        proof {
            assert(final(out)@ =~= old(out)@ + mp_int(v as int));
        }
    } else {
        out.push(0xd3);
        let w: u64 = ((v as i128) + 0x10000000000000000i128) as u64;
        push_be(out, w, 8);
        proof {
            assert(final(out)@ =~= old(out)@ + mp_int(v as int));
        }
    }
}

/// Appends the canonical encoding of a string given as UTF-8 bytes.
pub fn write_str(out: &mut Vec<u8>, s: &[u8])
    requires
        s@.len() < 0x100000000,
    ensures
        final(out)@ == old(out)@ + mp_str(s@),
{
    let n = s.len();
    if n < 32 {
        out.push(0xa0 + n as u8);
    } else if n < 0x100 {
        out.push(0xd9);
        out.push(n as u8);
    } else if n < 0x10000 {
        out.push(0xda);
        push_be(out, n as u64, 2);
    } else {
        out.push(0xdb);
        push_be(out, n as u64, 4);
    }
    out.extend_from_slice(s);
    proof {
        assert(final(out)@ =~= old(out)@ + mp_str(s@));
    }
}

/// Appends the canonical header of a map of `n` pairs.
pub fn write_map_header(out: &mut Vec<u8>, n: u64)
    requires
        n < 0x100000000,
    ensures
        final(out)@ == old(out)@ + mp_map_header(n as nat),
{
    if n < 16 {
        out.push(0x80 + n as u8);
        proof {
            assert(final(out)@ =~= old(out)@ + mp_map_header(n as nat));
        }
    } else if n < 0x10000 {
        out.push(0xde);
        push_be(out, n, 2);
        proof {
            assert(final(out)@ =~= old(out)@ + mp_map_header(n as nat));
        }
    } else {
        out.push(0xdf);
        push_be(out, n, 4);
        proof {
            assert(final(out)@ =~= old(out)@ + mp_map_header(n as nat));
        }
    }
}

/// Appends the canonical header of an array of `n` elements.
pub fn write_array_header(out: &mut Vec<u8>, n: u64)
    requires
        n < 0x100000000,
    ensures
        final(out)@ == old(out)@ + mp_array_header(n as nat),
{
    if n < 16 {
        out.push(0x90 + n as u8);
        proof {
            assert(final(out)@ =~= old(out)@ + mp_array_header(n as nat));
        }
    } else if n < 0x10000 {
        out.push(0xdc);
        push_be(out, n, 2);
        proof {
            assert(final(out)@ =~= old(out)@ + mp_array_header(n as nat));
        }
    } else {
        out.push(0xdd);
        push_be(out, n, 4);
        proof {
            assert(final(out)@ =~= old(out)@ + mp_array_header(n as nat));
        }
    }
}

/// Appends the nil value.
pub fn write_nil(out: &mut Vec<u8>)
    ensures
        final(out)@ == old(out)@ + mp_nil(),
{
    out.push(0xc0);
    proof {
        assert(final(out)@ =~= old(out)@ + mp_nil());
    }
}

/// Whether two byte strings hold the same bytes.
pub fn bytes_eq(a: &[u8], b: &[u8]) -> (out: bool)
    ensures
        out == (a@ == b@),
{
    if a.len() != b.len() {
        return false;
    }
    let mut i: usize = 0;
    while i < a.len()
        invariant
            i <= a@.len(),
            a@.len() == b@.len(),
            forall|j: int| 0 <= j < i ==> a@[j] == b@[j],
        decreases a@.len() - i,
    {
        if a[i] != b[i] {
            return false;
        }
        i = i + 1;
    }
    proof {
        assert(a@ =~= b@);
    }
    true
}

/// A copy of a byte string with the same bytes.
pub fn clone_bytes(v: &Vec<u8>) -> (out: Vec<u8>)
    ensures
        out@ == v@,
{
    vstd::slice::slice_to_vec(v.as_slice())
}

/// Reads `n` big-endian bytes at `pos` as an unsigned value.
pub fn read_be(data: &[u8], pos: usize, n: usize) -> (out: Option<(u64, usize)>)
    requires
        n <= 8,
    ensures
        out matches Some(r) ==> r.1 == pos + n && r.1 <= data@.len() && r.0 as nat == be_val(
            data@.subrange(pos as int, pos + n),
        ) && r.0 < pow256(n as nat),
        out is None <==> pos + n > data@.len(),
{
    if n > data.len() || pos > data.len() - n {
        return None;
    }
    let end: usize = pos + n;
    let mut val: u64 = 0;
    let mut i: usize = 0;
    while i < n
        invariant
            i <= n,
            n <= 8,
            end == pos + n,
            end <= data@.len(),
            val as nat == be_val(data@.subrange(pos as int, pos + i)),
            val < pow256(i as nat),
        decreases n - i,
    {
        proof {
            lemma_pow256_monotone(i as nat, 7);
            assert(pow256(0) == 1);
            assert(pow256(1) == 256);
            assert(pow256(2) == 0x10000);
            assert(pow256(3) == 0x1000000);
            assert(pow256(4) == 0x100000000);
            assert(pow256(5) == 0x10000000000);
            assert(pow256(6) == 0x1000000000000);
            assert(pow256(7) == 0x100000000000000);
        }
        val = val * 256 + data[pos + i] as u64;
        proof {
            assert(data@.subrange(pos as int, pos + i + 1).drop_last() =~= data@.subrange(
                pos as int,
                pos + i,
            ));
            assert(data@.subrange(pos as int, pos + i + 1).last() == data@[pos + i]);
        }
        i = i + 1;
    }
    Some((val, pos + n))
}

/// 256 to the power `n`.
pub open spec fn pow256(n: nat) -> nat
    decreases n,
{
    if n == 0 {
        1
    } else {
        256 * pow256((n - 1) as nat)
    }
}

/// The concrete values of the small powers of 256 that the readers need.
pub proof fn lemma_pow256_values()
    ensures
        pow256(0) == 1,
        pow256(1) == 0x100,
        pow256(2) == 0x10000,
        pow256(4) == 0x100000000,
        pow256(8) == 0x10000000000000000,
{
    assert(pow256(0) == 1);
    assert(pow256(1) == 0x100);
    assert(pow256(2) == 0x10000);
    assert(pow256(3) == 0x1000000);
    assert(pow256(4) == 0x100000000);
    assert(pow256(5) == 0x10000000000);
    assert(pow256(6) == 0x1000000000000);
    assert(pow256(7) == 0x100000000000000);
    assert(pow256(8) == 0x10000000000000000);
}

proof fn lemma_pow256_monotone(a: nat, b: nat)
    requires
        a <= b,
    ensures
        pow256(a) <= pow256(b),
    decreases b,
{
    if a < b && b > 0 {
        lemma_pow256_monotone(a, (b - 1) as nat);
    }
}

/// Whether the bytes of `enc` stand in `data` at position `pos`.
pub open spec fn encoded_at(data: Seq<u8>, pos: int, enc: Seq<u8>) -> bool {
    &&& 0 <= pos
    &&& pos + enc.len() <= data.len()
    &&& data.subrange(pos, pos + enc.len() as int) == enc
}

/// A concatenation standing at `pos` splits into its left part at `pos` and
/// its right part just past the left one.
pub proof fn lemma_encoded_at_split(data: Seq<u8>, pos: int, a: Seq<u8>, b: Seq<u8>)
    requires
        encoded_at(data, pos, a + b),
    ensures
        encoded_at(data, pos, a),
        encoded_at(data, pos + a.len(), b),
{
    let ab = a + b;
    assert(forall|i: int| 0 <= i < ab.len() ==> data[pos + i] == #[trigger] ab[i]) by {
        assert(forall|i: int|
            0 <= i < ab.len() ==> #[trigger] ab[i] == data.subrange(
                pos,
                pos + ab.len() as int,
            )[i]);
    }
    assert(data.subrange(pos, pos + a.len() as int) =~= a);
    assert(data.subrange(pos + a.len(), pos + a.len() + b.len()) =~= b) by {
        assert(forall|j: int| 0 <= j < b.len() ==> data[pos + a.len() + j] == #[trigger] b[j]) by {
            assert(forall|j: int| 0 <= j < b.len() ==> #[trigger] b[j] == ab[a.len() + j]);
        }
    }
}

/// How long the canonical encoding of an unsigned integer is.
pub proof fn lemma_mp_uint_len(v: nat)
    ensures
        mp_uint(v).len() == (if v < 0x80 {
            1int
        } else if v < 0x100 {
            2int
        } else if v < 0x10000 {
            3int
        } else if v < 0x100000000 {
            5int
        } else {
            9int
        }),
        mp_uint(v).len() >= 1,
{
    if v >= 0x100 {
        if v < 0x10000 {
            lemma_be_bytes_len(v, 2);
        } else if v < 0x100000000 {
            lemma_be_bytes_len(v, 4);
        } else {
            lemma_be_bytes_len(v, 8);
        }
    }
}

/// Reads an unsigned integer at `pos`, accepting any MessagePack width.
/// On the canonical encoding of any value, it returns exactly that value
/// and stops exactly past it.
pub fn read_uint(data: &[u8], pos: usize) -> (out: Option<(u64, usize)>)
    ensures
        out matches Some(r) ==> pos < r.1 <= data@.len(),
        forall|v: nat|
            encoded_at(data@, pos as int, #[trigger] mp_uint(v)) && v < 0x10000000000000000 ==> (
            out matches Some(r) && r.0 == v as u64 && r.1 == pos + mp_uint(v).len()),
{
    proof {
        lemma_pow256_values();
    }
    if pos >= data.len() {
        proof {
            assert forall|v: nat| !encoded_at(data@, pos as int, #[trigger] mp_uint(v)) by {
                lemma_mp_uint_len(v);
            }
        }
        return None;
    }
    let tag = data[pos];
    let p = pos + 1;
    let out: Option<(u64, usize)> = if tag <= 0x7f {
        Some((tag as u64, p))
    } else if tag == 0xcc {
        read_be(data, p, 1)
    } else if tag == 0xcd {
        read_be(data, p, 2)
    } else if tag == 0xce {
        read_be(data, p, 4)
    } else if tag == 0xcf {
        read_be(data, p, 8)
    } else {
        None
    };
    proof {
        assert forall|v: nat|
            encoded_at(data@, pos as int, #[trigger] mp_uint(v)) && v
                < 0x10000000000000000 implies (out matches Some(r) && r.0 == v as u64 && r.1 == pos
            + mp_uint(v).len()) by {
            lemma_pow256_values();
            lemma_mp_uint_len(v);
            let enc = mp_uint(v);
            assert(forall|i: int|
                0 <= i < enc.len() ==> #[trigger] enc[i] == data@[pos + i]) by {
                assert(forall|i: int|
                    0 <= i < enc.len() ==> #[trigger] enc[i] == data@.subrange(
                        pos as int,
                        pos + enc.len() as int,
                    )[i]);
            }
            if v < 0x80 {
                assert(enc[0] == v as u8);
                assert(tag == v);
            } else {
                let width: nat = if v < 0x100 {
                    1
                } else if v < 0x10000 {
                    2
                } else if v < 0x100000000 {
                    4
                } else {
                    8
                };
                let head: u8 = if v < 0x100 {
                    0xcc
                } else if v < 0x10000 {
                    0xcd
                } else if v < 0x100000000 {
                    0xce
                } else {
                    0xcf
                };
                lemma_be_bytes_len(v, width);
                assert(enc[0] == head);
                assert(tag == head);
                assert(v < pow256(width));
                lemma_be_val_inverse(v, width);
                assert(data@.subrange(pos + 1, pos + 1 + width) =~= be_bytes(v, width)) by {
                    assert(forall|i: int|
                        0 <= i < width ==> #[trigger] be_bytes(v, width)[i] == enc[1 + i]);
                }
            }
        }
    }
    out
}

/// How long the canonical encoding of a signed integer is.
pub proof fn lemma_mp_int_len(v: int)
    ensures
        mp_int(v).len() == (if v >= 0x100000000 {
            9int
        } else if v >= 0x10000 {
            5int
        } else if v >= 0x100 {
            3int
        } else if v >= 0x80 {
            2int
        } else if v >= -32 {
            1int
        } else if v >= -0x80 {
            2int
        } else if v >= -0x8000 {
            3int
        } else if v >= -0x80000000 {
            5int
        } else {
            9int
        }),
        mp_int(v).len() >= 1,
{
    if v >= 0 {
        lemma_mp_uint_len(v as nat);
    } else if v < -32 {
        if v >= -0x80 {
        } else if v >= -0x8000 {
            lemma_be_bytes_len((0x10000 + v) as nat, 2);
        } else if v >= -0x80000000 {
            lemma_be_bytes_len((0x100000000 + v) as nat, 4);
        } else {
            lemma_be_bytes_len((0x10000000000000000 + v) as nat, 8);
        }
    }
}

/// Reads a signed integer at `pos`, accepting unsigned forms, the signed
/// forms, and both fixint ranges.  On the canonical encoding of any value
/// that an i64 holds, it returns exactly that value and stops exactly past
/// it.
pub fn read_int(data: &[u8], pos: usize) -> (out: Option<(i64, usize)>)
    ensures
        out matches Some(r) ==> pos < r.1 <= data@.len(),
        forall|v: int|
            encoded_at(data@, pos as int, #[trigger] mp_int(v)) && -0x8000000000000000 <= v
                < 0x8000000000000000 ==> (out matches Some(r) && r.0 == v as i64 && r.1 == pos
                + mp_int(v).len()),
{
    proof {
        lemma_pow256_values();
    }
    if pos >= data.len() {
        proof {
            assert forall|v: int| !encoded_at(data@, pos as int, #[trigger] mp_int(v)) by {
                lemma_mp_int_len(v);
            }
        }
        return None;
    }
    let tag = data[pos];
    let p = pos + 1;
    let out: Option<(i64, usize)> = if tag <= 0x7f {
        Some((tag as i64, p))
    } else if tag >= 0xe0 {
        Some((tag as i64 - 256, p))
    } else if tag == 0xcc || tag == 0xcd || tag == 0xce || tag == 0xcf {
        match read_uint(data, pos) {
            Some((v, p2)) => {
                if v <= 0x7fffffffffffffff {
                    Some((v as i64, p2))
                } else {
                    None
                }
            },
            None => None,
        }
    } else if tag == 0xd0 {
        match read_be(data, p, 1) {
            Some((v, p2)) => {
                if v >= 0x80 {
                    Some((v as i64 - 0x100, p2))
                } else {
                    Some((v as i64, p2))
                }
            },
            None => None,
        }
    } else if tag == 0xd1 {
        match read_be(data, p, 2) {
            Some((v, p2)) => {
                if v >= 0x8000 {
                    Some((v as i64 - 0x10000, p2))
                } else {
                    Some((v as i64, p2))
                }
            },
            None => None,
        }
    } else if tag == 0xd2 {
        match read_be(data, p, 4) {
            Some((v, p2)) => {
                if v >= 0x80000000 {
                    Some((v as i64 - 0x100000000, p2))
                } else {
                    Some((v as i64, p2))
                }
            },
            None => None,
        }
    } else if tag == 0xd3 {
        match read_be(data, p, 8) {
            Some((v, p2)) => {
                if v >= 0x8000000000000000 {
                    Some((((v as i128) - 0x10000000000000000i128) as i64, p2))
                } else {
                    Some((v as i64, p2))
                }
            },
            None => None,
        }
    } else {
        None
    };
    proof {
        assert forall|v: int|
            encoded_at(data@, pos as int, #[trigger] mp_int(v)) && -0x8000000000000000 <= v
                < 0x8000000000000000 implies (out matches Some(r) && r.0 == v as i64 && r.1 == pos
            + mp_int(v).len()) by {
            lemma_pow256_values();
            lemma_mp_int_len(v);
            let enc = mp_int(v);
            assert(forall|i: int|
                0 <= i < enc.len() ==> #[trigger] enc[i] == data@[pos + i]) by {
                assert(forall|i: int|
                    0 <= i < enc.len() ==> #[trigger] enc[i] == data@.subrange(
                        pos as int,
                        pos + enc.len() as int,
                    )[i]);
            }
            if v >= 0 {
                lemma_mp_uint_len(v as nat);
                if v < 0x80 {
                    assert(enc[0] == v as u8);
                    assert(tag == v);
                } else {
                    let head: u8 = if v < 0x100 {
                        0xcc
                    } else if v < 0x10000 {
                        0xcd
                    } else if v < 0x100000000 {
                        0xce
                    } else {
                        0xcf
                    };
                    assert(enc[0] == head);
                    assert(tag == head);
                }
            } else if v >= -32 {
                assert(enc[0] == (256 + v) as u8);
                assert(tag == (256 + v) as u8);
                assert(tag >= 0xe0);
            } else {
                let base: int = if v >= -0x80 {
                    0x100
                } else if v >= -0x8000 {
                    0x10000
                } else if v >= -0x80000000 {
                    0x100000000
                } else {
                    0x10000000000000000
                };
                let width: nat = if v >= -0x80 {
                    1
                } else if v >= -0x8000 {
                    2
                } else if v >= -0x80000000 {
                    4
                } else {
                    8
                };
                let head: u8 = if v >= -0x80 {
                    0xd0
                } else if v >= -0x8000 {
                    0xd1
                } else if v >= -0x80000000 {
                    0xd2
                } else {
                    0xd3
                };
                lemma_be_bytes_len((base + v) as nat, width);
                assert(enc[0] == head);
                assert(tag == head);
                assert(base + v < pow256(width)) by {
                    lemma_pow256_values();
                }
                lemma_be_val_inverse((base + v) as nat, width);
                if v >= -0x80 {
                    assert(data@.subrange(pos + 1, pos + 1 + 1) =~= be_bytes((base + v) as nat, 1))
                        by {
                        assert(forall|i: int|
                            0 <= i < 1 ==> #[trigger] be_bytes((base + v) as nat, 1)[i] == enc[1
                                + i]);
                    }
                } else if v >= -0x8000 {
                    assert(data@.subrange(pos + 1, pos + 1 + 2) =~= be_bytes((base + v) as nat, 2))
                        by {
                        assert(forall|i: int|
                            0 <= i < 2 ==> #[trigger] be_bytes((base + v) as nat, 2)[i] == enc[1
                                + i]);
                    }
                } else if v >= -0x80000000 {
                    assert(data@.subrange(pos + 1, pos + 1 + 4) =~= be_bytes((base + v) as nat, 4))
                        by {
                        assert(forall|i: int|
                            0 <= i < 4 ==> #[trigger] be_bytes((base + v) as nat, 4)[i] == enc[1
                                + i]);
                    }
                } else {
                    assert(data@.subrange(pos + 1, pos + 1 + 8) =~= be_bytes((base + v) as nat, 8))
                        by {
                        assert(forall|i: int|
                            0 <= i < 8 ==> #[trigger] be_bytes((base + v) as nat, 8)[i] == enc[1
                                + i]);
                    }
                }
            }
        }
    }
    out
}

/// How long the canonical encoding of a string is.
pub proof fn lemma_mp_str_len(sv: Seq<u8>)
    requires
        sv.len() < 0x100000000,
    ensures
        mp_str(sv).len() == sv.len() + (if sv.len() < 32 {
            1int
        } else if sv.len() < 0x100 {
            2int
        } else if sv.len() < 0x10000 {
            3int
        } else {
            5int
        }),
{
    if sv.len() >= 0x100 {
        if sv.len() < 0x10000 {
            lemma_be_bytes_len(sv.len(), 2);
        } else {
            lemma_be_bytes_len(sv.len(), 4);
        }
    }
}

/// Reads a string at `pos` as its UTF-8 bytes, accepting any string width.
/// On the canonical encoding of any string, it returns exactly that string
/// and stops exactly past it.
pub fn read_str(data: &[u8], pos: usize) -> (out: Option<(Vec<u8>, usize)>)
    ensures
        out matches Some(r) ==> pos < r.1 <= data@.len() && r.0@ == data@.subrange(
            r.1 - r.0@.len(),
            r.1 as int,
        ),
        forall|sv: Seq<u8>|
            encoded_at(data@, pos as int, #[trigger] mp_str(sv)) && sv.len() < 0x100000000 ==> (
            out matches Some(r) && r.0@ == sv && r.1 == pos + mp_str(sv).len()),
{
    proof {
        lemma_pow256_values();
    }
    if pos >= data.len() {
        proof {
            assert forall|sv: Seq<u8>|
                !(encoded_at(data@, pos as int, #[trigger] mp_str(sv)) && sv.len()
                    < 0x100000000) by {
                if sv.len() < 0x100000000 {
                    lemma_mp_str_len(sv);
                }
            }
        }
        return None;
    }
    let tag = data[pos];
    let p = pos + 1;
    let header = if tag >= 0xa0 && tag <= 0xbf {
        Some(((tag - 0xa0) as u64, p))
    } else if tag == 0xd9 {
        read_be(data, p, 1)
    } else if tag == 0xda {
        read_be(data, p, 2)
    } else if tag == 0xdb {
        read_be(data, p, 4)
    } else {
        None
    };
    let out: Option<(Vec<u8>, usize)> = match header {
        Some((len, pstart)) => {
            if len > (data.len() - pstart) as u64 {
                None
            } else {
                let l = len as usize;
                let body = vstd::slice::slice_subrange(data, pstart, pstart + l);
                Some((vstd::slice::slice_to_vec(body), pstart + l))
            }
        },
        None => None,
    };
    proof {
        assert forall|sv: Seq<u8>|
            encoded_at(data@, pos as int, #[trigger] mp_str(sv)) && sv.len()
                < 0x100000000 implies (out matches Some(r) && r.0@ == sv && r.1 == pos + mp_str(
            sv,
        ).len()) by {
            lemma_pow256_values();
            lemma_mp_str_len(sv);
            let enc = mp_str(sv);
            assert(forall|i: int|
                0 <= i < enc.len() ==> #[trigger] enc[i] == data@[pos + i]) by {
                assert(forall|i: int|
                    0 <= i < enc.len() ==> #[trigger] enc[i] == data@.subrange(
                        pos as int,
                        pos + enc.len() as int,
                    )[i]);
            }
            let hw: int = if sv.len() < 32 {
                1
            } else if sv.len() < 0x100 {
                2
            } else if sv.len() < 0x10000 {
                3
            } else {
                5
            };
            if sv.len() < 32 {
                assert(enc[0] == (0xa0 + sv.len()) as u8);
                assert(0xa0 <= tag <= 0xbf);
                assert((tag - 0xa0) as u64 == sv.len());
            } else {
                let width: nat = if sv.len() < 0x100 {
                    1
                } else if sv.len() < 0x10000 {
                    2
                } else {
                    4
                };
                let head: u8 = if sv.len() < 0x100 {
                    0xd9
                } else if sv.len() < 0x10000 {
                    0xda
                } else {
                    0xdb
                };
                lemma_be_bytes_len(sv.len(), width);
                assert(enc[0] == head);
                assert(tag == head);
                assert(sv.len() < pow256(width));
                lemma_be_val_inverse(sv.len(), width);
                assert(data@.subrange(pos + 1, pos + 1 + width) =~= be_bytes(sv.len(), width)) by {
                    assert(forall|i: int|
                        0 <= i < width ==> #[trigger] be_bytes(sv.len(), width)[i] == enc[1 + i]);
                }
            }
            assert(data@.subrange(pos + hw, pos + hw + sv.len()) =~= sv) by {
                assert(forall|i: int| 0 <= i < sv.len() ==> #[trigger] sv[i] == enc[hw + i]);
            }
        }
    }
    out
}

/// How long the canonical encoding of a map or array header is.
pub proof fn lemma_header_len(n: nat)
    ensures
        mp_map_header(n).len() == (if n < 16 {
            1int
        } else if n < 0x10000 {
            3int
        } else {
            5int
        }),
        mp_array_header(n).len() == (if n < 16 {
            1int
        } else if n < 0x10000 {
            3int
        } else {
            5int
        }),
        mp_map_header(n).len() >= 1,
        mp_array_header(n).len() >= 1,
{
    if n >= 16 {
        if n < 0x10000 {
            lemma_be_bytes_len(n, 2);
        } else {
            lemma_be_bytes_len(n, 4);
        }
    }
}

/// Reads a map header at `pos`, accepting any map-header width.  On the
/// canonical header of any pair count, it returns exactly that count.
pub fn read_map_header(data: &[u8], pos: usize) -> (out: Option<(u64, usize)>)
    ensures
        out matches Some(r) ==> pos < r.1 <= data@.len() && r.0 < 0x100000000,
        forall|n: nat|
            encoded_at(data@, pos as int, #[trigger] mp_map_header(n)) && n < 0x100000000 ==> (out
                matches Some(r) && r.0 == n as u64 && r.1 == pos + mp_map_header(n).len()),
{
    proof {
        lemma_pow256_values();
    }
    if pos >= data.len() {
        proof {
            assert forall|n: nat|
                !(encoded_at(data@, pos as int, #[trigger] mp_map_header(n)) && n < 0x100000000) by {
                if n < 0x100000000 {
                    lemma_header_len(n);
                }
            }
        }
        return None;
    }
    let tag = data[pos];
    let p = pos + 1;
    let out: Option<(u64, usize)> = if tag >= 0x80 && tag <= 0x80 + 0xf {
        Some(((tag - 0x80) as u64, p))
    } else if tag == 0xde {
        read_be(data, p, 2)
    } else if tag == 0xdf {
        read_be(data, p, 4)
    } else {
        None
    };
    proof {
        assert forall|n: nat|
            encoded_at(data@, pos as int, #[trigger] mp_map_header(n)) && n < 0x100000000 implies (
        out matches Some(r) && r.0 == n as u64 && r.1 == pos + mp_map_header(n).len()) by {
            lemma_pow256_values();
            lemma_header_len(n);
            let enc = mp_map_header(n);
            assert(forall|i: int|
                0 <= i < enc.len() ==> #[trigger] enc[i] == data@[pos + i]) by {
                assert(forall|i: int|
                    0 <= i < enc.len() ==> #[trigger] enc[i] == data@.subrange(
                        pos as int,
                        pos + enc.len() as int,
                    )[i]);
            }
            if n < 16 {
                assert(enc[0] == (0x80 + n) as u8);
                assert((tag - 0x80) as u64 == n);
            } else {
                let width: nat = if n < 0x10000 {
                    2
                } else {
                    4
                };
                lemma_be_bytes_len(n, width);
                assert(enc[0] == (if n < 0x10000 {
                    0xdeu8
                } else {
                    0xdfu8
                }));
                assert(n < pow256(width));
                lemma_be_val_inverse(n, width);
                assert(data@.subrange(pos + 1, pos + 1 + width) =~= be_bytes(n, width)) by {
                    assert(forall|i: int|
                        0 <= i < width ==> #[trigger] be_bytes(n, width)[i] == enc[1 + i]);
                }
            }
        }
    }
    out
}

/// Reads an array header at `pos`, accepting any array-header width.  On
/// the canonical header of any element count, it returns exactly that count.
pub fn read_array_header(data: &[u8], pos: usize) -> (out: Option<(u64, usize)>)
    ensures
        out matches Some(r) ==> pos < r.1 <= data@.len() && r.0 < 0x100000000,
        forall|n: nat|
            encoded_at(data@, pos as int, #[trigger] mp_array_header(n)) && n < 0x100000000 ==> (
            out matches Some(r) && r.0 == n as u64 && r.1 == pos + mp_array_header(n).len()),
{
    proof {
        lemma_pow256_values();
    }
    if pos >= data.len() {
        proof {
            assert forall|n: nat|
                !(encoded_at(data@, pos as int, #[trigger] mp_array_header(n)) && n < 0x100000000) by {
                if n < 0x100000000 {
                    lemma_header_len(n);
                }
            }
        }
        return None;
    }
    let tag = data[pos];
    let p = pos + 1;
    let out: Option<(u64, usize)> = if tag >= 0x90 && tag <= 0x90 + 0xf {
        Some(((tag - 0x90) as u64, p))
    } else if tag == 0xdc {
        read_be(data, p, 2)
    } else if tag == 0xdd {
        read_be(data, p, 4)
    } else {
        None
    };
    proof {
        assert forall|n: nat|
            encoded_at(data@, pos as int, #[trigger] mp_array_header(n)) && n < 0x100000000 implies (
        out matches Some(r) && r.0 == n as u64 && r.1 == pos + mp_array_header(n).len()) by {
            lemma_pow256_values();
            lemma_header_len(n);
            let enc = mp_array_header(n);
            assert(forall|i: int|
                0 <= i < enc.len() ==> #[trigger] enc[i] == data@[pos + i]) by {
                assert(forall|i: int|
                    0 <= i < enc.len() ==> #[trigger] enc[i] == data@.subrange(
                        pos as int,
                        pos + enc.len() as int,
                    )[i]);
            }
            if n < 16 {
                assert(enc[0] == (0x90 + n) as u8);
                assert((tag - 0x90) as u64 == n);
            } else {
                let width: nat = if n < 0x10000 {
                    2
                } else {
                    4
                };
                lemma_be_bytes_len(n, width);
                assert(enc[0] == (if n < 0x10000 {
                    0xdcu8
                } else {
                    0xddu8
                }));
                assert(n < pow256(width));
                lemma_be_val_inverse(n, width);
                assert(data@.subrange(pos + 1, pos + 1 + width) =~= be_bytes(n, width)) by {
                    assert(forall|i: int|
                        0 <= i < width ==> #[trigger] be_bytes(n, width)[i] == enc[1 + i]);
                }
            }
        }
    }
    out
}

/// Advances past `len` raw bytes.
fn skip_len(data: &[u8], pos: usize, len: u64) -> (out: Option<usize>)
    requires
        pos <= data@.len(),
    ensures
        out matches Some(p2) ==> pos <= p2 <= data@.len() && p2 == pos + len,
{
    if len > (data.len() - pos) as u64 {
        None
    } else {
        Some(pos + len as usize)
    }
}

/// Skips one MessagePack value of any kind at `pos`, so that a reader can
/// pass over fields it does not know.
pub fn skip_value(data: &[u8], pos: usize) -> (out: Option<usize>)
    ensures
        out matches Some(p2) ==> pos < p2 <= data@.len(),
    decreases data@.len() - pos, 0int,
{
    if pos >= data.len() {
        return None;
    }
    let tag = data[pos];
    let p = pos + 1;
    if tag <= 0x7f || tag >= 0xe0 || tag == 0xc0 || tag == 0xc2 || tag == 0xc3 {
        Some(p)
    } else if tag >= 0xa0 && tag <= 0xbf {
        skip_len(data, p, (tag - 0xa0) as u64)
    } else if tag >= 0x80 && tag <= 0x8f {
        skip_many(data, p, 2 * ((tag - 0x80) as u64))
    } else if tag >= 0x90 && tag <= 0x9f {
        skip_many(data, p, (tag - 0x90) as u64)
    } else if tag == 0xcc || tag == 0xd0 || tag == 0xd4 {
        skip_len(data, p, 1)
    } else if tag == 0xcd || tag == 0xd1 {
        skip_len(data, p, 2)
    } else if tag == 0xd5 {
        skip_len(data, p, 3)
    } else if tag == 0xce || tag == 0xd2 || tag == 0xca {
        skip_len(data, p, 4)
    } else if tag == 0xd6 {
        skip_len(data, p, 5)
    } else if tag == 0xcf || tag == 0xd3 || tag == 0xcb {
        skip_len(data, p, 8)
    } else if tag == 0xd7 {
        skip_len(data, p, 9)
    } else if tag == 0xd8 {
        skip_len(data, p, 17)
    } else if tag == 0xd9 || tag == 0xc4 {
        match read_be(data, p, 1) {
            Some((len, p2)) => skip_len(data, p2, len),
            None => None,
        }
    } else if tag == 0xda || tag == 0xc5 {
        match read_be(data, p, 2) {
            Some((len, p2)) => skip_len(data, p2, len),
            None => None,
        }
    } else if tag == 0xdb || tag == 0xc6 {
        match read_be(data, p, 4) {
            Some((len, p2)) => skip_len(data, p2, len),
            None => None,
        }
    } else if tag == 0xc7 {
        proof {
            lemma_pow256_values();
        }
        match read_be(data, p, 1) {
            Some((len, p2)) => skip_len(data, p2, len + 1),
            None => None,
        }
    } else if tag == 0xc8 {
        proof {
            lemma_pow256_values();
        }
        match read_be(data, p, 2) {
            Some((len, p2)) => skip_len(data, p2, len + 1),
            None => None,
        }
    } else if tag == 0xc9 {
        proof {
            lemma_pow256_values();
        }
        match read_be(data, p, 4) {
            Some((len, p2)) => skip_len(data, p2, len + 1),
            None => None,
        }
    } else if tag == 0xdc {
        match read_be(data, p, 2) {
            Some((n, p2)) => skip_many(data, p2, n),
            None => None,
        }
    } else if tag == 0xdd {
        match read_be(data, p, 4) {
            Some((n, p2)) => skip_many(data, p2, n),
            None => None,
        }
    } else if tag == 0xde {
        proof {
            lemma_pow256_values();
        }
        match read_be(data, p, 2) {
            Some((n, p2)) => skip_many(data, p2, 2 * n),
            None => None,
        }
    } else if tag == 0xdf {
        proof {
            lemma_pow256_values();
        }
        match read_be(data, p, 4) {
            Some((n, p2)) => skip_many(data, p2, 2 * n),
            None => None,
        }
    } else {
        None
    }
}

/// Skips `count` MessagePack values in a row.
fn skip_many(data: &[u8], pos: usize, count: u64) -> (out: Option<usize>)
    requires
        pos <= data@.len(),
    ensures
        out matches Some(p2) ==> pos <= p2 <= data@.len(),
    decreases data@.len() - pos, count + 1int,
{
    if count == 0 {
        return Some(pos);
    }
    match skip_value(data, pos) {
        Some(p1) => skip_many(data, p1, count - 1),
        None => None,
    }
}

} // verus!
