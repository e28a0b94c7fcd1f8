//! Lowercase hexadecimal rendering of byte strings.
//!
//! Chunk and file identities are the lowercase hex form of a SHA-256 digest,
//! so the repository layout and the manifests all speak hex.

use vstd::prelude::*;

verus! {

/// The lowercase hex digit for a value below 16, as an ASCII byte.
pub open spec fn hex_digit(v: int) -> u8 {
    if v < 10 {
        (0x30 + v) as u8
    } else {
        (0x61 + (v - 10)) as u8
    }
}

/// The lowercase hex rendering of a byte string: two digits per byte,
/// high nibble first.
pub open spec fn hex_of(data: Seq<u8>) -> Seq<u8>
    decreases data.len(),
{
    if data.len() == 0 {
        Seq::empty()
    } else {
        seq![hex_digit(data[0] as int / 16), hex_digit(data[0] as int % 16)] + hex_of(data.skip(1))
    }
}

pub proof fn lemma_hex_of_len(data: Seq<u8>)
    ensures
        hex_of(data).len() == 2 * data.len(),
    decreases data.len(),
{
    if data.len() > 0 {
        lemma_hex_of_len(data.skip(1));
    }
}

proof fn lemma_hex_of_push(data: Seq<u8>, b: u8)
    ensures
        hex_of(data.push(b)) == hex_of(data) + seq![hex_digit(b as int / 16), hex_digit(b as int % 16)],
    decreases data.len(),
{
    if data.len() == 0 {
        assert(data.push(b).skip(1) =~= Seq::<u8>::empty());
        assert(data.push(b)[0] == b);
        assert(hex_of(data.push(b).skip(1)) =~= Seq::<u8>::empty());
        assert(hex_of(data) =~= Seq::<u8>::empty());
        assert(hex_of(data.push(b)) =~= hex_of(data) + seq![
            hex_digit(b as int / 16),
            hex_digit(b as int % 16),
        ]);
    } else {
        assert(data.push(b).skip(1) =~= data.skip(1).push(b));
        lemma_hex_of_push(data.skip(1), b);
        assert(hex_of(data.push(b)) =~= hex_of(data) + seq![
            hex_digit(b as int / 16),
            hex_digit(b as int % 16),
        ]);
    }
}

/// Renders `data` as lowercase hex, two ASCII digits per byte.
pub fn to_hex(data: &[u8]) -> (out: Vec<u8>)
    ensures
        out@ == hex_of(data@),
        out@.len() == 2 * data@.len(),
{
    let mut out: Vec<u8> = Vec::new();
    let mut i: usize = 0;
    while i < data.len()
        invariant
            i <= data@.len(),
            out@ == hex_of(data@.take(i as int)),
        decreases data@.len() - i,
    {
        let b = data[i];
        let hi = b / 16;
        let lo = b % 16;
        let hi_digit: u8 = if hi < 10 {
            0x30 + hi
        } else {
            0x61 + (hi - 10)
        };
        let lo_digit: u8 = if lo < 10 {
            0x30 + lo
        } else {
            0x61 + (lo - 10)
        };
        out.push(hi_digit);
        out.push(lo_digit);
        proof {
            assert(data@.take(i + 1) =~= data@.take(i as int).push(b));
            lemma_hex_of_push(data@.take(i as int), b);
        }
        i = i + 1;
    }
    proof {
        assert(data@.take(data@.len() as int) =~= data@);
        lemma_hex_of_len(data@);
    }
    out
}

} // verus!
