//! Order-preserving key codec: a 32-bit key and its fixed-width,
//! big-endian 4-byte encoding, whose lexicographic order equals the
//! numeric order of the keys.

use vstd::prelude::*;

verus! {

/// The 4-byte big-endian encoding of a key.
pub open spec fn be_key(k: u32) -> Seq<u8> {
    seq![
        (k >> 24) as u8,
        ((k >> 16) & 0xff) as u8,
        ((k >> 8) & 0xff) as u8,
        (k & 0xff) as u8,
    ]
}

/// The key that a 4-byte big-endian sequence stands for.
pub open spec fn key_of(b: Seq<u8>) -> u32
    recommends
        b.len() == 4,
{
    ((b[0] as u32) << 24) | ((b[1] as u32) << 16) | ((b[2] as u32) << 8) | (b[3] as u32)
}

/// Decoding inverts encoding: the codec is lossless over the whole key domain.
pub proof fn lemma_key_roundtrip(k: u32)
    ensures
        key_of(be_key(k)) == k,
{
    let b = be_key(k);
    assert(b[0] == (k >> 24) as u8);
    assert(b[1] == ((k >> 16) & 0xff) as u8);
    assert(b[2] == ((k >> 8) & 0xff) as u8);
    assert(b[3] == (k & 0xff) as u8);
    assert(((((k >> 24) as u8) as u32) << 24) | ((((k >> 16) & 0xff) as u8) as u32) << 16 | ((((k
        >> 8) & 0xff) as u8) as u32) << 8 | (((k & 0xff) as u8) as u32) == k) by (bit_vector);
}

/// Two keys with the same encoding are the same key.
pub proof fn lemma_key_injective(a: u32, b: u32)
    requires
        be_key(a) == be_key(b),
    ensures
        a == b,
{
    lemma_key_roundtrip(a);
    lemma_key_roundtrip(b);
}

/// Byte order decides numeric order: if two encodings agree on a prefix
/// and differ at position `l`, the key with the smaller byte is smaller.
pub proof fn lemma_be_key_order(a: u32, b: u32, l: int)
    requires
        0 <= l < 4,
        forall|i: int| 0 <= i < l ==> be_key(a)[i] == be_key(b)[i],
        be_key(a)[l] < be_key(b)[l],
    ensures
        a < b,
{
    if l == 0 {
        assert(((a >> 24) as u8) < ((b >> 24) as u8) ==> a < b) by (bit_vector);
    } else if l == 1 {
        assert(be_key(a)[0] == be_key(b)[0]);
        assert((a >> 24) as u8 == (b >> 24) as u8 && (((a >> 16) & 0xff) as u8) < (((b >> 16)
            & 0xff) as u8) ==> a < b) by (bit_vector);
    } else if l == 2 {
        assert(be_key(a)[0] == be_key(b)[0]);
        assert(be_key(a)[1] == be_key(b)[1]);
        assert((a >> 24) as u8 == (b >> 24) as u8 && ((a >> 16) & 0xff) as u8 == ((b >> 16)
            & 0xff) as u8 && (((a >> 8) & 0xff) as u8) < (((b >> 8) & 0xff) as u8) ==> a < b)
            by (bit_vector);
    } else {
        assert(be_key(a)[0] == be_key(b)[0]);
        assert(be_key(a)[1] == be_key(b)[1]);
        assert(be_key(a)[2] == be_key(b)[2]);
        assert((a >> 24) as u8 == (b >> 24) as u8 && ((a >> 16) & 0xff) as u8 == ((b >> 16)
            & 0xff) as u8 && ((a >> 8) & 0xff) as u8 == ((b >> 8) & 0xff) as u8 && ((a
            & 0xff) as u8) < ((b & 0xff) as u8) ==> a < b) by (bit_vector);
    }
}

/// Byte-lexicographic order on two equal-length byte sequences.
pub open spec fn lex_lt(x: Seq<u8>, y: Seq<u8>) -> bool
    recommends
        x.len() == y.len(),
{
    exists|l: int|
        0 <= l < x.len() && (forall|i: int| 0 <= i < l ==> x[i] == y[i]) && (#[trigger] x[l] as int)
            < y[l] as int
}

/// The codec preserves order: numeric order of keys coincides with
/// byte-lexicographic order of their encodings.
pub proof fn lemma_codec_order(a: u32, b: u32)
    ensures
        a < b <==> lex_lt(be_key(a), be_key(b)),
{
    let x = be_key(a);
    let y = be_key(b);
    if lex_lt(x, y) {
        let l = choose|l: int|
            0 <= l < x.len() && (forall|i: int| 0 <= i < l ==> x[i] == y[i]) && (
            #[trigger] x[l] as int) < y[l] as int;
        lemma_be_key_order(a, b, l);
    }
    if a < b {
        if x[0] != y[0] || x[1] != y[1] || x[2] != y[2] || x[3] != y[3] {
            let l: int = if x[0] != y[0] {
                0
            } else if x[1] != y[1] {
                1
            } else if x[2] != y[2] {
                2
            } else {
                3
            };
            if (x[l] as int) < (y[l] as int) {
                assert(lex_lt(x, y));
            } else {
                lemma_be_key_order(b, a, l);
                assert(false);
            }
        } else {
            assert(x =~= y);
            lemma_key_injective(a, b);
            assert(false);
        }
    }
}

/// `c` holds the first `d` bytes of `be_key(k)`, packed big-endian.
pub open spec fn pfx_eq(k: u32, d: int, c: u32) -> bool {
    if d <= 0 {
        c == 0
    } else if d == 1 {
        k >> 24 == c
    } else if d == 2 {
        k >> 16 == c
    } else if d == 3 {
        k >> 8 == c
    } else {
        k == c
    }
}

/// Extending a packed byte prefix by one byte: the prefix of length
/// `d + 1` is `c * 256 + lbl` exactly when the prefix of length `d`
/// is `c` and byte `d` of the key is `lbl`.
pub proof fn lemma_pfx_step(k: u32, c: u32, c2: u32, lbl: u8, d: int)
    requires
        0 <= d < 4,
        d == 0 ==> c == 0,
        d == 1 ==> c < 0x100,
        d == 2 ==> c < 0x10000,
        d == 3 ==> c < 0x1000000,
        c2 == (c << 8) | (lbl as u32),
    ensures
        pfx_eq(k, d + 1, c2) <==> (pfx_eq(k, d, c) && be_key(k)[d] == lbl),
{
    if d == 0 {
        assert(c2 == (0u32 << 8) | (lbl as u32) ==> ((k >> 24 == c2) <==> ((k
            >> 24) as u8 == lbl))) by (bit_vector);
    } else if d == 1 {
        assert(c < 0x100 && c2 == (c << 8) | (lbl as u32) ==> ((k >> 16 == c2) <==> (k >> 24 == c
            && ((k >> 16) & 0xff) as u8 == lbl))) by (bit_vector);
    } else if d == 2 {
        assert(c < 0x10000 && c2 == (c << 8) | (lbl as u32) ==> ((k >> 8 == c2) <==> (k >> 16 == c
            && ((k >> 8) & 0xff) as u8 == lbl))) by (bit_vector);
    } else {
        assert(c < 0x1000000 && c2 == (c << 8) | (lbl as u32) ==> ((k == c2) <==> (k >> 8 == c && (
        k & 0xff) as u8 == lbl))) by (bit_vector);
    }
}

/// Keys sharing a packed prefix compare by their next byte.
pub proof fn lemma_pfx_lt(a: u32, b: u32, c: u32, d: int)
    requires
        0 <= d < 4,
        pfx_eq(a, d, c),
        pfx_eq(b, d, c),
        be_key(a)[d] < be_key(b)[d],
    ensures
        a < b,
{
    if d == 0 {
        assert(((a >> 24) as u8) < ((b >> 24) as u8) ==> a < b) by (bit_vector);
    } else if d == 1 {
        assert(a >> 24 == b >> 24 && (((a >> 16) & 0xff) as u8) < (((b >> 16) & 0xff) as u8) ==> a < b)
            by (bit_vector);
    } else if d == 2 {
        assert(a >> 16 == b >> 16 && (((a >> 8) & 0xff) as u8) < (((b >> 8) & 0xff) as u8) ==> a < b)
            by (bit_vector);
    } else {
        assert(a >> 8 == b >> 8 && ((a & 0xff) as u8) < ((b & 0xff) as u8) ==> a < b) by (bit_vector);
    }
}

/// Encode a key as its 4 big-endian bytes.
pub fn encode_key(k: u32) -> (r: Vec<u8>)
    ensures
        r@ == be_key(k),
        r@.len() == 4,
{
    let mut r: Vec<u8> = Vec::new();
    r.push((k >> 24) as u8);
    r.push(((k >> 16) & 0xff) as u8);
    r.push(((k >> 8) & 0xff) as u8);
    r.push((k & 0xff) as u8);
    proof {
        assert(r@ =~= be_key(k));
    }
    r
}

/// Decode 4 big-endian bytes back into the key they encode.
pub fn decode_key(bytes: &Vec<u8>) -> (r: u32)
    requires
        bytes@.len() == 4,
    ensures
        r == key_of(bytes@),
        forall|k: u32| bytes@ == be_key(k) ==> r == k,
{
    let r = ((bytes[0] as u32) << 24) | ((bytes[1] as u32) << 16) | ((bytes[2] as u32) << 8) | (
    bytes[3] as u32);
    proof {
        assert forall|k: u32| bytes@ == be_key(k) implies r == k by {
            lemma_key_roundtrip(k);
        }
    }
    r
}

} // verus!
