//! Order-preserving binary key codec.
//!
//! Keys are fixed-width big-endian byte sequences whose byte-lexicographic
//! order equals the numeric order of the encoded value. Unsigned integers
//! are plain big-endian. Signed 32-bit integers have their sign bit
//! flipped (an offset of 2^31) so that negatives sort before positives.
//! 32-bit float keys are built from the IEEE-754 bit pattern: a
//! non-negative pattern is offset by 2^31, a negative pattern is mapped to
//! its complement from 2^32, so that byte order matches numeric order for
//! finite values. The two zero patterns collide by design: negative zero
//! and NaN are outside the order contract.

use vstd::prelude::*;

use crate::error::ErrorKind;
use crate::error::ScannError;
use crate::error::invalid_argument_error;

verus! {

/// Byte-lexicographic strict order on byte strings.
pub open spec fn lex_less(a: Seq<u8>, b: Seq<u8>) -> bool
    decreases a.len(),
{
    if a.len() == 0 {
        b.len() > 0
    } else if b.len() == 0 {
        false
    } else {
        a[0] < b[0] || (a[0] == b[0] && lex_less(a.drop_first(), b.drop_first()))
    }
}

/// The four big-endian bytes of a 32-bit value.
pub open spec fn be32(x: u32) -> Seq<u8> {
    seq![(x >> 24) as u8, ((x >> 16) & 0xff) as u8, ((x >> 8) & 0xff) as u8, (x & 0xff) as u8]
}

/// The eight big-endian bytes of a 64-bit value.
pub open spec fn be64(x: u64) -> Seq<u8> {
    seq![
        (x >> 56) as u8,
        ((x >> 48) & 0xff) as u8,
        ((x >> 40) & 0xff) as u8,
        ((x >> 32) & 0xff) as u8,
        ((x >> 24) & 0xff) as u8,
        ((x >> 16) & 0xff) as u8,
        ((x >> 8) & 0xff) as u8,
        (x & 0xff) as u8,
    ]
}

/// The 32-bit value whose big-endian bytes are the given four.
pub open spec fn combine32(s: Seq<u8>) -> u32
    recommends
        s.len() == 4,
{
    (((s[0] as u32) << 24) | ((s[1] as u32) << 16) | ((s[2] as u32) << 8) | (s[3] as u32)) as u32
}

/// The 64-bit value whose big-endian bytes are the given eight.
pub open spec fn combine64(s: Seq<u8>) -> u64
    recommends
        s.len() == 8,
{
    (((s[0] as u64) << 56) | ((s[1] as u64) << 48) | ((s[2] as u64) << 40) | ((s[3] as u64) << 32)
        | ((s[4] as u64) << 24) | ((s[5] as u64) << 16) | ((s[6] as u64) << 8) | (s[7] as u64)) as u64
}

/// The unsigned ordinal of a signed 32-bit value: an offset of 2^31, so
/// that the unsigned order of ordinals is the signed order of values.
pub open spec fn int32_ord(i: i32) -> u32 {
    (i + 0x8000_0000) as u32
}

/// The signed value of an ordinal; inverse of `int32_ord`.
pub open spec fn int32_of_ord(e: u32) -> i32 {
    (e - 0x8000_0000) as i32
}

/// The unsigned ordinal of an IEEE-754 bit pattern: non-negative patterns
/// are offset by 2^31, negative patterns are complemented from 2^32, so
/// that ordinal order is numeric float order for finite values.
pub open spec fn float_bits_ord(n: u32) -> u32 {
    if n < 0x8000_0000 {
        (n + 0x8000_0000) as u32
    } else {
        (0x1_0000_0000 - n) as u32
    }
}

/// The bit pattern of an ordinal; inverse of `float_bits_ord` except that
/// the negative-zero pattern decodes as positive zero.
pub open spec fn float_bits_of_ord(e: u32) -> u32 {
    if e >= 0x8000_0000 {
        (e - 0x8000_0000) as u32
    } else {
        (0x1_0000_0000 - e) as u32
    }
}

/// The numeric rank of a finite IEEE-754 bit pattern: bit patterns of
/// finite floats compare, as floats, exactly as their ranks compare (the
/// sign-magnitude reading of the pattern). Both zero patterns have rank 0.
pub open spec fn float_bits_rank(n: u32) -> int {
    if n < 0x8000_0000 {
        n as int
    } else {
        0x8000_0000 - n as int
    }
}

/// Writes the big-endian key of a 32-bit unsigned value into `key`.
pub fn key_from_uint32(x: u32, key: &mut Vec<u8>)
    ensures
        final(key)@ == be32(x),
{
    key.clear();
    key.push((x >> 24) as u8);
    key.push(((x >> 16) & 0xff) as u8);
    key.push(((x >> 8) & 0xff) as u8);
    key.push((x & 0xff) as u8);
    proof {
        assert(key@ =~= be32(x));
    }
}

/// Writes the big-endian key of a 64-bit unsigned value into `key`.
pub fn key_from_uint64(x: u64, key: &mut Vec<u8>)
    ensures
        final(key)@ == be64(x),
{
    key.clear();
    key.push((x >> 56) as u8);
    key.push(((x >> 48) & 0xff) as u8);
    key.push(((x >> 40) & 0xff) as u8);
    key.push(((x >> 32) & 0xff) as u8);
    key.push(((x >> 24) & 0xff) as u8);
    key.push(((x >> 16) & 0xff) as u8);
    key.push(((x >> 8) & 0xff) as u8);
    key.push((x & 0xff) as u8);
    proof {
        assert(key@ =~= be64(x));
    }
}

/// The 4-byte big-endian key of a 32-bit unsigned value.
pub fn uint32_to_key(x: u32) -> (key: Vec<u8>)
    ensures
        key@ == be32(x),
{
    let mut key: Vec<u8> = Vec::new();
    key_from_uint32(x, &mut key);
    key
}

/// The 4-byte key of a signed 32-bit value, order-preserving across the
/// sign boundary.
pub fn int32_to_key(i: i32) -> (key: Vec<u8>)
    ensures
        key@ == be32(int32_ord(i)),
{
    let v: i64 = (i as i64) + 0x8000_0000;
    uint32_to_key(v as u32)
}

/// The 8-byte big-endian key of a 64-bit unsigned value.
pub fn uint64_to_key(x: u64) -> (key: Vec<u8>)
    ensures
        key@ == be64(x),
{
    let mut key: Vec<u8> = Vec::new();
    key_from_uint64(x, &mut key);
    key
}

/// Decodes a 4-byte key back to the 32-bit unsigned value. Fails with
/// `InvalidArgument` exactly when the key is not 4 bytes long.
pub fn key_to_uint32(key: &[u8]) -> (r: Result<u32, ScannError>)
    ensures
        key@.len() == 4 ==> (r matches Ok(v) && v == combine32(key@)),
        key@.len() != 4 ==> (r matches Err(e) && e.kind == ErrorKind::InvalidArgument),
{
    if key.len() != 4 {
        return Err(invalid_argument_error("Invalid key length: a 32-bit key must be 4 bytes"));
    }
    Ok(((key[0] as u32) << 24) | ((key[1] as u32) << 16) | ((key[2] as u32) << 8) | (key[3] as u32))
}

/// Decodes a 4-byte key back to the signed 32-bit value; inverse of
/// `int32_to_key`. Fails with `InvalidArgument` exactly when the key is
/// not 4 bytes long.
pub fn key_to_int32(key: &[u8]) -> (r: Result<i32, ScannError>)
    ensures
        key@.len() == 4 ==> (r matches Ok(v) && v == int32_of_ord(combine32(key@))),
        key@.len() != 4 ==> (r matches Err(e) && e.kind == ErrorKind::InvalidArgument),
{
    match key_to_uint32(key) {
        Ok(e) => {
            let v: i64 = (e as i64) - 0x8000_0000;
            Ok(v as i32)
        },
        Err(e) => Err(e),
    }
}

/// Decodes an 8-byte key back to the 64-bit unsigned value. Fails with
/// `InvalidArgument` exactly when the key is not 8 bytes long.
pub fn key_to_uint64(key: &[u8]) -> (r: Result<u64, ScannError>)
    ensures
        key@.len() == 8 ==> (r matches Ok(v) && v == combine64(key@)),
        key@.len() != 8 ==> (r matches Err(e) && e.kind == ErrorKind::InvalidArgument),
{
    if key.len() != 8 {
        return Err(invalid_argument_error("Invalid key length: a 64-bit key must be 8 bytes"));
    }
    Ok(
        ((key[0] as u64) << 56) | ((key[1] as u64) << 48) | ((key[2] as u64) << 40) | ((key[3]
            as u64) << 32) | ((key[4] as u64) << 24) | ((key[5] as u64) << 16) | ((key[6]
            as u64) << 8) | (key[7] as u64),
    )
}

/// Writes the order-preserving key of an IEEE-754 bit pattern into `key`.
pub fn key_from_float_bits(bits: u32, key: &mut Vec<u8>)
    ensures
        final(key)@ == be32(float_bits_ord(bits)),
{
    let e: u32 = if bits < 0x8000_0000 {
        bits + 0x8000_0000
    } else {
        ((0x1_0000_0000u64 - (bits as u64)) as u32)
    };
    key_from_uint32(e, key);
}

/// The 4-byte order-preserving key of an IEEE-754 bit pattern: for finite
/// floats, byte-lexicographic key order is numeric float order.
pub fn float_bits_to_key(bits: u32) -> (key: Vec<u8>)
    ensures
        key@ == be32(float_bits_ord(bits)),
{
    let mut key: Vec<u8> = Vec::new();
    key_from_float_bits(bits, &mut key);
    key
}

/// Decodes a 4-byte float key back to the IEEE-754 bit pattern; inverse
/// of `float_bits_to_key` except that the negative-zero pattern decodes
/// as positive zero. Fails with `InvalidArgument` exactly when the key is
/// not 4 bytes long.
pub fn key_to_float_bits(key: &[u8]) -> (r: Result<u32, ScannError>)
    ensures
        key@.len() == 4 ==> (r matches Ok(v) && v == float_bits_of_ord(combine32(key@))),
        key@.len() != 4 ==> (r matches Err(e) && e.kind == ErrorKind::InvalidArgument),
{
    match key_to_uint32(key) {
        Ok(e) => {
            if e >= 0x8000_0000 {
                Ok(e - 0x8000_0000)
            } else {
                Ok((0x1_0000_0000u64 - (e as u64)) as u32)
            }
        },
        Err(e) => Err(e),
    }
}

/// For equal-length 4-byte strings, `lex_less` is the nested byte
/// comparison.
proof fn lemma_lex4(a: Seq<u8>, b: Seq<u8>)
    requires
        a.len() == 4,
        b.len() == 4,
    ensures
        lex_less(a, b) == (a[0] < b[0] || (a[0] == b[0] && (a[1] < b[1] || (a[1] == b[1] && (a[2]
            < b[2] || (a[2] == b[2] && a[3] < b[3])))))),
{
    let a1 = a.drop_first();
    let b1 = b.drop_first();
    let a2 = a1.drop_first();
    let b2 = b1.drop_first();
    let a3 = a2.drop_first();
    let b3 = b2.drop_first();
    assert(a1[0] == a[1] && a1[1] == a[2] && a1[2] == a[3]);
    assert(b1[0] == b[1] && b1[1] == b[2] && b1[2] == b[3]);
    assert(a2[0] == a[2] && a2[1] == a[3]);
    assert(b2[0] == b[2] && b2[1] == b[3]);
    assert(a3[0] == a[3] && a3.len() == 1);
    assert(b3[0] == b[3] && b3.len() == 1);
    assert(a3.drop_first().len() == 0 && b3.drop_first().len() == 0);
    assert(!lex_less(a3.drop_first(), b3.drop_first()));
    assert(lex_less(a3, b3) == (a[3] < b[3]));
    assert(lex_less(a2, b2) == (a[2] < b[2] || (a[2] == b[2] && a[3] < b[3])));
    assert(lex_less(a1, b1) == (a[1] < b[1] || (a[1] == b[1] && (a[2] < b[2] || (a[2] == b[2]
        && a[3] < b[3])))));
    assert(lex_less(a, b) == (a[0] < b[0] || (a[0] == b[0] && lex_less(a1, b1))));
}

/// Round trip: decoding the key of a 32-bit unsigned value gives the
/// value back, and every 4-byte string is the key of the value it
/// decodes to.
pub proof fn lemma_uint32_key_round_trip(x: u32, s: Seq<u8>)
    requires
        s.len() == 4,
    ensures
        combine32(be32(x)) == x,
        be32(combine32(s)) =~= s,
{
    assert((((((x >> 24) as u8) as u32) << 24) | ((((x >> 16) & 0xff) as u8 as u32) << 16) | ((((x
        >> 8) & 0xff) as u8 as u32) << 8) | ((x & 0xff) as u8 as u32)) == x) by (bit_vector);
    let b0 = s[0];
    let b1 = s[1];
    let b2 = s[2];
    let b3 = s[3];
    let c = (((b0 as u32) << 24) | ((b1 as u32) << 16) | ((b2 as u32) << 8) | (b3 as u32)) as u32;
    assert((c >> 24) as u8 == b0 && ((c >> 16) & 0xff) as u8 == b1 && ((c >> 8) & 0xff) as u8 == b2
        && (c & 0xff) as u8 == b3) by (bit_vector)
        requires
            c == (((b0 as u32) << 24) | ((b1 as u32) << 16) | ((b2 as u32) << 8) | (b3 as u32))
                as u32,
    ;
}

/// Round trip for 64-bit unsigned keys.
pub proof fn lemma_uint64_key_round_trip(x: u64)
    ensures
        combine64(be64(x)) == x,
{
    assert((((((x >> 56) as u8) as u64) << 56) | ((((x >> 48) & 0xff) as u8 as u64) << 48) | ((((x
        >> 40) & 0xff) as u8 as u64) << 40) | ((((x >> 32) & 0xff) as u8 as u64) << 32) | ((((x
        >> 24) & 0xff) as u8 as u64) << 24) | ((((x >> 16) & 0xff) as u8 as u64) << 16) | ((((x
        >> 8) & 0xff) as u8 as u64) << 8) | ((x & 0xff) as u8 as u64)) == x) by (bit_vector);
}

/// Round trip for signed 32-bit keys.
pub proof fn lemma_int32_key_round_trip(i: i32)
    ensures
        int32_of_ord(int32_ord(i)) == i,
{
}

/// Round trip for float keys: every bit pattern except negative zero
/// (0x8000_0000) comes back unchanged; negative zero decodes as positive
/// zero.
pub proof fn lemma_float_bits_round_trip(n: u32)
    ensures
        n != 0x8000_0000 ==> float_bits_of_ord(float_bits_ord(n)) == n,
        float_bits_of_ord(float_bits_ord(0x8000_0000u32)) == 0,
{
}

/// Key order for 32-bit unsigned values: byte-lexicographic key order is
/// exactly numeric order.
pub proof fn lemma_uint32_key_order(x: u32, y: u32)
    ensures
        lex_less(be32(x), be32(y)) == (x < y),
{
    lemma_lex4(be32(x), be32(y));
    let x0 = (x >> 24) as u8;
    let x1 = ((x >> 16) & 0xff) as u8;
    let x2 = ((x >> 8) & 0xff) as u8;
    let x3 = (x & 0xff) as u8;
    let y0 = (y >> 24) as u8;
    let y1 = ((y >> 16) & 0xff) as u8;
    let y2 = ((y >> 8) & 0xff) as u8;
    let y3 = (y & 0xff) as u8;
    assert((x < y) == (x0 < y0 || (x0 == y0 && (x1 < y1 || (x1 == y1 && (x2 < y2 || (x2 == y2 && x3
        < y3))))))) by (bit_vector)
        requires
            x0 == (x >> 24) as u8,
            x1 == ((x >> 16) & 0xff) as u8,
            x2 == ((x >> 8) & 0xff) as u8,
            x3 == (x & 0xff) as u8,
            y0 == (y >> 24) as u8,
            y1 == ((y >> 16) & 0xff) as u8,
            y2 == ((y >> 8) & 0xff) as u8,
            y3 == (y & 0xff) as u8,
    ;
}

/// Lexicographic order over a concatenation with equal-length prefixes:
/// the prefixes decide unless they are equal, then the suffixes do.
proof fn lemma_lex_concat(a: Seq<u8>, b: Seq<u8>, c: Seq<u8>, d: Seq<u8>)
    requires
        a.len() == c.len(),
    ensures
        lex_less(a + b, c + d) == if a == c {
            lex_less(b, d)
        } else {
            lex_less(a, c)
        },
    decreases a.len(),
{
    if a.len() == 0 {
        assert(a =~= c);
        assert(a + b =~= b);
        assert(c + d =~= d);
    } else {
        let a1 = a.drop_first();
        let c1 = c.drop_first();
        assert((a + b).drop_first() =~= a1 + b);
        assert((c + d).drop_first() =~= c1 + d);
        assert((a + b)[0] == a[0] && (c + d)[0] == c[0]);
        assert((a + b).len() > 0 && (c + d).len() > 0);
        lemma_lex_concat(a1, b, c1, d);
        if a[0] == c[0] {
            assert((a == c) == (a1 == c1)) by {
                if a1 == c1 {
                    assert forall|i: int| 0 <= i < a.len() implies a[i] == c[i] by {
                        if i > 0 {
                            assert(a[i] == a1[i - 1]);
                            assert(c[i] == c1[i - 1]);
                        }
                    }
                    assert(a =~= c);
                }
                if a == c {
                    assert(a1 =~= c1);
                }
            }
        }
    }
}

/// Key order for 64-bit unsigned values: byte-lexicographic key order is
/// exactly numeric order.
pub proof fn lemma_uint64_key_order(x: u64, y: u64)
    ensures
        lex_less(be64(x), be64(y)) == (x < y),
{
    let hix = (x >> 32) as u32;
    let lox = x as u32;
    let hiy = (y >> 32) as u32;
    let loy = y as u32;
    assert(be64(x) =~= be32(hix) + be32(lox)) by {
        assert((x >> 56) as u8 == (hix >> 24) as u8 && ((x >> 48) & 0xff) as u8 == ((hix >> 16)
            & 0xff) as u8 && ((x >> 40) & 0xff) as u8 == ((hix >> 8) & 0xff) as u8 && ((x >> 32)
            & 0xff) as u8 == (hix & 0xff) as u8 && ((x >> 24) & 0xff) as u8 == (lox >> 24) as u8
            && ((x >> 16) & 0xff) as u8 == ((lox >> 16) & 0xff) as u8 && ((x >> 8) & 0xff) as u8
            == ((lox >> 8) & 0xff) as u8 && (x & 0xff) as u8 == (lox & 0xff) as u8)
            by (bit_vector)
            requires
                hix == (x >> 32) as u32,
                lox == x as u32,
        ;
    }
    assert(be64(y) =~= be32(hiy) + be32(loy)) by {
        assert((y >> 56) as u8 == (hiy >> 24) as u8 && ((y >> 48) & 0xff) as u8 == ((hiy >> 16)
            & 0xff) as u8 && ((y >> 40) & 0xff) as u8 == ((hiy >> 8) & 0xff) as u8 && ((y >> 32)
            & 0xff) as u8 == (hiy & 0xff) as u8 && ((y >> 24) & 0xff) as u8 == (loy >> 24) as u8
            && ((y >> 16) & 0xff) as u8 == ((loy >> 16) & 0xff) as u8 && ((y >> 8) & 0xff) as u8
            == ((loy >> 8) & 0xff) as u8 && (y & 0xff) as u8 == (loy & 0xff) as u8)
            by (bit_vector)
            requires
                hiy == (y >> 32) as u32,
                loy == y as u32,
        ;
    }
    lemma_lex_concat(be32(hix), be32(lox), be32(hiy), be32(loy));
    lemma_uint32_key_order(hix, hiy);
    lemma_uint32_key_order(lox, loy);
    assert((x < y) == (hix < hiy || (hix == hiy && lox < loy))) by (bit_vector)
        requires
            hix == (x >> 32) as u32,
            lox == x as u32,
            hiy == (y >> 32) as u32,
            loy == y as u32,
    ;
    if hix == hiy {
        assert(be32(hix) == be32(hiy));
    }
    if be32(hix) == be32(hiy) {
        lemma_uint32_key_round_trip(hix, be32(hiy));
        lemma_uint32_key_round_trip(hiy, be32(hix));
        assert(hix == combine32(be32(hix)) && hiy == combine32(be32(hiy)));
        assert(hix == hiy);
    }
}

/// Key order for signed 32-bit values: byte-lexicographic key order is
/// exactly signed numeric order, across the sign boundary.
pub proof fn lemma_int32_key_order(i: i32, j: i32)
    ensures
        lex_less(be32(int32_ord(i)), be32(int32_ord(j))) == (i < j),
{
    lemma_uint32_key_order(int32_ord(i), int32_ord(j));
}

/// Key order for float bit patterns: byte-lexicographic key order is
/// exactly rank order. For finite floats, rank order is numeric order
/// (the IEEE-754 sign-magnitude reading), so float keys sort numerically.
pub proof fn lemma_float_key_order(m: u32, n: u32)
    ensures
        lex_less(be32(float_bits_ord(m)), be32(float_bits_ord(n))) == (float_bits_rank(m)
            < float_bits_rank(n)),
{
    lemma_uint32_key_order(float_bits_ord(m), float_bits_ord(n));
    assert(float_bits_ord(m) == float_bits_rank(m) + 0x8000_0000);
    assert(float_bits_ord(n) == float_bits_rank(n) + 0x8000_0000);
}

} // verus!
