//! Fixed-width big-endian byte layout of a version.
//!
//! A version is an unsigned 64-bit snapshot identifier.  It is stored as
//! exactly eight big-endian bytes so that, under byte-lexicographic order,
//! encoded versions sort exactly as the integers do.

use byteorder::{BigEndian, ReadBytesExt, WriteBytesExt};
use vstd::prelude::*;
use crate::lex::{lemma_lex_asym, lemma_lex_from_diff, lemma_lex_irrefl, lex_lt};

verus! {

/// Number of bytes of the fixed-width version suffix.
pub const VERSION_SIZE: usize = 8;

/// The eight big-endian bytes of a version, most significant first.
pub open spec fn be_bytes_of(v: u64) -> Seq<u8> {
    seq![
        (v >> 56) as u8,
        (v >> 48) as u8,
        (v >> 40) as u8,
        (v >> 32) as u8,
        (v >> 24) as u8,
        (v >> 16) as u8,
        (v >> 8) as u8,
        v as u8,
    ]
}

/// The version an eight-byte big-endian string stands for.
pub open spec fn be_value_of(s: Seq<u8>) -> u64
    recommends
        s.len() == 8,
{
    ((s[0] as u64) << 56) | ((s[1] as u64) << 48) | ((s[2] as u64) << 40) | ((s[3] as u64) << 32)
        | ((s[4] as u64) << 24) | ((s[5] as u64) << 16) | ((s[6] as u64) << 8) | (s[7] as u64)
}

/// Decoding inverts encoding: the eight bytes of a version read back as it.
pub proof fn lemma_be_round_trip(v: u64)
    ensures
        be_value_of(be_bytes_of(v)) == v,
{
    assert((((v >> 56) as u8 as u64) << 56) | (((v >> 48) as u8 as u64) << 48)
        | (((v >> 40) as u8 as u64) << 40) | (((v >> 32) as u8 as u64) << 32)
        | (((v >> 24) as u8 as u64) << 24) | (((v >> 16) as u8 as u64) << 16)
        | (((v >> 8) as u8 as u64) << 8) | ((v as u8) as u64) == v) by (bit_vector);
}

/// Encoding inverts decoding: an eight-byte string is the encoding of the
/// version it reads back as, so no two distinct suffixes decode alike.
pub proof fn lemma_be_bytes_round_trip(s: Seq<u8>)
    requires
        s.len() == 8,
    ensures
        be_bytes_of(be_value_of(s)) == s,
{
    let b0 = s[0];
    let b1 = s[1];
    let b2 = s[2];
    let b3 = s[3];
    let b4 = s[4];
    let b5 = s[5];
    let b6 = s[6];
    let b7 = s[7];
    let v = be_value_of(s);
    assert((v >> 56) as u8 == b0 && (v >> 48) as u8 == b1 && (v >> 40) as u8 == b2 && (v >> 32)
        as u8 == b3 && (v >> 24) as u8 == b4 && (v >> 16) as u8 == b5 && (v >> 8) as u8 == b6
        && v as u8 == b7) by (bit_vector)
        requires
            v == ((b0 as u64) << 56) | ((b1 as u64) << 48) | ((b2 as u64) << 40) | ((b3 as u64)
                << 32) | ((b4 as u64) << 24) | ((b5 as u64) << 16) | ((b6 as u64) << 8) | (
            b7 as u64),
    ;
    assert(be_bytes_of(v) =~= s);
}

/// Version order and byte-lexicographic order of the encodings coincide.
pub proof fn lemma_be_order(v1: u64, v2: u64)
    requires
        v1 < v2,
    ensures
        lex_lt(be_bytes_of(v1), be_bytes_of(v2)),
{
    let a = be_bytes_of(v1);
    let b = be_bytes_of(v2);
    if a[0] != b[0] {
        assert(((v1 >> 56) as u8) < ((v2 >> 56) as u8)) by (bit_vector)
            requires
                v1 < v2,
                (v1 >> 56) as u8 != (v2 >> 56) as u8,
        ;
        assert(a.take(0) =~= b.take(0));
        lemma_lex_from_diff(a, b, 0);
    } else if a[1] != b[1] {
        assert(((v1 >> 48) as u8) < ((v2 >> 48) as u8)) by (bit_vector)
            requires
                v1 < v2,
                (v1 >> 56) as u8 == (v2 >> 56) as u8,
                (v1 >> 48) as u8 != (v2 >> 48) as u8,
        ;
        assert(a.take(1) =~= b.take(1));
        lemma_lex_from_diff(a, b, 1);
    } else if a[2] != b[2] {
        assert(((v1 >> 40) as u8) < ((v2 >> 40) as u8)) by (bit_vector)
            requires
                v1 < v2,
                (v1 >> 56) as u8 == (v2 >> 56) as u8,
                (v1 >> 48) as u8 == (v2 >> 48) as u8,
                (v1 >> 40) as u8 != (v2 >> 40) as u8,
        ;
        assert(a.take(2) =~= b.take(2));
        lemma_lex_from_diff(a, b, 2);
    } else if a[3] != b[3] {
        assert(((v1 >> 32) as u8) < ((v2 >> 32) as u8)) by (bit_vector)
            requires
                v1 < v2,
                (v1 >> 56) as u8 == (v2 >> 56) as u8,
                (v1 >> 48) as u8 == (v2 >> 48) as u8,
                (v1 >> 40) as u8 == (v2 >> 40) as u8,
                (v1 >> 32) as u8 != (v2 >> 32) as u8,
        ;
        assert(a.take(3) =~= b.take(3));
        lemma_lex_from_diff(a, b, 3);
    } else if a[4] != b[4] {
        assert(((v1 >> 24) as u8) < ((v2 >> 24) as u8)) by (bit_vector)
            requires
                v1 < v2,
                (v1 >> 56) as u8 == (v2 >> 56) as u8,
                (v1 >> 48) as u8 == (v2 >> 48) as u8,
                (v1 >> 40) as u8 == (v2 >> 40) as u8,
                (v1 >> 32) as u8 == (v2 >> 32) as u8,
                (v1 >> 24) as u8 != (v2 >> 24) as u8,
        ;
        assert(a.take(4) =~= b.take(4));
        lemma_lex_from_diff(a, b, 4);
    } else if a[5] != b[5] {
        assert(((v1 >> 16) as u8) < ((v2 >> 16) as u8)) by (bit_vector)
            requires
                v1 < v2,
                (v1 >> 56) as u8 == (v2 >> 56) as u8,
                (v1 >> 48) as u8 == (v2 >> 48) as u8,
                (v1 >> 40) as u8 == (v2 >> 40) as u8,
                (v1 >> 32) as u8 == (v2 >> 32) as u8,
                (v1 >> 24) as u8 == (v2 >> 24) as u8,
                (v1 >> 16) as u8 != (v2 >> 16) as u8,
        ;
        assert(a.take(5) =~= b.take(5));
        lemma_lex_from_diff(a, b, 5);
    } else if a[6] != b[6] {
        assert(((v1 >> 8) as u8) < ((v2 >> 8) as u8)) by (bit_vector)
            requires
                v1 < v2,
                (v1 >> 56) as u8 == (v2 >> 56) as u8,
                (v1 >> 48) as u8 == (v2 >> 48) as u8,
                (v1 >> 40) as u8 == (v2 >> 40) as u8,
                (v1 >> 32) as u8 == (v2 >> 32) as u8,
                (v1 >> 24) as u8 == (v2 >> 24) as u8,
                (v1 >> 16) as u8 == (v2 >> 16) as u8,
                (v1 >> 8) as u8 != (v2 >> 8) as u8,
        ;
        assert(a.take(6) =~= b.take(6));
        lemma_lex_from_diff(a, b, 6);
    } else {
        assert((v1 as u8) < (v2 as u8)) by (bit_vector)
            requires
                v1 < v2,
                (v1 >> 56) as u8 == (v2 >> 56) as u8,
                (v1 >> 48) as u8 == (v2 >> 48) as u8,
                (v1 >> 40) as u8 == (v2 >> 40) as u8,
                (v1 >> 32) as u8 == (v2 >> 32) as u8,
                (v1 >> 24) as u8 == (v2 >> 24) as u8,
                (v1 >> 16) as u8 == (v2 >> 16) as u8,
                (v1 >> 8) as u8 == (v2 >> 8) as u8,
        ;
        assert(a.take(7) =~= b.take(7));
        lemma_lex_from_diff(a, b, 7);
    }
}

/// The two orders coincide in both directions.
pub proof fn lemma_be_order_iff(v1: u64, v2: u64)
    ensures
        lex_lt(be_bytes_of(v1), be_bytes_of(v2)) <==> v1 < v2,
{
    if v1 < v2 {
        lemma_be_order(v1, v2);
    } else if v2 < v1 {
        lemma_be_order(v2, v1);
        lemma_lex_asym(be_bytes_of(v2), be_bytes_of(v1));
    } else {
        lemma_lex_irrefl(be_bytes_of(v1));
    }
}

/// Relies on byteorder's `WriteBytesExt::write_u64::<BigEndian>`: appends the
/// eight big-endian bytes of `v`, most significant first; writing into a
/// `Vec<u8>` cannot fail.
#[verifier::external_body]
pub(crate) fn append_version_be(buf: &mut Vec<u8>, v: u64)
    ensures
        final(buf)@ == old(buf)@ + be_bytes_of(v),
{
    buf.write_u64::<BigEndian>(v).expect("writing into a Vec cannot fail");
}

/// Relies on byteorder's `ReadBytesExt::read_u64::<BigEndian>`: reads the
/// slice's eight bytes as a big-endian integer; it fails only on a slice
/// shorter than eight bytes, which the caller rules out.
#[verifier::external_body]
pub(crate) fn read_version_be(data: &[u8]) -> (r: u64)
    requires
        data@.len() == 8,
    ensures
        r == be_value_of(data@),
{
    let mut rest = data;
    rest.read_u64::<BigEndian>().expect("the slice holds eight bytes")
}

/// Relies on byteorder's `WriteBytesExt::write_u8`: appends the single byte;
/// writing into a `Vec<u8>` cannot fail.
#[verifier::external_body]
pub(crate) fn append_byte(buf: &mut Vec<u8>, b: u8)
    ensures
        final(buf)@ == old(buf)@ + seq![b],
{
    buf.write_u8(b).expect("writing into a Vec cannot fail");
}

} // verus!
