//! The encoding of single fields, as bincode writes them with its default
//! options: fixed-width little-endian integers, `usize` widened to 64 bits,
//! and `bool` as one byte that is 0 or 1.
use vstd::prelude::*;
use vstd::slice::slice_subrange;

verus! {

pub open spec fn bool_bytes(b: bool) -> Seq<u8> {
    seq![if b { 1u8 } else { 0u8 }]
}

/// The four bytes of `x`, least significant first.
pub open spec fn u32_bytes(x: u32) -> Seq<u8> {
    seq![
        (x & 0xff) as u8,
        ((x >> 8u32) & 0xff) as u8,
        ((x >> 16u32) & 0xff) as u8,
        ((x >> 24u32) & 0xff) as u8,
    ]
}

/// The eight bytes of `x`, least significant first.
pub open spec fn u64_bytes(x: u64) -> Seq<u8> {
    seq![
        (x & 0xff) as u8,
        ((x >> 8u64) & 0xff) as u8,
        ((x >> 16u64) & 0xff) as u8,
        ((x >> 24u64) & 0xff) as u8,
        ((x >> 32u64) & 0xff) as u8,
        ((x >> 40u64) & 0xff) as u8,
        ((x >> 48u64) & 0xff) as u8,
        ((x >> 56u64) & 0xff) as u8,
    ]
}

/// The two's complement bit pattern of `x`.
pub open spec fn i32_bits(x: i32) -> u32 {
    if x >= 0 {
        x as u32
    } else {
        (x + 0x1_0000_0000) as u32
    }
}

pub open spec fn i32_bytes(x: i32) -> Seq<u8> {
    u32_bytes(i32_bits(x))
}

/// A length or an offset, written as a 64-bit integer.
pub open spec fn usize_bytes(x: usize) -> Seq<u8> {
    u64_bytes(x as u64)
}

/// Whether `s` holds `p` from position `pos` on.
pub open spec fn holds_at(s: Seq<u8>, pos: int, p: Seq<u8>) -> bool {
    0 <= pos && pos + p.len() <= s.len() && s.subrange(pos, pos + p.len()) == p
}

pub proof fn lemma_u32_bytes(x: u32, y: u32)
    ensures
        u32_bytes(x).len() == 4,
        u32_bytes(x) == u32_bytes(y) ==> x == y,
{
    if u32_bytes(x) == u32_bytes(y) {
        assert(u32_bytes(x)[0] == u32_bytes(y)[0]);
        assert(u32_bytes(x)[1] == u32_bytes(y)[1]);
        assert(u32_bytes(x)[2] == u32_bytes(y)[2]);
        assert(u32_bytes(x)[3] == u32_bytes(y)[3]);
        assert(((x & 0xff) as u8 == (y & 0xff) as u8 && ((x >> 8u32) & 0xff) as u8 == ((y >> 8u32)
            & 0xff) as u8 && ((x >> 16u32) & 0xff) as u8 == ((y >> 16u32) & 0xff) as u8 && ((x
            >> 24u32) & 0xff) as u8 == ((y >> 24u32) & 0xff) as u8) ==> x == y) by (bit_vector);
    }
}

pub proof fn lemma_i32_bytes(x: i32, y: i32)
    ensures
        i32_bytes(x).len() == 4,
        i32_bytes(x) == i32_bytes(y) ==> x == y,
{
    lemma_u32_bytes(i32_bits(x), i32_bits(y));
}

pub proof fn lemma_u64_bytes(x: u64, y: u64)
    ensures
        u64_bytes(x).len() == 8,
        u64_bytes(x) == u64_bytes(y) ==> x == y,
{
    if u64_bytes(x) == u64_bytes(y) {
        let a = u64_bytes(x);
        let b = u64_bytes(y);
        assert(a[0] == b[0] && a[1] == b[1] && a[2] == b[2] && a[3] == b[3]);
        assert(a[4] == b[4] && a[5] == b[5] && a[6] == b[6] && a[7] == b[7]);
        assert(((x & 0xff) as u8 == (y & 0xff) as u8 && ((x >> 8u64) & 0xff) as u8 == ((y >> 8u64)
            & 0xff) as u8 && ((x >> 16u64) & 0xff) as u8 == ((y >> 16u64) & 0xff) as u8 && ((x
            >> 24u64) & 0xff) as u8 == ((y >> 24u64) & 0xff) as u8 && ((x >> 32u64) & 0xff) as u8
            == ((y >> 32u64) & 0xff) as u8 && ((x >> 40u64) & 0xff) as u8 == ((y >> 40u64) & 0xff)
            as u8 && ((x >> 48u64) & 0xff) as u8 == ((y >> 48u64) & 0xff) as u8 && ((x >> 56u64)
            & 0xff) as u8 == ((y >> 56u64) & 0xff) as u8) ==> x == y) by (bit_vector);
    }
}

pub proof fn lemma_usize_bytes(x: usize, y: usize)
    ensures
        usize_bytes(x).len() == 8,
        usize_bytes(x) == usize_bytes(y) ==> x == y,
{
    lemma_u64_bytes(x as u64, y as u64);
}

/// Relies on bincode::serialize: a `bool` is written as the single byte 0 or
/// 1, and writing into a `Vec` without a size limit cannot fail.
#[verifier::external_body]
fn serialize_bool(x: bool) -> (r: Option<Vec<u8>>)
    ensures
        r is Some,
        r matches Some(v) ==> v@ == bool_bytes(x),
{
    bincode::serialize(&x).ok()
}

/// Relies on bincode::serialize: a `u32` is written as its four little-endian
/// bytes, and writing into a `Vec` without a size limit cannot fail.
#[verifier::external_body]
fn serialize_u32(x: u32) -> (r: Option<Vec<u8>>)
    ensures
        r is Some,
        r matches Some(v) ==> v@ == u32_bytes(x),
{
    bincode::serialize(&x).ok()
}

/// Relies on bincode::serialize: an `i32` is written as the four little-endian
/// bytes of its two's complement form, and writing into a `Vec` without a
/// size limit cannot fail.
#[verifier::external_body]
fn serialize_i32(x: i32) -> (r: Option<Vec<u8>>)
    ensures
        r is Some,
        r matches Some(v) ==> v@ == i32_bytes(x),
{
    bincode::serialize(&x).ok()
}

/// Relies on bincode::serialize: a `usize` is written as the eight
/// little-endian bytes of the equal `u64`, and writing into a `Vec` without
/// a size limit cannot fail.
#[verifier::external_body]
fn serialize_usize(x: usize) -> (r: Option<Vec<u8>>)
    ensures
        r is Some,
        r matches Some(v) ==> v@ == usize_bytes(x),
{
    bincode::serialize(&x).ok()
}

/// Relies on bincode::deserialize: reads one byte, 1 for `true` and 0 for
/// `false`, refuses any other byte, and ignores the bytes after it.
#[verifier::external_body]
fn deserialize_bool(bytes: &[u8]) -> (r: Option<bool>)
    ensures
        match r {
            Some(b) => holds_at(bytes@, 0, bool_bytes(b)),
            None => bytes@.len() < 1 || forall|b: bool| !holds_at(bytes@, 0, #[trigger] bool_bytes(b)),
        },
{
    bincode::deserialize::<bool>(bytes).ok()
}

/// Relies on bincode::deserialize: reads four little-endian bytes, and fails
/// only where fewer are given.
#[verifier::external_body]
fn deserialize_u32(bytes: &[u8]) -> (r: Option<u32>)
    ensures
        match r {
            Some(x) => holds_at(bytes@, 0, u32_bytes(x)),
            None => bytes@.len() < 4,
        },
{
    bincode::deserialize::<u32>(bytes).ok()
}

/// Relies on bincode::deserialize: reads four little-endian bytes in two's
/// complement, and fails only where fewer are given.
#[verifier::external_body]
fn deserialize_i32(bytes: &[u8]) -> (r: Option<i32>)
    ensures
        match r {
            Some(x) => holds_at(bytes@, 0, i32_bytes(x)),
            None => bytes@.len() < 4,
        },
{
    bincode::deserialize::<i32>(bytes).ok()
}

/// Relies on bincode::deserialize: reads a little-endian `u64`, and fails
/// where fewer than eight bytes are given or the value does not fit a `usize`.
#[verifier::external_body]
fn deserialize_usize(bytes: &[u8]) -> (r: Option<usize>)
    ensures
        match r {
            Some(x) => holds_at(bytes@, 0, usize_bytes(x)),
            None => bytes@.len() < 8 || forall|x: usize| !holds_at(bytes@, 0, #[trigger] usize_bytes(x)),
        },
{
    bincode::deserialize::<usize>(bytes).ok()
}

/// Appends the encoding of `x` to `out`.
pub fn put_bool(out: &mut Vec<u8>, x: bool)
    ensures
        final(out)@ == old(out)@ + bool_bytes(x),
{
    if let Some(mut v) = serialize_bool(x) {
        out.append(&mut v);
    }
}

/// Appends the encoding of `x` to `out`.
pub fn put_u32(out: &mut Vec<u8>, x: u32)
    ensures
        final(out)@ == old(out)@ + u32_bytes(x),
{
    if let Some(mut v) = serialize_u32(x) {
        out.append(&mut v);
    }
}

/// Appends the encoding of `x` to `out`.
pub fn put_i32(out: &mut Vec<u8>, x: i32)
    ensures
        final(out)@ == old(out)@ + i32_bytes(x),
{
    if let Some(mut v) = serialize_i32(x) {
        out.append(&mut v);
    }
}

/// Appends the encoding of `x` to `out`.
pub fn put_usize(out: &mut Vec<u8>, x: usize)
    ensures
        final(out)@ == old(out)@ + usize_bytes(x),
{
    if let Some(mut v) = serialize_usize(x) {
        out.append(&mut v);
    }
}

/// Reads a `bool` at `pos`; `None` where no encoding of one stands there.
pub fn read_bool(bytes: &[u8], pos: usize) -> (r: Option<bool>)
    requires
        pos <= bytes@.len(),
    ensures
        match r {
            Some(b) => holds_at(bytes@, pos as int, bool_bytes(b)),
            None => forall|b: bool| !holds_at(bytes@, pos as int, #[trigger] bool_bytes(b)),
        },
{
    let rest = slice_subrange(bytes, pos, bytes.len());
    let r = deserialize_bool(rest);
    proof {
        assert forall|b: bool| holds_at(bytes@, pos as int, #[trigger] bool_bytes(b))
            <==> holds_at(rest@, 0, bool_bytes(b)) by {
            if pos + 1 <= bytes@.len() {
                assert(bytes@.subrange(pos as int, pos + 1) =~= rest@.subrange(0, 1));
            }
        }
        if let Some(b) = r {
            assert(holds_at(rest@, 0, bool_bytes(b)));
        }
    }
    r
}

/// Reads a `u32` at `pos`; `None` where fewer than four bytes are left.
pub fn read_u32(bytes: &[u8], pos: usize) -> (r: Option<u32>)
    requires
        pos <= bytes@.len(),
    ensures
        match r {
            Some(x) => holds_at(bytes@, pos as int, u32_bytes(x)),
            None => bytes@.len() < pos + 4,
        },
{
    let rest = slice_subrange(bytes, pos, bytes.len());
    let r = deserialize_u32(rest);
    proof {
        if let Some(x) = r {
            lemma_u32_bytes(x, x);
            assert(bytes@.subrange(pos as int, pos + 4) =~= rest@.subrange(0, 4));
        }
    }
    r
}

/// Reads an `i32` at `pos`; `None` where fewer than four bytes are left.
pub fn read_i32(bytes: &[u8], pos: usize) -> (r: Option<i32>)
    requires
        pos <= bytes@.len(),
    ensures
        match r {
            Some(x) => holds_at(bytes@, pos as int, i32_bytes(x)),
            None => bytes@.len() < pos + 4,
        },
{
    let rest = slice_subrange(bytes, pos, bytes.len());
    let r = deserialize_i32(rest);
    proof {
        if let Some(x) = r {
            lemma_i32_bytes(x, x);
            assert(bytes@.subrange(pos as int, pos + 4) =~= rest@.subrange(0, 4));
        }
    }
    r
}

/// Reads a `usize` at `pos`; `None` where no encoding of one stands there.
pub fn read_usize(bytes: &[u8], pos: usize) -> (r: Option<usize>)
    requires
        pos <= bytes@.len(),
    ensures
        match r {
            Some(x) => holds_at(bytes@, pos as int, usize_bytes(x)),
            None => forall|x: usize| !holds_at(bytes@, pos as int, #[trigger] usize_bytes(x)),
        },
{
    let rest = slice_subrange(bytes, pos, bytes.len());
    let r = deserialize_usize(rest);
    proof {
        assert forall|x: usize|
            (holds_at(bytes@, pos as int, #[trigger] usize_bytes(x)) <==> holds_at(rest@, 0, usize_bytes(x)))
            && usize_bytes(x).len() == 8 by {
            lemma_usize_bytes(x, x);
            if pos + 8 <= bytes@.len() {
                assert(bytes@.subrange(pos as int, pos + 8) =~= rest@.subrange(0, 8));
            }
        }
        if let Some(x) = r {
            lemma_usize_bytes(x, x);
            assert(holds_at(rest@, 0, usize_bytes(x)));
            assert(bytes@.subrange(pos as int, pos + 8) =~= rest@.subrange(0, 8));
        }
    }
    r
}

} // verus!
