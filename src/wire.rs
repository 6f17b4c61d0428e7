use vstd::prelude::*;
use vstd::utf8::{decode_utf8, valid_utf8};

verus! {

/// The unsigned value of four bytes read in network (big-endian) order.
pub open spec fn be_u32(b0: u8, b1: u8, b2: u8, b3: u8) -> int {
    b0 * 0x1000000 + b1 * 0x10000 + b2 * 0x100 + b3
}

/// The unsigned value of the four bytes of `s` that start at `at`.
pub open spec fn be_u32_at(s: Seq<u8>, at: int) -> int {
    be_u32(s[at], s[at + 1], s[at + 2], s[at + 3])
}

/// The four bytes that encode `v` in network order.
pub open spec fn be_bytes(v: u32) -> Seq<u8> {
    seq![(v / 0x1000000) as u8, ((v / 0x10000) % 0x100) as u8, ((v / 0x100) % 0x100) as u8, (v % 0x100) as u8]
}

pub proof fn lemma_be_round_trip(v: u32)
    ensures
        be_u32_at(be_bytes(v), 0) == v,
        0 <= be_u32_at(be_bytes(v), 0),
{
    let b = be_bytes(v);
    assert(b[0] == v / 0x1000000);
    assert(v == (v / 0x1000000) * 0x1000000 + ((v / 0x10000) % 0x100) * 0x10000 + ((v / 0x100) % 0x100) * 0x100 + v % 0x100) by (nonlinear_arith);
}

/// Reads the big-endian `u32` stored at `buf[at..at + 4]`.
pub fn read_u32_be(buf: &[u8], at: usize) -> (r: u32)
    requires
        at + 4 <= buf@.len(),
    ensures
        r == be_u32_at(buf@, at as int),
{
    let b0 = buf[at] as u32;
    let b1 = buf[at + 1] as u32;
    let b2 = buf[at + 2] as u32;
    let b3 = buf[at + 3] as u32;
    assert(b0 * 0x1000000 + b1 * 0x10000 + b2 * 0x100 + b3 <= 0xffff_ffff) by (nonlinear_arith)
        requires b0 < 256, b1 < 256, b2 < 256, b3 < 256;
    b0 * 0x1000000 + b1 * 0x10000 + b2 * 0x100 + b3
}

/// Appends the four network-order bytes of `v`.
pub fn push_u32_be(out: &mut Vec<u8>, v: u32)
    ensures
        final(out)@ == old(out)@ + be_bytes(v),
{
    out.push((v / 0x1000000) as u8);
    out.push(((v / 0x10000) % 0x100) as u8);
    out.push(((v / 0x100) % 0x100) as u8);
    out.push((v % 0x100) as u8);
}

/// The character a tag byte stands for.
pub fn tag_char(b: u8) -> (c: char)
    ensures
        c == b as char,
{
    b as char
}

/// Appends the bytes of `src` to `out`.
pub fn append_bytes(out: &mut Vec<u8>, src: &[u8])
    ensures
        final(out)@ == old(out)@ + src@,
{
    let n = src.len();
    for i in 0..n
        invariant
            n == src@.len(),
            out@ == old(out)@ + src@.subrange(0, i as int),
    {
        out.push(src[i]);
        assert(src@.subrange(0, i + 1) =~= src@.subrange(0, i as int).push(src@[i as int]));
    }
    assert(src@.subrange(0, n as int) =~= src@);
}

/// The index of the first byte of `hay` equal to `needle`, if any.
pub open spec fn first_index_of(needle: u8, hay: Seq<u8>) -> Option<int> {
    if exists|i: int| 0 <= i < hay.len() && hay[i] == needle {
        Some(choose|i: int| 0 <= i < hay.len() && hay[i] == needle && forall|j: int| 0 <= j < i ==> hay[j] != needle)
    } else {
        None
    }
}

pub proof fn lemma_first_index_of(needle: u8, hay: Seq<u8>, i: int)
    requires
        0 <= i < hay.len(),
        hay[i] == needle,
        forall|j: int| 0 <= j < i ==> hay[j] != needle,
    ensures
        first_index_of(needle, hay) == Some(i),
{
    let k = choose|k: int| 0 <= k < hay.len() && hay[k] == needle && forall|j: int| 0 <= j < k ==> hay[j] != needle;
    assert(0 <= k < hay.len() && hay[k] == needle && forall|j: int| 0 <= j < k ==> hay[j] != needle);
    if k < i {
        assert(hay[k] != needle);
    } else if k > i {
        assert(hay[i] != needle);
    }
}

pub proof fn lemma_no_index_of(needle: u8, hay: Seq<u8>)
    requires
        forall|j: int| 0 <= j < hay.len() ==> hay[j] != needle,
    ensures
        first_index_of(needle, hay) is None,
{
}

/// Relies on `memchr::memchr`: the index of the first occurrence of `needle`
/// in `hay`, or `None` when the byte does not occur.
#[verifier::external_body]
pub(crate) fn memchr_byte(needle: u8, hay: &[u8]) -> (r: Option<usize>)
    ensures
        match r {
            Some(i) => i < hay@.len() && hay@[i as int] == needle && forall|j: int|
                0 <= j < i ==> hay@[j] != needle,
            None => forall|j: int| 0 <= j < hay@.len() ==> hay@[j] != needle,
        },
{
    memchr::memchr(needle, hay)
}

/// Relies on `std::str::from_utf8`: it accepts exactly the well-formed UTF-8
/// byte strings, and the text it yields is their decoding.
#[verifier::external_body]
pub(crate) fn utf8_to_string(bytes: &[u8]) -> (r: Option<String>)
    ensures
        r is Some <==> valid_utf8(bytes@),
        r matches Some(s) ==> s@ == decode_utf8(bytes@),
{
    match std::str::from_utf8(bytes) {
        Ok(s) => Some(s.to_string()),
        Err(_) => None,
    }
}

/// The MD5 digest of `data` (sixteen bytes).
pub uninterp spec fn md5_of(data: Seq<u8>) -> Seq<u8>;

/// Relies on `md5::compute`, whose `Digest` holds the sixteen digest bytes.
#[verifier::external_body]
pub(crate) fn md5_digest(data: &[u8]) -> (r: Vec<u8>)
    ensures
        r@ == md5_of(data@),
        r@.len() == 16,
{
    md5::compute(data).0.to_vec()
}

/// The ASCII code of the lower-case hex digit for `n` (below sixteen).
pub open spec fn hex_digit(n: int) -> u8 {
    if n < 10 {
        (0x30 + n) as u8
    } else {
        (0x61 + n - 10) as u8
    }
}

/// Lower-case hex text of `s`, two digits per byte, high nibble first.
pub open spec fn hex_of(s: Seq<u8>) -> Seq<u8> {
    Seq::new(
        2 * s.len(),
        |i: int|
            if i % 2 == 0 {
                hex_digit(s[i / 2] as int / 16)
            } else {
                hex_digit(s[i / 2] as int % 16)
            },
    )
}

fn hex_digit_exec(n: u8) -> (d: u8)
    requires
        n < 16,
    ensures
        d == hex_digit(n as int),
{
    if n < 10 {
        0x30 + n
    } else {
        0x61 + n - 10
    }
}

/// Lower-case hex text of `bytes`, as ASCII bytes.
pub fn hex_lower(bytes: &[u8]) -> (r: Vec<u8>)
    requires
        bytes@.len() <= usize::MAX / 2,
    ensures
        r@ == hex_of(bytes@),
{
    let mut out: Vec<u8> = Vec::new();
    let n = bytes.len();
    for i in 0..n
        invariant
            n == bytes@.len(),
            out@.len() == 2 * i,
            forall|k: int| 0 <= k < 2 * i ==> out@[k] == hex_of(bytes@)[k],
    {
        let b = bytes[i];
        out.push(hex_digit_exec(b / 16));
        out.push(hex_digit_exec(b % 16));
        assert forall|k: int| 0 <= k < 2 * (i + 1) implies out@[k] == hex_of(bytes@)[k] by {
            if k >= 2 * i {
                assert((2 * i) / 2 == i && (2 * i) % 2 == 0 && (2 * i + 1) / 2 == i && (2 * i + 1) % 2 == 1);
            }
        }
    }
    assert(out@ =~= hex_of(bytes@));
    out
}

} // verus!
