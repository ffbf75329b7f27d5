//! Little-endian byte images of number sequences.

use crate::float::F32;
use vstd::prelude::*;

verus! {

/// The `i`-th byte of a number, the lowest first.
pub open spec fn le_byte(x: int, i: int) -> u8 {
    (if i == 0 {
        x % 256
    } else if i == 1 {
        x / 256 % 256
    } else if i == 2 {
        x / 65536 % 256
    } else {
        x / 16777216 % 256
    }) as u8
}

/// The bytes of 16-bit numbers.
pub open spec fn bytes16(s: Seq<u16>) -> Seq<u8> {
    Seq::new(2 * s.len(), |k: int| le_byte(s[k / 2] as int, k % 2))
}

/// The bytes of 32-bit numbers.
pub open spec fn bytes32(s: Seq<u32>) -> Seq<u8> {
    Seq::new(4 * s.len(), |k: int| le_byte(s[k / 4] as int, k % 4))
}

/// The bit patterns of single-precision numbers.
pub open spec fn bits_of(s: Seq<F32>) -> Seq<u32> {
    Seq::new(s.len(), |i: int| s[i].bits)
}

/// The bytes of signed bytes: two's complement.
pub open spec fn bytes8(s: Seq<i8>) -> Seq<u8> {
    Seq::new(
        s.len(),
        |i: int|
            (if s[i] < 0 {
                s[i] + 256
            } else {
                s[i] as int
            }) as u8,
    )
}

/// Writes 16-bit numbers as bytes.
pub fn u16s_to_bytes(s: &[u16]) -> (r: Vec<u8>)
    ensures
        r@ == bytes16(s@),
{
    let mut out: Vec<u8> = Vec::new();
    for i in 0..s.len()
        invariant
            out@ == bytes16(s@).take(2 * i),
    {
        let x: u16 = s[i];
        out.push((x % 256) as u8);
        out.push((x / 256) as u8);
    }
    assert(bytes16(s@).take(2 * s@.len() as int) == bytes16(s@));
    out
}

/// Writes 32-bit numbers as bytes.
pub fn u32s_to_bytes(s: &[u32]) -> (r: Vec<u8>)
    ensures
        r@ == bytes32(s@),
{
    let mut out: Vec<u8> = Vec::new();
    for i in 0..s.len()
        invariant
            out@ == bytes32(s@).take(4 * i),
    {
        let x: u32 = s[i];
        out.push((x % 256) as u8);
        out.push((x / 256 % 256) as u8);
        out.push((x / 65536 % 256) as u8);
        out.push((x / 16777216) as u8);
    }
    assert(bytes32(s@).take(4 * s@.len() as int) == bytes32(s@));
    out
}

/// Writes single-precision numbers as bytes.
pub fn f32s_to_bytes(s: &[F32]) -> (r: Vec<u8>)
    ensures
        r@ == bytes32(bits_of(s@)),
{
    let mut bits: Vec<u32> = Vec::new();
    for i in 0..s.len()
        invariant
            bits@ == bits_of(s@).take(i as int),
    {
        bits.push(s[i].bits);
    }
    assert(bits_of(s@).take(s@.len() as int) == bits_of(s@));
    u32s_to_bytes(bits.as_slice())
}

/// Writes signed bytes as bytes.
pub fn i8s_to_bytes(s: &[i8]) -> (r: Vec<u8>)
    ensures
        r@ == bytes8(s@),
{
    let mut out: Vec<u8> = Vec::new();
    for i in 0..s.len()
        invariant
            out@ == bytes8(s@).take(i as int),
    {
        let x: i16 = s[i] as i16;
        if x < 0 {
            out.push((x + 256) as u8);
        } else {
            out.push(x as u8);
        }
    }
    assert(bytes8(s@).take(s@.len() as int) == bytes8(s@));
    out
}

/// The 32-bit number whose bytes begin at `at`.
pub open spec fn u32_at(b: Seq<u8>, at: int) -> u32 {
    (b[at] + 256 * b[at + 1] + 65536 * b[at + 2] + 16777216 * b[at + 3]) as u32
}

/// The 16-bit number whose bytes begin at `at`.
pub open spec fn u16_at(b: Seq<u8>, at: int) -> u16 {
    (b[at] + 256 * b[at + 1]) as u16
}

/// Reads `n` 32-bit numbers from the bytes that begin at `at`.
pub fn bytes_to_u32s(b: &[u8], at: usize, n: usize) -> (r: Vec<u32>)
    requires
        at + 4 * n <= b@.len(),
    ensures
        r@ == Seq::new(n as nat, |i: int| u32_at(b@, at + 4 * i)),
{
    let mut out: Vec<u32> = Vec::new();
    assert(b.len() == b@.len());
    for i in 0..n
        invariant
            at + 4 * n <= b@.len() <= usize::MAX,
            out@ == Seq::new(i as nat, |k: int| u32_at(b@, at + 4 * k)),
    {
        let p: usize = at + 4 * i;
        out.push(
            b[p] as u32 + 256 * (b[p + 1] as u32) + 65536 * (b[p + 2] as u32) + 16777216 * (b[p
                + 3] as u32),
        );
    }
    out
}

/// Reads `n` 16-bit numbers from the bytes that begin at `at`.
pub fn bytes_to_u16s(b: &[u8], at: usize, n: usize) -> (r: Vec<u16>)
    requires
        at + 2 * n <= b@.len(),
    ensures
        r@ == Seq::new(n as nat, |i: int| u16_at(b@, at + 2 * i)),
{
    let mut out: Vec<u16> = Vec::new();
    assert(b.len() == b@.len());
    for i in 0..n
        invariant
            at + 2 * n <= b@.len() <= usize::MAX,
            out@ == Seq::new(i as nat, |k: int| u16_at(b@, at + 2 * k)),
    {
        let p: usize = at + 2 * i;
        out.push(b[p] as u16 + 256 * (b[p + 1] as u16));
    }
    out
}

proof fn lemma_four_bytes(x: u32)
    ensures
        x % 256 + 256 * (x / 256 % 256) + 65536 * (x / 65536 % 256) + 16777216 * (x / 16777216
            % 256) == x,
{
    assert(x % 256 + 256 * (x / 256 % 256) + 65536 * (x / 65536 % 256) + 16777216 * (x / 16777216
        % 256) == x) by (bit_vector);
}

/// Reading the bytes of 32-bit numbers gives the numbers back.
pub proof fn law_bytes32_round_trip(s: Seq<u32>, i: int)
    requires
        0 <= i < s.len(),
    ensures
        u32_at(bytes32(s), 4 * i) == s[i],
{
    let x = s[i] as int;
    let b = bytes32(s);
    assert((4 * i) / 4 == i && (4 * i) % 4 == 0);
    assert((4 * i + 1) / 4 == i && (4 * i + 1) % 4 == 1);
    assert((4 * i + 2) / 4 == i && (4 * i + 2) % 4 == 2);
    assert((4 * i + 3) / 4 == i && (4 * i + 3) % 4 == 3);
    assert(b[4 * i] == x % 256);
    assert(b[4 * i + 1] == x / 256 % 256);
    assert(b[4 * i + 2] == x / 65536 % 256);
    assert(b[4 * i + 3] == x / 16777216 % 256);
    lemma_four_bytes(s[i]);
}

/// Reading the bytes of 16-bit numbers gives the numbers back.
pub proof fn law_bytes16_round_trip(s: Seq<u16>, i: int)
    requires
        0 <= i < s.len(),
    ensures
        u16_at(bytes16(s), 2 * i) == s[i],
{
    let x = s[i] as int;
    let b = bytes16(s);
    assert((2 * i) / 2 == i && (2 * i) % 2 == 0);
    assert((2 * i + 1) / 2 == i && (2 * i + 1) % 2 == 1);
    assert(b[2 * i] == x % 256);
    assert(b[2 * i + 1] == x / 256 % 256);
}

/// Numbers are written lowest byte first: a number is the sum of its bytes, each worth 256 times
/// the one before it. The same holds of numbers that are read.
pub proof fn law_little_endian(
    words: Seq<u32>,
    halves: Seq<u16>,
    b: Seq<u8>,
    i: int,
    j: int,
    at: int,
)
    requires
        0 <= i < words.len(),
        0 <= j < halves.len(),
        0 <= at,
        at + 4 <= b.len(),
    ensures
        ({
            let (w, h) = (bytes32(words), bytes16(halves));
            &&& w.len() == 4 * words.len()
            &&& words[i] == w[4 * i] + 256 * w[4 * i + 1] + 65536 * w[4 * i + 2] + 16777216 * w[4
                * i + 3]
            &&& h.len() == 2 * halves.len()
            &&& halves[j] == h[2 * j] + 256 * h[2 * j + 1]
            &&& u32_at(b, at) == b[at] + 256 * b[at + 1] + 65536 * b[at + 2] + 16777216 * b[at + 3]
            &&& u16_at(b, at) == b[at] + 256 * b[at + 1]
        }),
{
    law_bytes32_round_trip(words, i);
    law_bytes16_round_trip(halves, j);
}

/// A signed byte and its byte differ by 256 where the byte is negative, and not otherwise.
pub proof fn law_signed_bytes(s: Seq<i8>, i: int)
    requires
        0 <= i < s.len(),
    ensures
        bytes8(s).len() == s.len(),
        bytes8(s)[i] - s[i] == if s[i] < 0 {
            256int
        } else {
            0int
        },
{
}

} // verus!
