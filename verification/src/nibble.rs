//! Four-bit fields of a 32-bit word, the lowest first.

use vstd::prelude::*;
use vstd::slice::slice_subrange;

verus! {

/// The `n`-th four-bit field of a word.
pub open spec fn nibble(word: u32, n: int) -> u32 {
    (word >> ((4 * n) as u32)) & 0xF
}

/// Every field of `word` from the `n`-th on is zero.
spec fn clear_from(word: u32, n: u32) -> bool {
    n >= 8 || word >> (4 * n) as u32 == 0
}

/// Reads one field.
pub fn get_nibble(word: u32, n: u32) -> (r: u32)
    requires
        n < 8,
    ensures
        r == nibble(word, n as int),
        r < 16,
{
    let s: u32 = n * 4;
    let r: u32 = (word >> s) & 0xF;
    assert(((word >> s) & 0xF) < 16) by (bit_vector);
    r
}

proof fn lemma_put(word: u32, n: u32, q: u32, m: u32)
    requires
        n < 8,
        m < 8,
        q < 16,
        word >> (4 * n) as u32 == 0,
    ensures
        ({
            let w = word | (q << (4 * n) as u32);
            &&& (w >> (4 * m) as u32) & 0xF == if m == n {
                q
            } else {
                (word >> (4 * m) as u32) & 0xF
            }
            &&& n < 7 ==> w >> (4 * (n + 1)) as u32 == 0
        }),
{
    let s = (4 * n) as u32;
    let t = (4 * m) as u32;
    let w = word | (q << s);
    assert((w >> t) & 0xF == if s == t { q } else { (word >> t) & 0xF }) by (bit_vector)
        requires
            w == word | (q << s),
            s <= 28,
            t <= 28,
            s % 4 == 0,
            t % 4 == 0,
            q < 16,
            word >> s == 0,
    ;
    if n < 7 {
        let u = (4 * (n + 1)) as u32;
        assert(w >> u == 0) by (bit_vector)
            requires
                w == word | (q << s),
                s <= 24,
                u == s + 4,
                q < 16,
                word >> s == 0,
        ;
    }
}

/// Packs eight four-bit values into a word, the first one lowest.
pub fn pack_nibbles(q: &[u32]) -> (r: u32)
    requires
        q@.len() == 8,
        forall|n: int| 0 <= n < 8 ==> #[trigger] q@[n] < 16,
    ensures
        forall|n: int| 0 <= n < 8 ==> nibble(r, n) == #[trigger] q@[n],
{
    let mut word: u32 = 0;
    assert(0u32 >> 0u32 == 0) by (bit_vector);
    for n in 0..8u32
        invariant
            q@.len() == 8,
            forall|m: int| 0 <= m < 8 ==> #[trigger] q@[m] < 16,
            clear_from(word, n),
            forall|m: int| 0 <= m < n ==> nibble(word, m) == #[trigger] q@[m],
    {
        let s: u32 = n * 4;
        let v: u32 = q[n as usize];
        proof {
            assert forall|m: int| 0 <= m < n + 1 implies nibble(word | (v << s), m)
                == #[trigger] q@[m] by {
                lemma_put(word, n, v, m as u32);
            }
            lemma_put(word, n, v, n);
        }
        word = word | (v << s);
    }
    word
}

/// Appends the eight words that hold 64 four-bit values.
pub fn push_words(packed: &mut Vec<u32>, codes: &[u32])
    requires
        codes@.len() == 64,
        forall|j: int| 0 <= j < 64 ==> #[trigger] codes@[j] < 16,
    ensures
        final(packed)@.len() == old(packed)@.len() + 8,
        forall|i: int| 0 <= i < old(packed)@.len() ==> final(packed)@[i] == old(packed)@[i],
        forall|p: int, n: int|
            0 <= p < 8 && 0 <= n < 8 ==> #[trigger] nibble(final(packed)@[old(packed)@.len() + p], n)
                == codes@[p * 8 + n],
{
    let ghost before = packed@;
    for p in 0..8usize
        invariant
            codes@.len() == 64,
            forall|j: int| 0 <= j < 64 ==> #[trigger] codes@[j] < 16,
            packed@.len() == before.len() + p,
            forall|i: int| 0 <= i < before.len() ==> packed@[i] == before[i],
            forall|i: int, n: int|
                0 <= i < p && 0 <= n < 8 ==> #[trigger] nibble(packed@[before.len() + i], n)
                    == codes@[i * 8 + n],
    {
        let word: u32 = pack_nibbles(slice_subrange(codes, p * 8, p * 8 + 8));
        assert forall|n: int| 0 <= n < 8 implies #[trigger] nibble(word, n) == codes@[p * 8 + n] by {
            assert(codes@.subrange(p * 8, p * 8 + 8)[n] == codes@[p * 8 + n]);
        }
        packed.push(word);
    }
}

/// The fields of a word are its digits in base sixteen, the lowest first.
pub proof fn law_nibbles(word: u32)
    ensures
        forall|n: int| 0 <= n < 8 ==> #[trigger] nibble(word, n) < 16,
        word == nibble(word, 0) + 16 * nibble(word, 1) + 256 * nibble(word, 2) + 4096 * nibble(
            word,
            3,
        ) + 65536 * nibble(word, 4) + 1048576 * nibble(word, 5) + 16777216 * nibble(word, 6)
            + 268435456 * nibble(word, 7),
{
    assert forall|n: int| 0 <= n < 8 implies #[trigger] nibble(word, n) < 16 by {
        let s = (4 * n) as u32;
        assert(((word >> s) & 0xF) < 16) by (bit_vector);
    }
    assert(word == ((word >> 0u32) & 0xF) + 16 * ((word >> 4u32) & 0xF) + 256 * ((word >> 8u32)
        & 0xF) + 4096 * ((word >> 12u32) & 0xF) + 65536 * ((word >> 16u32) & 0xF) + 1048576 * ((word
        >> 20u32) & 0xF) + 16777216 * ((word >> 24u32) & 0xF) + 268435456 * ((word >> 28u32) & 0xF))
        by (bit_vector);
}

} // verus!
