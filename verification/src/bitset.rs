//! One bit per pixel, packed into 64-bit words.
use vstd::prelude::*;

verus! {

/// Bit `idx` of the packed words.
#[verifier::opaque]
pub open spec fn bit_at(words: Seq<u64>, idx: int) -> bool {
    (words[idx / 64] & (1u64 << ((idx % 64) as u64))) != 0
}

/// Reads bit `idx`.
pub fn get_bit(bitset: &[u64], idx: usize) -> (set: bool)
    requires
        idx < 64 * bitset.len(),
    ensures
        set == bit_at(bitset@, idx as int),
{
    let word: usize = idx / 64;
    let bit: u64 = (idx % 64) as u64;
    proof {
        reveal(bit_at);
    }
    (bitset[word] & (1u64 << bit)) != 0
}

/// Sets bit `idx` and leaves every other bit as it was.
pub fn set_bit(bitset: &mut [u64], idx: usize)
    requires
        idx < 64 * old(bitset).len(),
    ensures
        final(bitset)@.len() == old(bitset)@.len(),
        bit_at(final(bitset)@, idx as int),
        forall|n: int|
            0 <= n < 64 * old(bitset)@.len() && n != idx ==> #[trigger] bit_at(final(bitset)@, n)
                == bit_at(old(bitset)@, n),
{
    let word: usize = idx / 64;
    let bit: u64 = (idx % 64) as u64;
    bitset[word] = bitset[word] | (1u64 << bit);
    proof {
        lemma_with_bit(old(bitset)@, idx as int);
        assert(bitset@ =~= with_bit(old(bitset)@, idx as int));
    }
}

/// The words with bit `idx` set.
pub open spec fn with_bit(words: Seq<u64>, idx: int) -> Seq<u64> {
    words.update(idx / 64, words[idx / 64] | (1u64 << ((idx % 64) as u64)))
}

/// Setting a bit sets that bit and no other.
proof fn lemma_with_bit(words: Seq<u64>, idx: int)
    requires
        0 <= idx < 64 * words.len(),
    ensures
        bit_at(with_bit(words, idx), idx),
        forall|n: int|
            0 <= n < 64 * words.len() && n != idx ==> #[trigger] bit_at(with_bit(words, idx), n)
                == bit_at(words, n),
{
    reveal(bit_at);
    let bit = (idx % 64) as u64;
    let before = words[idx / 64];
    let after = before | (1u64 << bit);
    assert((after & (1u64 << bit)) != 0) by (bit_vector)
        requires
            after == before | (1u64 << bit),
            bit < 64,
    ;
    assert forall|n: int| 0 <= n < 64 * words.len() && n != idx implies #[trigger] bit_at(
        with_bit(words, idx),
        n,
    ) == bit_at(words, n) by {
        if n / 64 == idx / 64 {
            let other = (n % 64) as u64;
            assert((after & (1u64 << other)) == (before & (1u64 << other))) by (bit_vector)
                requires
                    after == before | (1u64 << bit),
                    bit < 64,
                    other < 64,
                    bit != other,
            ;
        }
    }
}

/// Clears every bit.
pub fn clear_bits(bitset: &mut [u64])
    ensures
        final(bitset)@.len() == old(bitset)@.len(),
        forall|n: int| 0 <= n < 64 * old(bitset)@.len() ==> !#[trigger] bit_at(final(bitset)@, n),
{
    let len: usize = bitset.len();
    let mut i: usize = 0;
    while i < len
        invariant
            len == bitset@.len(),
            len == old(bitset)@.len(),
            i <= len,
            forall|j: int| 0 <= j < i ==> bitset@[j] == 0,
        decreases len - i,
    {
        bitset[i] = 0;
        i += 1;
    }
    proof {
        reveal(bit_at);
        assert forall|n: int| 0 <= n < 64 * old(bitset)@.len() implies !#[trigger] bit_at(
            bitset@,
            n,
        ) by {
            let bit = (n % 64) as u64;
            assert(0u64 & (1u64 << bit) == 0) by (bit_vector);
        }
    }
}

/// The words hold exactly the bits of `bits`.
pub open spec fn holds_bits(words: Seq<u64>, bits: Set<int>) -> bool {
    forall|n: int| 0 <= n < 64 * words.len() ==> #[trigger] bit_at(words, n) == bits.contains(n)
}

/// `len` words that hold exactly the bits of `bits`.
pub open spec fn packed(bits: Set<int>, len: nat) -> Seq<u64> {
    choose|words: Seq<u64>| words.len() == len && holds_bits(words, bits)
}

/// Words that agree in every bit from the `k`-th on agree when shifted by `k`.
proof fn lemma_high_bits(x: u64, y: u64, k: u64)
    requires
        k < 64,
        forall|b: u64| b < 64 ==> (x & (1u64 << b) != 0) == (y & #[trigger] (1u64 << b) != 0),
    ensures
        x >> k == y >> k,
    decreases 64 - k,
{
    assert((x & (1u64 << k) != 0) == (y & (1u64 << k) != 0));
    if k == 63 {
        assert(x >> k == y >> k) by (bit_vector)
            requires
                k == 63,
                (x & (1u64 << k) != 0) == (y & (1u64 << k) != 0),
        ;
    } else {
        let above: u64 = (k + 1) as u64;
        lemma_high_bits(x, y, above);
        assert(x >> k == y >> k) by (bit_vector)
            requires
                k < 63,
                above == k + 1,
                x >> above == y >> above,
                (x & (1u64 << k) != 0) == (y & (1u64 << k) != 0),
        ;
    }
}

/// Words with the same bits are the same words.
pub proof fn lemma_same_bits(a: Seq<u64>, b: Seq<u64>)
    requires
        a.len() == b.len(),
        forall|n: int| 0 <= n < 64 * a.len() ==> #[trigger] bit_at(a, n) == bit_at(b, n),
    ensures
        a == b,
{
    reveal(bit_at);
    assert forall|i: int| 0 <= i < a.len() implies a[i] == b[i] by {
        let x = a[i];
        let y = b[i];
        assert forall|k: u64| k < 64 implies (x & (1u64 << k) != 0) == (y & #[trigger] (1u64 << k)
            != 0) by {
            let n = 64 * i + k;
            assert(n / 64 == i && n % 64 == k);
            assert(bit_at(a, n) == bit_at(b, n));
        }
        lemma_high_bits(x, y, 0);
        assert(x >> 0u64 == x && y >> 0u64 == y) by (bit_vector);
    }
    assert(a =~= b);
}

/// Words that hold those of the bits that come before position `upto`.
proof fn lemma_pack_upto(bits: Set<int>, len: nat, upto: int) -> (words: Seq<u64>)
    requires
        0 <= upto <= 64 * len,
    ensures
        words.len() == len,
        forall|n: int|
            0 <= n < 64 * len ==> #[trigger] bit_at(words, n) == (n < upto && bits.contains(n)),
    decreases upto,
{
    if upto == 0 {
        reveal(bit_at);
        let words = Seq::new(len, |i: int| 0u64);
        assert forall|n: int| 0 <= n < 64 * len implies !#[trigger] bit_at(words, n) by {
            let bit = (n % 64) as u64;
            assert(0u64 & (1u64 << bit) == 0) by (bit_vector);
        }
        words
    } else {
        let words = lemma_pack_upto(bits, len, upto - 1);
        if bits.contains(upto - 1) {
            lemma_with_bit(words, upto - 1);
            with_bit(words, upto - 1)
        } else {
            words
        }
    }
}

/// Any bits can be packed.
pub proof fn lemma_packed_holds(bits: Set<int>, len: nat)
    ensures
        packed(bits, len).len() == len,
        holds_bits(packed(bits, len), bits),
{
    let words = lemma_pack_upto(bits, len, 64 * len as int);
    assert(holds_bits(words, bits));
}

/// Words are packed from the bits that they hold.
pub proof fn lemma_packed(words: Seq<u64>, bits: Set<int>)
    requires
        holds_bits(words, bits),
    ensures
        words == packed(bits, words.len()),
{
    let other = packed(bits, words.len());
    assert(other.len() == words.len() && holds_bits(other, bits));
    lemma_same_bits(words, other);
}

} // verus!
