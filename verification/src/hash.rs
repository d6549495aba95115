//! FxHash: a fast, non-cryptographic hash. Each word is mixed in by rotating the state,
//! xoring the word in, and multiplying by a fixed odd constant.
//!
//! Zeros always hash to zero, so all sequences holding only zeros collide; hashing
//! variable-length structures with it is unwise.
use vstd::prelude::*;

verus! {

/// The multiplier.
pub const FX_SEED: u64 = 0x517c_c1b7_2722_0a95;

/// The rotation, in bits, applied to the state before each word.
pub const FX_ROTATE: u64 = 5;

/// 256 to the power `n`.
pub open spec fn pow256(n: nat) -> nat
    decreases n,
{
    if n == 0 {
        1
    } else {
        256 * pow256((n - 1) as nat)
    }
}

/// The little-endian number of the bytes.
pub open spec fn le_word(bytes: Seq<u8>) -> nat
    decreases bytes.len(),
{
    if bytes.len() == 0 {
        0
    } else {
        le_word(bytes.drop_last()) + bytes.last() as nat * pow256((bytes.len() - 1) as nat)
    }
}

/// The state `h` rotated left by `FX_ROTATE` bits.
pub open spec fn rotl(h: u64) -> u64 {
    (h << 5u64) | (h >> 59u64)
}

/// The state after mixing in the word `i`.
pub open spec fn fx_add(h: u64, i: u64) -> u64 {
    (((rotl(h) ^ i) as nat * FX_SEED as nat) % 0x1_0000_0000_0000_0000) as u64
}

/// The state after mixing in `bytes`: each full 8-byte chunk, little-endian, then the rest
/// padded with zeros, if any is left.
pub open spec fn fx_write(h: u64, bytes: Seq<u8>) -> u64
    decreases bytes.len(),
{
    if bytes.len() == 0 {
        h
    } else if bytes.len() >= 8 {
        fx_write(fx_add(h, le_word(bytes.take(8)) as u64), bytes.skip(8))
    } else {
        fx_add(h, le_word(bytes) as u64)
    }
}

proof fn lemma_le_word_bound(bytes: Seq<u8>)
    ensures
        le_word(bytes) < pow256(bytes.len()),
    decreases bytes.len(),
{
    if bytes.len() > 0 {
        let n = (bytes.len() - 1) as nat;
        lemma_le_word_bound(bytes.drop_last());
        let a = le_word(bytes.drop_last());
        let b = bytes.last() as nat;
        let p = pow256(n);
        assert(a + b * p < 256 * p) by (nonlinear_arith)
            requires a < p, b < 256;
    }
}

/// Zeros hash to zero: from the initial state, any run of zero bytes leaves the state at
/// zero, so all byte strings of zeros collide.
pub proof fn lemma_zeros_hash_to_zero(bytes: Seq<u8>)
    requires
        forall|j: int| 0 <= j < bytes.len() ==> bytes[j] == 0,
    ensures
        fx_write(0, bytes) == 0,
    decreases bytes.len(),
{
    assert(rotl(0) == 0) by (bit_vector);
    assert(0u64 ^ 0u64 == 0) by (bit_vector);
    if bytes.len() >= 8 {
        lemma_zero_word(bytes.take(8));
        lemma_zeros_hash_to_zero(bytes.skip(8));
    } else if bytes.len() > 0 {
        lemma_zero_word(bytes);
    }
}

/// Zero bytes make the word zero.
proof fn lemma_zero_word(bytes: Seq<u8>)
    requires
        forall|j: int| 0 <= j < bytes.len() ==> bytes[j] == 0,
    ensures
        le_word(bytes) == 0,
    decreases bytes.len(),
{
    if bytes.len() > 0 {
        lemma_zero_word(bytes.drop_last());
    }
}

/// The FxHash state.
#[derive(Default)]
pub struct FxHasher {
    hash: u64,
}

impl FxHasher {
    /// The state.
    pub closed spec fn state(&self) -> u64 {
        self.hash
    }

    /// A hasher in the initial state, zero.
    pub fn new() -> (h: FxHasher)
        ensures
            h.state() == 0,
    {
        FxHasher { hash: 0 }
    }

    /// Mixes in one word.
    fn add(&mut self, i: u64)
        ensures
            final(self).state() == fx_add(old(self).state(), i),
    {
        let h = self.hash;
        let rotated = (h << 5u64) | (h >> 59u64);
        self.hash = (rotated ^ i).wrapping_mul(FX_SEED);
    }

    /// The hash of what was written.
    pub fn finish_hash(&self) -> (r: u64)
        ensures
            r == self.state(),
    {
        self.hash
    }

    /// Mixes in a word.
    pub fn write_word(&mut self, i: u64)
        ensures
            final(self).state() == fx_add(old(self).state(), i),
    {
        self.add(i);
    }

    /// Mixes in bytes: each full 8-byte chunk read little-endian, then the remainder
    /// padded with zeros.
    pub fn write_bytes(&mut self, bytes: &[u8])
        ensures
            final(self).state() == fx_write(old(self).state(), bytes@),
    {
        let n = bytes.len();
        let mut pos: usize = 0;
        assert(bytes@.skip(0) =~= bytes@);
        while pos < n
            invariant
                pos <= n,
                n == bytes@.len(),
                fx_write(self.state(), bytes@.skip(pos as int)) == fx_write(old(self).state(), bytes@),
            decreases n - pos,
        {
            let end = if n - pos >= 8 { pos + 8 } else { n };
            // The chunk's little-endian number.
            let mut w: u64 = 0;
            let mut p: u64 = 1;
            let mut j: usize = pos;
            let ghost chunk = bytes@.subrange(pos as int, end as int);
            while j < end
                invariant
                    pos <= j <= end,
                    end <= n,
                    n == bytes@.len(),
                    end - pos <= 8,
                    chunk == bytes@.subrange(pos as int, end as int),
                    w as nat == le_word(chunk.take(j - pos)),
                    j < end ==> p as nat == pow256((j - pos) as nat),
                    j - pos < 8 ==> p <= 0x0100_0000_0000_0000,
                decreases end - j,
            {
                proof {
                    lemma_le_word_bound(chunk.take(j - pos));
                    let t = chunk.take(j - pos + 1);
                    assert(t.drop_last() =~= chunk.take(j - pos));
                    assert(t.last() == bytes@[j as int]);
                    let a = w as nat;
                    let b = bytes@[j as int] as nat;
                    let q = p as nat;
                    assert(a + b * q < 256 * q) by (nonlinear_arith)
                        requires a < q, b < 256;
                    assert(256 * q <= 0x1_0000_0000_0000_0000) by (nonlinear_arith)
                        requires q <= 0x0100_0000_0000_0000;
                    if j - pos < 7 {
                        assert(q <= 0x0001_0000_0000_0000) by {
                            lemma_pow_small((j - pos) as nat);
                        }
                    }
                }
                w = w + (bytes[j] as u64) * p;
                if j + 1 < end {
                    p = p * 256;
                }
                j = j + 1;
            }
            proof {
                assert(chunk.take(end - pos) =~= chunk);
                let rest = bytes@.skip(pos as int);
                if end - pos == 8 {
                    assert(rest.take(8) =~= chunk);
                    assert(rest.skip(8) =~= bytes@.skip(end as int));
                } else {
                    assert(rest =~= chunk);
                    assert(bytes@.skip(end as int) =~= Seq::<u8>::empty());
                }
            }
            self.add(w);
            pos = end;
        }
    }
}

proof fn lemma_pow_values()
    ensures
        pow256(6) == 0x0001_0000_0000_0000,
        pow256(8) == 0x1_0000_0000_0000_0000,
{
    assert(pow256(0) == 1);
    assert(pow256(1) == 0x100);
    assert(pow256(2) == 0x1_0000);
    assert(pow256(3) == 0x100_0000);
    assert(pow256(4) == 0x1_0000_0000);
    assert(pow256(5) == 0x100_0000_0000);
    assert(pow256(6) == 0x1_0000_0000_0000);
    assert(pow256(7) == 0x100_0000_0000_0000);
    assert(pow256(8) == 0x1_0000_0000_0000_0000);
}

proof fn lemma_pow_small(k: nat)
    requires
        k < 7,
    ensures
        pow256(k) <= 0x0001_0000_0000_0000,
{
    lemma_pow_values();
    lemma_pow_mono(k, 6);
}

proof fn lemma_pow_mono(a: nat, b: nat)
    requires
        a <= b,
    ensures
        pow256(a) <= pow256(b),
    decreases b,
{
    if a < b {
        lemma_pow_mono(a, (b - 1) as nat);
    }
}

impl std::hash::Hasher for FxHasher {
    /// The hash of what was written: the state.
    fn finish(&self) -> (r: u64)
        ensures
            r == self.state(),
    {
        self.finish_hash()
    }

    /// Mixes in bytes, as `write_bytes` does.
    fn write(&mut self, bytes: &[u8])
        ensures
            final(self).state() == fx_write(old(self).state(), bytes@),
    {
        self.write_bytes(bytes);
    }

    /// Mixes in the byte as one word.
    fn write_u8(&mut self, i: u8)
        ensures
            final(self).state() == fx_add(old(self).state(), i as u64),
    {
        self.add(i as u64);
    }

    /// Mixes in the number as one word.
    fn write_u32(&mut self, i: u32)
        ensures
            final(self).state() == fx_add(old(self).state(), i as u64),
    {
        self.add(i as u64);
    }

    /// Mixes in the number as one word.
    fn write_u64(&mut self, i: u64)
        ensures
            final(self).state() == fx_add(old(self).state(), i),
    {
        self.add(i);
    }

    /// Mixes in the number as one word.
    fn write_usize(&mut self, i: usize)
        ensures
            final(self).state() == fx_add(old(self).state(), i as u64),
    {
        self.add(i as u64);
    }
}

/// Builds FxHash hashers, each in the initial state.
#[derive(Default, Clone)]
pub struct FxBuildHasher;

impl std::hash::BuildHasher for FxBuildHasher {
    type Hasher = FxHasher;

    /// A hasher in the initial state, zero.
    fn build_hasher(&self) -> (h: FxHasher)
        ensures
            h.state() == 0,
    {
        FxHasher::new()
    }
}

} // verus!
