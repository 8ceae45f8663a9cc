//! How many shards there are, and which of them a hash belongs to.

use vstd::arithmetic::power2::pow2;
use vstd::prelude::*;

verus! {

/// `amount` is the smallest power of two that is not below `least`.
pub open spec fn rounds_up(least: int, amount: int) -> bool {
    &&& exists|bits: nat| amount == #[trigger] pow2(bits)
    &&& least <= amount < 2 * least
}

/// The number of shards for a machine that runs `parallelism` threads at once: four for each
/// of them, rounded up to a power of two.
pub fn default_shard_amount(parallelism: usize) -> (amount: usize)
    requires
        1 <= parallelism,
        4 * parallelism <= usize::MAX / 2 + 1,
    ensures
        rounds_up(4 * parallelism, amount as int),
{
    let least: usize = parallelism * 4;
    let mut amount: usize = 1;
    let ghost mut bits: nat = 0;
    proof {
        vstd::arithmetic::power2::lemma2_to64();
    }
    while amount < least
        invariant
            amount == pow2(bits),
            4 <= least <= usize::MAX / 2 + 1,
            amount < 2 * least,
            least == 4 * parallelism,
        decreases 2 * least - amount,
    {
        proof {
            vstd::arithmetic::power2::lemma_pow2_pos(bits);
            vstd::arithmetic::power2::lemma_pow2_unfold(bits + 1);
            bits = bits + 1;
        }
        amount = amount * 2;
    }
    amount
}

/// By how much a hash is shifted to the right to give the number of one of `amount` shards.
pub fn shard_shift(amount: usize) -> (shift: u32)
    requires
        exists|bits: nat| amount == #[trigger] pow2(bits),
    ensures
        shift <= usize::BITS,
        amount == pow2((usize::BITS - shift) as nat),
{
    let ghost bits = choose|bits: nat| amount == #[trigger] pow2(bits);
    let mut left: usize = amount;
    let mut shift: u32 = usize::BITS;
    let ghost mut rest = bits;
    proof {
        vstd::arithmetic::power2::lemma2_to64();
        vstd::layout::unsigned_int_max_values();
        if bits > usize::BITS {
            vstd::arithmetic::power2::lemma_pow2_strictly_increases(usize::BITS as nat, bits);
        }
    }
    while left > 1
        invariant
            left == pow2(rest),
            rest <= bits < usize::BITS,
            shift == usize::BITS - (bits - rest),
        decreases left,
    {
        proof {
            if rest == 0 {
                vstd::arithmetic::power2::lemma2_to64();
            }
            vstd::arithmetic::power2::lemma_pow2_unfold(rest);
            rest = (rest - 1) as nat;
        }
        left = left / 2;
        shift = shift - 1;
    }
    proof {
        if rest > 0 {
            vstd::arithmetic::power2::lemma2_to64();
            vstd::arithmetic::power2::lemma_pow2_strictly_increases(0, rest);
        }
    }
    shift
}

/// The number of the shard that a hash belongs to. Of as much of the hash as fits in a word, the
/// seven topmost bits are left out: the table of the shard goes by them.
pub open spec fn shard_of(hash: u64, shift: u32) -> int {
    (hash * 128) % (usize::MAX + 1) / (pow2(shift as nat) as int)
}

/// Every hash belongs to one of the shards.
pub proof fn law_shard_exists(hash: u64, shift: u32)
    requires
        shift < usize::BITS,
    ensures
        0 <= shard_of(hash, shift) < pow2((usize::BITS - shift) as nat),
{
    let rest = (hash * 128) % (usize::MAX + 1);
    let unit = pow2(shift as nat) as int;
    let count = pow2((usize::BITS - shift) as nat) as int;
    vstd::arithmetic::power2::lemma_pow2_pos(shift as nat);
    vstd::layout::unsigned_int_max_values();
    vstd::arithmetic::power2::lemma_pow2_adds(shift as nat, (usize::BITS - shift) as nat);
    assert(0 <= rest / unit < count) by (nonlinear_arith)
        requires
            0 <= rest < unit * count,
            0 < unit,
    ;
}

/// Every shard is the shard of some hash, where the shift is no smaller than the number of bits that
/// are left out.
pub proof fn law_shard_has_hash(index: int, shift: u32)
    requires
        7 <= shift < usize::BITS,
        0 <= index < pow2((usize::BITS - shift) as nat),
    ensures
        exists|hash: u64| #[trigger] shard_of(hash, shift) == index,
{
    let small = pow2((shift - 7) as nat) as int;
    let unit = pow2(shift as nat) as int;
    let count = pow2((usize::BITS - shift) as nat) as int;
    vstd::arithmetic::power2::lemma2_to64();
    vstd::arithmetic::power2::lemma_pow2_pos((shift - 7) as nat);
    vstd::arithmetic::power2::lemma_pow2_adds((shift - 7) as nat, 7);
    vstd::arithmetic::power2::lemma_pow2_adds(shift as nat, (usize::BITS - shift) as nat);
    vstd::layout::unsigned_int_max_values();
    assert(0 <= index * small && index * small * 128 == index * unit && index * unit < unit * count)
        by (nonlinear_arith)
        requires
            0 <= index < count,
            0 < small,
            unit == small * 128,
    ;
    let hash = (index * small) as u64;
    assert(hash * 128 == index * unit);
    vstd::arithmetic::div_mod::lemma_small_mod((index * unit) as nat, (usize::MAX + 1) as nat);
    assert(index * unit / unit == index) by (nonlinear_arith)
        requires
            0 < unit,
    ;
    assert(shard_of(hash, shift) == index);
}

/// The number of the shard that a hash belongs to.
pub fn shard_index(hash: u64, shift: u32) -> (index: usize)
    requires
        shift < usize::BITS,
    ensures
        index == shard_of(hash, shift),
        index < pow2((usize::BITS - shift) as nat),
{
    let low: usize = #[verifier::truncate]
    (hash as usize);
    let high: usize = low << 7;
    proof {
        let most = usize::MAX;
        assert(most <= !0usize) by (bit_vector);
        assert(high == (hash * 128) % (!0usize + 1)) by (bit_vector)
            requires
                low == hash as usize,
                high == low << 7,
        ;
        vstd::bits::lemma_usize_shr_is_div(high, shift as usize);
        law_shard_exists(hash, shift);
    }
    high >> shift
}

} // verus!
