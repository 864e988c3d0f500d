//! Cyclic index arithmetic: power-of-two capacities and indices that wrap around.

use vstd::prelude::*;

use vstd::arithmetic::power2;

verus! {

/// Number of distinct values of an index; indices that differ by it are the same machine word.
pub open spec fn index_range() -> int {
    usize::MAX + 1
}

/// Whether `cap` can be the length of a cyclic buffer: a power of two that an index can count to.
pub open spec fn is_capacity(cap: int) -> bool {
    power2::is_pow2(cap) && 1 <= cap <= isize::MAX
}

/// The machine index congruent to `i`.
pub open spec fn wrapped(i: int) -> int {
    if i > isize::MAX {
        i - index_range()
    } else if i < isize::MIN {
        i + index_range()
    } else {
        i
    }
}

/// A capacity divides the number of distinct index values.
pub proof fn lemma_range_is_multiple(cap: int)
    requires
        is_capacity(cap),
    ensures
        index_range() % cap == 0,
{
    power2::is_pow2_equiv(cap);
    let k = choose|k: nat| vstd::arithmetic::power::pow(2, k) == cap;
    power2::lemma2_to64();
    power2::lemma2_to64_rest();
    let bits: nat = if index_range() == power2::pow2(64) { 64 } else { 32 };
    assert(index_range() == power2::pow2(bits));
    if k >= bits {
        if k > bits {
            power2::lemma_pow2_strictly_increases(bits, k);
        }
        assert(false);
    }
    let d = (bits - k) as nat;
    power2::lemma_pow2_adds(k, d);
    let q = power2::pow2(d) as int;
    assert(index_range() == cap * q);
    assert((cap * q) % cap == 0) by {
        vstd::arithmetic::div_mod::lemma_mod_multiples_basic(q, cap);
        vstd::arithmetic::mul::lemma_mul_is_commutative(cap, q);
    }
}

/// Wrapping an index does not change the slot it denotes.
pub proof fn lemma_wrapped_slot(i: int, cap: int)
    requires
        is_capacity(cap),
    ensures
        wrapped(i) % cap == i % cap,
        (i + index_range()) % cap == i % cap,
        (i - index_range()) % cap == i % cap,
{
    lemma_range_is_multiple(cap);
    let q = index_range() / cap;
    vstd::arithmetic::div_mod::lemma_fundamental_div_mod(index_range(), cap);
    assert(index_range() == cap * q);
    vstd::arithmetic::mul::lemma_mul_is_commutative(cap, q);
    vstd::arithmetic::div_mod::lemma_mod_multiples_vanish(q, i, cap);
    vstd::arithmetic::div_mod::lemma_mod_multiples_vanish(-q, i, cap);
    assert((-q) * cap == -(q * cap)) by (nonlinear_arith);
    assert(cap * (-q) == -(cap * q)) by (nonlinear_arith);
}

/// Distinct indices less than a capacity apart denote distinct slots.
pub proof fn lemma_distinct_slots(i: int, j: int, cap: int)
    requires
        cap > 0,
        i < j < i + cap,
    ensures
        i % cap != j % cap,
{
    if i % cap == j % cap {
        vstd::arithmetic::div_mod::lemma_fundamental_div_mod(i, cap);
        vstd::arithmetic::div_mod::lemma_fundamental_div_mod(j, cap);
        let qi = i / cap;
        let qj = j / cap;
        assert(j - i == cap * (qj - qi)) by (nonlinear_arith)
            requires
                i == cap * qi + i % cap,
                j == cap * qj + j % cap,
                i % cap == j % cap,
        ;
        assert(false) by (nonlinear_arith)
            requires
                0 < j - i < cap,
                j - i == cap * (qj - qi),
        ;
    }
}

/// Doubling or halving a capacity gives a capacity while it stays in range.
pub proof fn lemma_double_half(cap: int)
    requires
        is_capacity(cap),
    ensures
        2 * cap <= isize::MAX ==> is_capacity(2 * cap),
        cap >= 2 ==> is_capacity(cap / 2) && cap == 2 * (cap / 2),
{
    reveal(power2::is_pow2);
}

/// The smallest ring and the smallest ring that shrinking leaves have valid capacities.
pub proof fn lemma_base_capacities()
    ensures
        is_capacity(1),
        is_capacity(16),
{
    reveal_with_fuel(power2::is_pow2, 6);
}

/// The slot of a logical index in a cyclic buffer of `cap` cells.
pub fn slot_of(index: isize, cap: usize) -> (slot: usize)
    requires
        is_capacity(cap as int),
    ensures
        slot as int == index as int % cap as int,
        slot < cap,
{
    let word = index as usize;
    let slot = word & (cap - 1);
    proof {
        let c = cap as int;
        power2::is_pow2_equiv(c);
        let k = choose|k: nat| vstd::arithmetic::power::pow(2, k) == c;
        power2::lemma2_to64();
        power2::lemma2_to64_rest();
        if k >= usize::BITS {
            if k > usize::BITS as nat {
                power2::lemma_pow2_strictly_increases(usize::BITS as nat, k);
            }
            assert(false);
        }
        vstd::bits::lemma_usize_low_bits_mask_is_mod(word, k);
        assert(vstd::bits::low_bits_mask(k) == c - 1);
        assert(slot == word % cap);
        assert(word as int == index as int || word as int == index + index_range()) by {
            if index < 0 {
                assert(index < 0 ==> (index as usize) + (-1 - index) == !0usize) by (bit_vector);
                let top = usize::MAX;
                assert(top <= !0usize) by (bit_vector);
            }
        }
        lemma_wrapped_slot(index as int, c);
        vstd::arithmetic::div_mod::lemma_mod_bound(index as int, c);
    }
    slot
}

/// The capacity `2^log`.
pub fn capacity_from_log(log: u32) -> (cap: usize)
    requires
        log < usize::BITS - 1,
    ensures
        cap == power2::pow2(log as nat),
        is_capacity(cap as int),
{
    let shift = log as usize;
    proof {
        power2::lemma2_to64();
        power2::lemma2_to64_rest();
        power2::lemma_pow2_pos(log as nat);
        let last = (usize::BITS - 2) as nat;
        if (log as nat) < last {
            power2::lemma_pow2_strictly_increases(log as nat, last);
        }
        vstd::bits::lemma_usize_shl_is_mul(1, shift);
        power2::is_pow2_equiv(power2::pow2(log as nat) as int);
        power2::lemma_pow2(log as nat);
    }
    1usize << shift
}

} // verus!
