//! Powers of two and low-bit congruences, the arithmetic behind hash
//! routing and the extendible-hashing depth invariant.

use vstd::prelude::*;

use vstd::arithmetic::div_mod::lemma_fundamental_div_mod;
use vstd::arithmetic::div_mod::lemma_mod_bound;
use vstd::arithmetic::div_mod::lemma_mod_breakdown;
use vstd::arithmetic::div_mod::lemma_mod_mod;
use vstd::arithmetic::power2::lemma_pow2_adds;
use vstd::arithmetic::power2::lemma_pow2_pos;
use vstd::arithmetic::power2::pow2;
use vstd::bits::lemma_u64_pow2_no_overflow;
use vstd::bits::lemma_u64_shl_is_mul;
use vstd::bits::lemma_usize_pow2_no_overflow;
use vstd::bits::lemma_usize_shl_is_mul;

verus! {

/// `2^d` as a machine word.
pub fn pow2_u64(d: u32) -> (r: u64)
    requires
        d < 64,
    ensures
        r == pow2(d as nat),
        r >= 1,
{
    proof {
        lemma_u64_pow2_no_overflow(d as nat);
        lemma_u64_shl_is_mul(1u64, d as u64);
        lemma_pow2_pos(d as nat);
    }
    1u64 << d
}

/// `2^d` as a machine size.
pub fn pow2_usize(d: u32) -> (r: usize)
    requires
        d < 32,
    ensures
        r == pow2(d as nat),
        r >= 1,
{
    proof {
        lemma_usize_pow2_no_overflow(d as nat);
        lemma_usize_shl_is_mul(1usize, d as usize);
        lemma_pow2_pos(d as nat);
    }
    1usize << (d as usize)
}

/// `i` and `j` agree on their low `d` bits.
pub open spec fn cong(i: int, j: int, d: nat) -> bool {
    i % (pow2(d) as int) == j % (pow2(d) as int)
}

/// Bit `d` of `x`.
pub open spec fn bit_at(x: int, d: nat) -> int {
    (x / (pow2(d) as int)) % 2
}

/// Agreement on `d2` low bits implies agreement on `d1 <= d2` of them.
pub proof fn lemma_cong_weaken(i: int, j: int, d1: nat, d2: nat)
    requires
        d1 <= d2,
        cong(i, j, d2),
    ensures
        cong(i, j, d1),
{
    lemma_pow2_adds(d1, (d2 - d1) as nat);
    lemma_pow2_pos(d1);
    lemma_pow2_pos((d2 - d1) as nat);
    lemma_mod_mod(i, pow2(d1) as int, pow2((d2 - d1) as nat) as int);
    lemma_mod_mod(j, pow2(d1) as int, pow2((d2 - d1) as nat) as int);
}

/// The low `d + 1` bits of `x` are bit `d` atop the low `d` bits.
pub proof fn lemma_mod_succ_decompose(x: int, d: nat)
    requires
        x >= 0,
    ensures
        x % (pow2(d + 1) as int) == (pow2(d) as int) * bit_at(x, d) + x % (pow2(d) as int),
{
    lemma_pow2_adds(d, 1);
    lemma_pow2_pos(d);
    assert(pow2(1) == 2) by {
        vstd::arithmetic::power2::lemma2_to64();
    }
    lemma_mod_breakdown(x, pow2(d) as int, 2);
}

/// Two numbers agree on `d + 1` low bits exactly when they agree on
/// `d` of them and on bit `d`.
pub proof fn lemma_cong_succ(i: int, j: int, d: nat)
    requires
        i >= 0,
        j >= 0,
    ensures
        cong(i, j, d + 1) <==> (cong(i, j, d) && bit_at(i, d) == bit_at(j, d)),
{
    lemma_mod_succ_decompose(i, d);
    lemma_mod_succ_decompose(j, d);
    lemma_pow2_pos(d);
    lemma_pow2_pos(d + 1);
    lemma_mod_bound(i, pow2(d) as int);
    lemma_mod_bound(j, pow2(d) as int);
    lemma_mod_bound(i / (pow2(d) as int), 2);
    lemma_mod_bound(j / (pow2(d) as int), 2);
    let p = pow2(d) as int;
    let bi = bit_at(i, d);
    let bj = bit_at(j, d);
    assert(0 <= bi <= 1);
    assert(0 <= bj <= 1);
    assert(p * 0 == 0);
    assert(p * 1 == p);
    if cong(i, j, d + 1) {
        if bi != bj {
            assert(p * bi + i % p != p * bj + j % p);
            assert(false);
        }
    }
}

/// A number agrees with its remainder at `2^g` on the low `g` bits.
pub proof fn lemma_mod_mod_pow2(x: int, g: nat)
    ensures
        cong(x, x % (pow2(g) as int), g),
{
    lemma_pow2_pos(g);
    vstd::arithmetic::div_mod::lemma_mod_twice(x, pow2(g) as int);
}

/// A number below `2^d` is its own remainder modulo `2^d`.
pub proof fn lemma_small_mod_self(x: int, d: nat)
    requires
        0 <= x < pow2(d),
    ensures
        x % (pow2(d) as int) == x,
{
    lemma_pow2_pos(d);
    vstd::arithmetic::div_mod::lemma_small_mod(x as nat, pow2(d));
}

/// Subtracting `2^d` from a number in the upper half of `[0, 2^(d+1))`
/// leaves its low `d` bits alone.
pub proof fn lemma_upper_half_mod(x: int, d: nat)
    requires
        pow2(d) <= x < pow2(d + 1),
    ensures
        x % (pow2(d) as int) == x - pow2(d),
        (x - pow2(d)) % (pow2(d) as int) == x - pow2(d),
{
    lemma_pow2_pos(d);
    lemma_pow2_adds(d, 1);
    assert(pow2(1) == 2) by {
        vstd::arithmetic::power2::lemma2_to64();
    }
    assert(0 <= x - pow2(d) < pow2(d));
    lemma_small_mod_self(x - pow2(d) as int, d);
    vstd::arithmetic::div_mod::lemma_mod_sub_multiples_vanish(x, pow2(d) as int);
}

} // verus!
