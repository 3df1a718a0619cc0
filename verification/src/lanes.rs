//! Packing small codes into the bits of a word.
use vstd::prelude::*;
use vstd::arithmetic::power2::{lemma_pow2_adds, lemma_pow2_pos, pow2};
use vstd::bits::{lemma_u64_shl_is_mul, lemma_u64_pow2_no_overflow};

verus! {

/// Adding a code below 32 above the `k` bits that `acc` uses.
pub proof fn lemma_pack_step(acc: u64, x: u8, k: u64)
    requires
        k <= 55,
        x < 32,
        acc < pow2(k as nat),
    ensures
        acc | ((x as u64) << k) == acc + x * pow2(k as nat),
        acc + x * pow2(k as nat) < pow2((k + 5) as nat),
{
    lemma_pow2_adds(k as nat, 5);
    lemma_pow2_pos(k as nat);
    assert(pow2(5) == 32) by {
        vstd::arithmetic::power2::lemma2_to64();
    }
    lemma_u64_pow2_no_overflow((k + 5) as nat);
    assert(x * pow2(k as nat) <= 31 * pow2(k as nat)) by (nonlinear_arith)
        requires x < 32;
    assert((x as u64) * pow2(k as nat) <= u64::MAX);
    lemma_u64_shl_is_mul(x as u64, k);
    lemma_u64_shl_is_mul(1u64, k);
    assert(acc < (1u64 << k));
    let xs = (x as u64) << k;
    assert(acc | xs == acc + xs) by (bit_vector)
        requires
            acc < (1u64 << k),
            k <= 55,
            x < 32,
            xs == (x as u64) << k;
}

/// Codes below 32 packed five bits each fit in five bits per code.
pub proof fn lemma_pack_bound(a: Seq<u8>, n: int)
    requires
        0 <= n <= a.len(),
        n <= 12,
        forall|i: int| 0 <= i < n ==> (#[trigger] a[i]) < 32,
    ensures
        0 <= crate::corners::pack_upto(a, n) < pow2((5 * n) as nat),
    decreases n,
{
    lemma_pow2_pos((5 * n) as nat);
    if n > 0 {
        lemma_pack_bound(a, n - 1);
        let k = (5 * (n - 1)) as nat;
        lemma_pow2_adds(k, 5);
        assert(pow2(5) == 32) by {
            vstd::arithmetic::power2::lemma2_to64();
        }
        assert(a[n - 1] * pow2(k) <= 31 * pow2(k)) by (nonlinear_arith)
            requires a[n - 1] < 32;
    }
}

/// Codes below 32 packed five bits each are told apart by the packing: the
/// same word means the same codes.
pub proof fn law_pack_injective(a: Seq<u8>, b: Seq<u8>, n: int)
    requires
        0 <= n <= a.len(),
        n <= b.len(),
        n <= 12,
        forall|i: int| 0 <= i < n ==> (#[trigger] a[i]) < 32,
        forall|i: int| 0 <= i < n ==> (#[trigger] b[i]) < 32,
        crate::corners::pack_upto(a, n) == crate::corners::pack_upto(b, n),
    ensures
        a.take(n) == b.take(n),
    decreases n,
{
    if n > 0 {
        let p = pow2((5 * (n - 1)) as nat);
        lemma_pow2_pos((5 * (n - 1)) as nat);
        lemma_pack_bound(a, n - 1);
        lemma_pack_bound(b, n - 1);
        let x = crate::corners::pack_upto(a, n);
        vstd::arithmetic::mul::lemma_mul_is_commutative(a[n - 1] as int, p as int);
        vstd::arithmetic::mul::lemma_mul_is_commutative(b[n - 1] as int, p as int);
        vstd::arithmetic::div_mod::lemma_fundamental_div_mod_converse(x, p as int, a[n - 1] as int, crate::corners::pack_upto(a, n - 1));
        vstd::arithmetic::div_mod::lemma_fundamental_div_mod_converse(x, p as int, b[n - 1] as int, crate::corners::pack_upto(b, n - 1));
        law_pack_injective(a, b, n - 1);
        assert(a.take(n) =~= a.take(n - 1).push(a[n - 1]));
        assert(b.take(n) =~= b.take(n - 1).push(b[n - 1]));
    }
}

/// Two packed words side by side: the low one below `2^40`.
pub proof fn lemma_pack_join(c: u64, e: u64)
    requires
        c < pow2(40),
        e < pow2(60),
    ensures
        (c as u128) | ((e as u128) << 40) == c + e * pow2(40),
{
    vstd::arithmetic::power2::lemma2_to64();
    vstd::arithmetic::power2::lemma2_to64_rest();
    assert(pow2(40) == 0x100_0000_0000);
    assert(pow2(60) == 0x1000_0000_0000_0000);
    assert((c as u128) | ((e as u128) << 40) == (c as u128) + (e as u128) * 0x100_0000_0000u128) by (bit_vector)
        requires
            c < 0x100_0000_0000u64,
            e < 0x1000_0000_0000_0000u64;
}

} // verus!
