//! Key prefixes: the top `l` bits of a `w`-bit key, and the facts about them
//! that the trie's level indexes rest on.
use vstd::arithmetic::div_mod::*;
use vstd::arithmetic::mul::lemma_mul_inequality;
use vstd::arithmetic::power2::*;
use vstd::bits::lemma_u64_shr_is_div;
use vstd::prelude::*;

verus! {

/// The prefix of key `k` at level `l` of a trie of width `w`: its top `l` bits.
pub open spec fn prefix(k: int, w: nat, l: nat) -> int {
    k / (pow2((w - l) as nat) as int)
}

/// The number of bits needed to write `n`.
pub open spec fn bit_len(n: nat) -> nat
    decreases n,
{
    if n == 0 {
        0
    } else {
        1 + bit_len(n / 2)
    }
}

pub proof fn lemma_bit_len_bound(n: nat)
    ensures
        n < pow2(bit_len(n)),
    decreases n,
{
    reveal(pow2);
    lemma2_to64();
    if n > 0 {
        lemma_bit_len_bound(n / 2);
        lemma_pow2_unfold(bit_len(n));
    }
}

pub proof fn lemma_bit_len_at_most(n: nat, e: nat)
    requires
        n < pow2(e),
    ensures
        bit_len(n) <= e,
    decreases n,
{
    lemma2_to64();
    if n > 0 {
        if e == 0 {
            assert(false);
        } else {
            lemma_pow2_unfold(e);
            lemma_bit_len_at_most(n / 2, (e - 1) as nat);
        }
    }
}

pub proof fn lemma_prefix_full(k: int, w: nat)
    ensures
        prefix(k, w, w) == k,
{
    lemma2_to64();
    assert((w - w) as nat == 0);
    assert(pow2(0) as int == 1);
    assert(k / 1 == k);
}

pub proof fn lemma_prefix_root(k: int, w: nat)
    requires
        0 <= k < pow2(w),
    ensures
        prefix(k, w, 0) == 0,
{
    lemma_basic_div(k, pow2(w) as int);
}

pub proof fn lemma_prefix_nonneg(k: int, w: nat, l: nat)
    requires
        0 <= k,
    ensures
        0 <= prefix(k, w, l) <= k,
{
    lemma_pow2_pos((w - l) as nat);
    lemma_div_pos_is_pos(k, pow2((w - l) as nat) as int);
    lemma_div_is_ordered_by_denominator(k, 1, pow2((w - l) as nat) as int);
}

/// The prefix at level `l` of a `w`-bit key has `l` bits.
pub proof fn lemma_prefix_bound(k: int, w: nat, l: nat)
    requires
        0 <= k < pow2(w),
        l <= w,
    ensures
        0 <= prefix(k, w, l) < pow2(l),
{
    let d = pow2((w - l) as nat) as int;
    lemma_pow2_pos((w - l) as nat);
    lemma_pow2_adds(l, (w - l) as nat);
    assert(l + (w - l) as nat == w);
    lemma_fundamental_div_mod(k, d);
    lemma_mod_pos_bound(k, d);
    lemma_prefix_nonneg(k, w, l);
    if k / d >= pow2(l) {
        lemma_mul_inequality(pow2(l) as int, k / d, d);
        assert(pow2(l) as int * d == pow2(w) as int);
        assert(false);
    }
}

/// One level up halves the prefix; one level down appends one bit.
pub proof fn lemma_prefix_parent(k: int, w: nat, l: nat)
    requires
        0 <= k,
        l < w,
    ensures
        prefix(k, w, l) == prefix(k, w, l + 1) / 2,
        prefix(k, w, l + 1) == 2 * prefix(k, w, l) + prefix(k, w, l + 1) % 2,
{
    let a = pow2((w - (l + 1)) as nat) as int;
    lemma_pow2_pos((w - (l + 1)) as nat);
    lemma_pow2_unfold((w - l) as nat);
    assert(pow2((w - l) as nat) as int == a * 2);
    lemma_div_denominator(k, a, 2);
    lemma_fundamental_div_mod(prefix(k, w, l + 1), 2);
}

/// Keys that agree at a level agree at every level above it.
pub proof fn lemma_prefix_coarsen(a: int, b: int, w: nat, m: nat, l: nat)
    requires
        0 <= a,
        0 <= b,
        m <= l <= w,
        prefix(a, w, l) == prefix(b, w, l),
    ensures
        prefix(a, w, m) == prefix(b, w, m),
    decreases l - m,
{
    if m < l {
        lemma_prefix_parent(a, w, (l - 1) as nat);
        lemma_prefix_parent(b, w, (l - 1) as nat);
        lemma_prefix_coarsen(a, b, w, m, (l - 1) as nat);
    }
}

pub proof fn lemma_prefix_monotone(a: int, b: int, w: nat, l: nat)
    requires
        a <= b,
    ensures
        prefix(a, w, l) <= prefix(b, w, l),
{
    lemma_pow2_pos((w - l) as nat);
    lemma_div_is_ordered(a, b, pow2((w - l) as nat) as int);
}

/// A key between two keys of one prefix has that prefix too.
pub proof fn lemma_prefix_between(a: int, i: int, b: int, w: nat, l: nat)
    requires
        a <= i <= b,
        prefix(a, w, l) == prefix(b, w, l),
    ensures
        prefix(i, w, l) == prefix(a, w, l),
{
    lemma_prefix_monotone(a, i, w, l);
    lemma_prefix_monotone(i, b, w, l);
}

/// The prefix of `key` at level `l`, computed by a shift.
pub fn prefix_of(key: usize, w: usize, l: usize) -> (r: usize)
    requires
        l <= w <= 64,
    ensures
        r as int == prefix(key as int, w as nat, l as nat),
{
    let shift = w - l;
    if shift >= 64 {
        proof {
            lemma2_to64_rest();
            lemma_basic_div(key as int, pow2(64) as int);
        }
        0
    } else {
        let k = key as u64;
        proof {
            lemma_u64_shr_is_div(k, shift as u64);
            lemma_prefix_nonneg(key as int, w as nat, l as nat);
        }
        (k >> (shift as u64)) as usize
    }
}

} // verus!
