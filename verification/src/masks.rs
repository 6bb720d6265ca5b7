//! Arithmetic on sets of clauses written as numbers: bit `i` of the number
//! says whether clause `i` is a member.

use crate::random_space::bit_of;
use vstd::arithmetic::div_mod::*;
use vstd::arithmetic::power2::*;
use vstd::prelude::*;

verus! {

/// The bits of `y` below bit `k + 1` are those below bit `k`, and bit `k`.
pub proof fn lemma_mod_split(y: nat, k: nat)
    ensures
        y % pow2(k + 1) == y % pow2(k) + if bit_of(y, k) {
            pow2(k)
        } else {
            0
        },
        y % pow2(k) < pow2(k),
{
    lemma_pow2_pos(k);
    lemma_pow2_unfold(k + 1);
    assert(pow2(k + 1) == pow2(k) * 2) by {
        assert(((k + 1) - 1) as nat == k);
    }
    lemma_mod_breakdown(y as int, pow2(k) as int, 2);
    lemma_mod_bound(y as int, pow2(k) as int);
    let b = (y / pow2(k)) % 2;
    assert(b == 0 || b == 1);
    assert(pow2(k) * b == if b == 1 {
        pow2(k)
    } else {
        0
    }) by (nonlinear_arith)
        requires
            b == 0 || b == 1,
    ;
}

/// Below bit `k`, the remainder by `2^k` has the bits of the number.
pub proof fn lemma_low_bits(y: nat, k: nat, i: nat)
    requires
        i < k,
    ensures
        bit_of(y % pow2(k), i) == bit_of(y, i),
    decreases k - i,
{
    lemma_pow2_pos(i);
    lemma_pow2_pos(k);
    if k == i + 1 {
        lemma_mod_split(y, i);
        let r = y % pow2(i);
        let z = y % pow2(k);
        lemma_pow2_pos(i);
        if bit_of(y, i) {
            lemma_fundamental_div_mod_converse(z as int, pow2(i) as int, 1, r as int);
        } else {
            lemma_fundamental_div_mod_converse(z as int, pow2(i) as int, 0, r as int);
        }
    } else {
        let j = (k - 1) as nat;
        lemma_mod_split(y, j);
        lemma_low_bits(y, j, i);
        let z = y % pow2(k);
        lemma_mod_split(z, j);
        lemma_pow2_pos(j);
        lemma_pow2_unfold(k);
        assert(z % pow2(j) == y % pow2(j)) by {
            let r = y % pow2(j);
            if bit_of(y, j) {
                lemma_fundamental_div_mod_converse(z as int, pow2(j) as int, 1, r as int);
            } else {
                lemma_fundamental_div_mod_converse(z as int, pow2(j) as int, 0, r as int);
            }
        }
        lemma_low_bits(z, j, i);
    }
}

/// A number below `2^k` has no bit at or above bit `k`.
pub proof fn lemma_high_bits_zero(x: nat, k: nat, i: nat)
    requires
        x < pow2(k),
        k <= i,
    ensures
        !bit_of(x, i),
{
    if k < i {
        lemma_pow2_strictly_increases(k, i);
    }
    lemma_basic_div(x as int, pow2(i) as int);
}

/// Setting bit `k` of a number below `2^k` adds `2^k` to it.
pub proof fn lemma_set_bit(x: nat, k: nat, i: nat)
    requires
        x < pow2(k),
    ensures
        x + pow2(k) < pow2(k + 1),
        bit_of(x + pow2(k), i) == (bit_of(x, i) || i == k),
{
    lemma_pow2_pos(k);
    lemma_pow2_unfold(k + 1);
    assert(pow2(k + 1) == pow2(k) * 2) by {
        assert(((k + 1) - 1) as nat == k);
    }
    let y = x + pow2(k);
    if i < k {
        lemma_low_bits(y, k, i);
        lemma_fundamental_div_mod_converse(y as int, pow2(k) as int, 1, x as int);
    } else if i == k {
        lemma_fundamental_div_mod_converse(y as int, pow2(k) as int, 1, x as int);
        lemma_high_bits_zero(x, k, i);
    } else {
        lemma_high_bits_zero(x, k, i);
        lemma_high_bits_zero(y, k + 1, i);
    }
}

/// The lowest bit at or above bit `pt` in which `y` goes beyond `x`, where
/// the two agree below bit `pt` and differ.
pub proof fn lemma_lowest_new_bit(x: nat, y: nat, pt: nat, n: nat) -> (k: nat)
    requires
        pt <= n,
        y < pow2(n),
        y % pow2(pt) == x,
        y != x,
    ensures
        pt <= k < n,
        bit_of(y, k),
        y % pow2(k) == x,
    decreases n - pt,
{
    if pt == n {
        lemma_small_mod(y, pow2(n));
        0
    } else {
        lemma_mod_split(y, pt);
        if bit_of(y, pt) {
            pt
        } else {
            lemma_lowest_new_bit(x, y, pt + 1, n)
        }
    }
}

/// Numbers that agree below bit `k` agree below every lower bit.
pub proof fn lemma_mod_lower(y: nat, k: nat, pt: nat)
    requires
        pt <= k,
    ensures
        (y % pow2(k)) % pow2(pt) == y % pow2(pt),
    decreases k - pt,
{
    lemma_pow2_pos(pt);
    if pt < k {
        let j = (k - 1) as nat;
        lemma_mod_split(y, j);
        lemma_mod_lower(y, j, pt);
        let z = y % pow2(k);
        let r = y % pow2(j);
        lemma_pow2_pos(j);
        assert(z % pow2(j) == r) by {
            if bit_of(y, j) {
                lemma_fundamental_div_mod_converse(z as int, pow2(j) as int, 1, r as int);
            } else {
                lemma_fundamental_div_mod_converse(z as int, pow2(j) as int, 0, r as int);
            }
        }
        lemma_mod_lower(z, j, pt);
    } else {
        lemma_mod_bound(y as int, pow2(k) as int);
        lemma_small_mod(y % pow2(k), pow2(k));
    }
}

/// Shifting and masking reads the bit that `bit_of` names.
pub proof fn lemma_read_bit(x: usize, i: usize)
    requires
        i < usize::BITS,
    ensures
        ((x >> i) & 1 == 1) == bit_of(x as nat, i as nat),
        ((x >> i) & 1 == 0) == !bit_of(x as nat, i as nat),
{
    vstd::bits::lemma_usize_shr_is_div(x, i);
    let y: usize = x >> i;
    assert((y & 1 == 1) == (y % 2 == 1)) by (bit_vector);
    assert(y & 1 == 0 || y & 1 == 1) by (bit_vector);
}

/// A set of the first `n` clauses without clause `i` is still a set of the
/// first `n` clauses when clause `i` joins it.
pub proof fn lemma_join_below(x: nat, i: nat, n: nat)
    requires
        i < n,
        x < pow2(n),
        !bit_of(x, i),
    ensures
        x + pow2(i) < pow2(n),
{
    let half = pow2(i);
    let whole = pow2(i + 1);
    let rest = pow2((n - i - 1) as nat);
    lemma_pow2_pos(i);
    lemma_pow2_pos(i + 1);
    lemma_pow2_unfold(i + 1);
    assert(whole == 2 * half) by {
        assert(((i + 1) - 1) as nat == i);
    }
    lemma_pow2_adds(i + 1, (n - i - 1) as nat);
    assert(pow2(n) == whole * rest);
    lemma_mod_split(x, i);
    let low = x % whole;
    let high = x / whole;
    lemma_fundamental_div_mod(x as int, whole as int);
    assert(low < half);
    assert(high < rest) by (nonlinear_arith)
        requires
            x == whole * high + low,
            x < whole * rest,
            0 <= low,
            whole > 0,
    ;
    assert(x + half < whole * rest) by (nonlinear_arith)
        requires
            x == whole * high + low,
            low < half,
            whole == 2 * half,
            high < rest,
            half > 0,
    ;
}

/// The bits of a number at and above bit `k` are the bits of its quotient by
/// `2^k`.
pub proof fn lemma_high_bits(y: nat, k: nat, i: nat)
    ensures
        bit_of(y / pow2(k), i) == bit_of(y, k + i),
{
    lemma_pow2_pos(k);
    lemma_pow2_pos(i);
    lemma_pow2_adds(k, i);
    lemma_div_denominator(y as int, pow2(k) as int, pow2(i) as int);
}

/// When clause `i` joins a set that does not hold it, the set holds what it
/// held, and clause `i`.
pub proof fn lemma_join(x: nat, i: nat, k: nat)
    requires
        !bit_of(x, i),
    ensures
        bit_of(x + pow2(i), k) == (bit_of(x, k) || k == i),
{
    let half = pow2(i);
    let whole = pow2(i + 1);
    lemma_pow2_pos(i);
    lemma_pow2_pos(i + 1);
    lemma_pow2_unfold(i + 1);
    assert(whole == 2 * half) by {
        assert(((i + 1) - 1) as nat == i);
    }
    lemma_mod_split(x, i);
    let low = x % whole;
    let high = x / whole;
    lemma_fundamental_div_mod(x as int, whole as int);
    assert(low == x % half);
    assert(low < half);
    let y = x + half;
    assert(y == whole * high + (low + half));
    lemma_fundamental_div_mod_converse(y as int, whole as int, high as int, (low + half) as int);
    if k <= i {
        lemma_low_bits(y, i + 1, k);
        lemma_low_bits(x, i + 1, k);
        lemma_set_bit(low, i, k);
    } else {
        let j = (k - i - 1) as nat;
        lemma_high_bits(y, i + 1, j);
        lemma_high_bits(x, i + 1, j);
        assert(i + 1 + j == k);
    }
}

/// Two numbers below `2^n` with the same bits are the same number.
pub proof fn lemma_same_bits(x: nat, y: nat, n: nat)
    requires
        x < pow2(n),
        y < pow2(n),
        forall|k: nat| k < n ==> bit_of(x, k) == bit_of(y, k),
    ensures
        x == y,
{
    lemma_same_low_bits(x, y, n);
    lemma_small_mod(x, pow2(n));
    lemma_small_mod(y, pow2(n));
}

/// Two numbers with the same bits below bit `n` have the same remainder by
/// `2^n`.
pub proof fn lemma_same_low_bits(x: nat, y: nat, n: nat)
    requires
        forall|k: nat| k < n ==> bit_of(x, k) == bit_of(y, k),
    ensures
        x % pow2(n) == y % pow2(n),
    decreases n,
{
    if n == 0 {
        lemma2_to64();
    } else {
        let j = (n - 1) as nat;
        lemma_same_low_bits(x, y, j);
        lemma_mod_split(x, j);
        lemma_mod_split(y, j);
        assert(bit_of(x, j) == bit_of(y, j));
    }
}

} // verus!
