//! Facts about single bits of basis-state indices.
use vstd::prelude::*;

verus! {

use vstd::arithmetic::power2::pow2;
use vstd::arithmetic::div_mod::{lemma_fundamental_div_mod, lemma_fundamental_div_mod_converse};
use vstd::bits::{lemma_usize_shl_is_mul, lemma_usize_pow2_no_overflow};

/// Whether bit `q` of the index `i` is set.
pub open spec fn has_bit(i: usize, q: usize) -> bool {
    i & (1usize << q) != 0
}

/// The index `i` with bit `q` flipped.
pub open spec fn flip_bit(i: usize, q: usize) -> usize {
    i ^ (1usize << q)
}

/// Flipping the target bit: an involution that keeps every other bit, and
/// moves an index up when the bit was clear and down when it was set.
pub proof fn lemma_flip_bit(i: usize, c: usize, t: usize)
    requires
        c < usize::BITS,
        t < usize::BITS,
    ensures
        flip_bit(flip_bit(i, t), t) == i,
        c != t ==> has_bit(flip_bit(i, t), c) == has_bit(i, c),
        has_bit(flip_bit(i, t), t) == !has_bit(i, t),
        !has_bit(i, t) ==> i | (1usize << t) == flip_bit(i, t) && flip_bit(i, t) > i,
        has_bit(i, t) ==> flip_bit(i, t) < i,
{
    assert((i ^ (1usize << t)) ^ (1usize << t) == i) by (bit_vector);
    assert(c != t ==> (((i ^ (1usize << t)) & (1usize << c) != 0) == (i & (1usize << c) != 0)))
        by (bit_vector)
        requires
            c < usize::BITS,
            t < usize::BITS,
    ;
    assert(((i ^ (1usize << t)) & (1usize << t) != 0) == (i & (1usize << t) == 0)) by (bit_vector)
        requires
            t < usize::BITS,
    ;
    assert(i & (1usize << t) == 0 ==> i | (1usize << t) == i ^ (1usize << t) && i ^ (1usize
        << t) > i) by (bit_vector)
        requires
            t < usize::BITS,
    ;
    assert(i & (1usize << t) != 0 ==> i ^ (1usize << t) < i) by (bit_vector)
        requires
            t < usize::BITS,
    ;
}

/// Indices below `2^n` have no bit at or above `n`, keep below `2^n` when a
/// lower bit is flipped, and `2^c` flipped at a bit `t >= n` is not below `2^n`.
pub proof fn lemma_bits_below(i: usize, n: usize, c: usize, t: usize)
    requires
        n < usize::BITS,
        c < usize::BITS,
        t < usize::BITS,
    ensures
        i < (1usize << n) && c >= n ==> !has_bit(i, c),
        i < (1usize << n) && t < n ==> flip_bit(i, t) < (1usize << n),
        c < n && n <= t ==> (1usize << c) < (1usize << n) && has_bit(1usize << c, c)
            && flip_bit(1usize << c, t) >= (1usize << n),
{
    assert(i < (1usize << n) && c >= n ==> i & (1usize << c) == 0) by (bit_vector)
        requires
            n < usize::BITS,
            c < usize::BITS,
    ;
    assert(i < (1usize << n) && t < n ==> i ^ (1usize << t) < (1usize << n)) by (bit_vector)
        requires
            n < usize::BITS,
            t < usize::BITS,
    ;
    assert(c < n && n <= t ==> (1usize << c) < (1usize << n) && (1usize << c) & (1usize << c)
        != 0 && (1usize << c) ^ (1usize << t) >= (1usize << n)) by (bit_vector)
        requires
            n < usize::BITS,
            c < usize::BITS,
            t < usize::BITS,
    ;
}

/// An index is in the lower half of its block of `2^(q+1)` exactly when its
/// bit `q` is clear, and then setting that bit adds `2^q`.
pub proof fn lemma_lower_half_bit(a: usize, q: usize)
    requires
        q < usize::BITS,
    ensures
        ((a as int) % (pow2(q as nat + 1) as int) < pow2(q as nat) as int) == !has_bit(a, q),
        !has_bit(a, q) ==> flip_bit(a, q) as int == a + pow2(q as nat),
{
    lemma_shl_one(q);
    vstd::bits::lemma_usize_shr_is_div(a, q);
    vstd::arithmetic::power2::lemma_pow2_unfold(q as nat + 1);
    vstd::arithmetic::power2::lemma_pow2_pos(q as nat);
    assert((a & (1usize << q) != 0) == (((a >> q) & 1) == 1)) by (bit_vector)
        requires
            q < usize::BITS,
    ;
    let d = a >> q;
    assert((d & 1) == d % 2) by (bit_vector);
    let s = pow2(q as nat) as int;
    let dd = d as int;
    // a = s * d + r, with d = 2 * e + f
    lemma_fundamental_div_mod(a as int, s);
    lemma_fundamental_div_mod(dd, 2);
    let r = (a as int) % s;
    let e = dd / 2;
    let f = dd % 2;
    assert(a as int == (2 * s) * e + (s * f + r)) by (nonlinear_arith)
        requires
            a as int == s * dd + r,
            dd == 2 * e + f,
    ;
    assert(0 <= s * f + r < 2 * s) by (nonlinear_arith)
        requires
            0 <= f < 2,
            0 <= r < s,
    ;
    lemma_fundamental_div_mod_converse(a as int, 2 * s, e, s * f + r);
    if f == 0 {
        assert(s * f == 0) by (nonlinear_arith)
            requires
                f == 0,
        ;
    } else {
        assert(f == 1);
        assert(s * f == s) by (nonlinear_arith)
            requires
                f == 1,
        ;
    }
    assert((d % 2) as int == f);
    assert(a & (1usize << q) == 0 ==> a ^ (1usize << q) == a + (1usize << q)) by (bit_vector)
        requires
            q < usize::BITS,
    ;
}

/// `1 << q` is the power of two `2^q`.
pub proof fn lemma_shl_one(q: usize)
    requires
        q < usize::BITS,
    ensures
        (1usize << q) as nat == pow2(q as nat),
        pow2(q as nat) <= usize::MAX,
{
    lemma_usize_pow2_no_overflow(q as nat);
    lemma_usize_shl_is_mul(1, q);
}

/// Inside a block of size `b` that starts at a multiple of `b`,
/// an index's remainder is its offset from the block's start.
pub proof fn lemma_offset_in_block(a: int, base: int, b: int)
    requires
        b > 0,
        base >= 0,
        base % b == 0,
        base <= a < base + b,
    ensures
        a % b == a - base,
{
    lemma_fundamental_div_mod(base, b);
    let j = base / b;
    assert(j * b == b * j) by (nonlinear_arith);
    lemma_fundamental_div_mod_converse(a, b, j, a - base);
}

/// Lower halves of earlier blocks end, with their upper partners, before
/// the block that starts at `base`.
pub proof fn lemma_lower_half_before(a: int, base: int, s: int)
    requires
        s > 0,
        0 <= a < base,
        base % (2 * s) == 0,
        a % (2 * s) < s,
    ensures
        a + s < base,
{
    let b = 2 * s;
    lemma_fundamental_div_mod(base, b);
    lemma_fundamental_div_mod(a, b);
    let j = base / b;
    let i = a / b;
    assert(i < j) by (nonlinear_arith)
        requires
            b > 0,
            a == b * i + a % b,
            base == b * j,
            a % b >= 0,
            a < base,
    ;
    assert(b * i + b <= b * j) by (nonlinear_arith)
        requires
            i < j,
            b > 0,
    ;
}

/// A multiple of `b` below a multiple `len` of `b` leaves room for a whole block.
pub proof fn lemma_block_fits(base: int, len: int, b: int)
    requires
        b > 0,
        0 <= base < len,
        base % b == 0,
        len % b == 0,
    ensures
        base + b <= len,
{
    lemma_fundamental_div_mod(base, b);
    lemma_fundamental_div_mod(len, b);
    let j = base / b;
    let m = len / b;
    assert(j < m) by (nonlinear_arith)
        requires
            b > 0,
            base == b * j,
            len == b * m,
            base < len,
    ;
    assert(b * j + b <= b * m) by (nonlinear_arith)
        requires
            j < m,
            b > 0,
    ;
}

/// The next block starts at a multiple of the block size too.
pub proof fn lemma_next_block(base: int, b: int)
    requires
        b > 0,
        base % b == 0,
    ensures
        (base + b) % b == 0,
{
    lemma_fundamental_div_mod(base, b);
    let j = base / b;
    assert((j + 1) * b == b * j + b) by (nonlinear_arith);
    lemma_fundamental_div_mod_converse(base + b, b, j + 1, 0);
}

} // verus!
