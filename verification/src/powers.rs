//! Powers of two: alignment, logarithms and the address arithmetic that a
//! buddy scheme is made of.

use vstd::prelude::*;

verus! {

/// Two to the power `k`.
#[verifier::opaque]
pub open spec fn p2(k: int) -> int {
    vstd::arithmetic::power2::pow2(k as nat) as int
}

/// `a` is a multiple of `2^k`.
#[verifier::opaque]
pub open spec fn aligned(a: int, k: int) -> bool {
    a % p2(k) == 0
}

/// The other half of the block of order `k + 1` that holds the block of order
/// `k` at `a`.
pub open spec fn buddy_of(a: int, k: int) -> int {
    if aligned(a, k + 1) {
        a + p2(k)
    } else {
        a - p2(k)
    }
}

/// The start of the block of order `k + 1` that holds the block of order `k`
/// at `a`.
pub open spec fn parent_of(a: int, k: int) -> int {
    if aligned(a, k + 1) {
        a
    } else {
        a - p2(k)
    }
}

pub proof fn lemma_p2_pos(k: int)
    ensures
        p2(k) > 0,
{
    reveal(p2);
    vstd::arithmetic::power2::lemma_pow2_pos(k as nat);
}

pub proof fn lemma_p2_step(k: int)
    requires
        0 <= k,
    ensures
        p2(k + 1) == 2 * p2(k),
        p2(k) > 0,
{
    reveal(p2);
    lemma_p2_pos(k);
    vstd::arithmetic::power2::lemma_pow2_unfold((k + 1) as nat);
}

pub proof fn lemma_p2_mono(i: int, j: int)
    requires
        0 <= i <= j,
    ensures
        0 < p2(i) <= p2(j),
        i < j ==> 2 * p2(i) <= p2(j),
    decreases j - i,
{
    lemma_p2_pos(i);
    if i < j {
        lemma_p2_step(i);
        lemma_p2_mono(i + 1, j);
    }
}

/// The powers that the crate names by value.
pub proof fn lemma_p2_values()
    ensures
        p2(0) == 1,
        p2(1) == 2,
        p2(3) == 8,
        p2(4) == 16,
        p2(5) == 32,
        p2(6) == 64,
        p2(7) == 128,
        p2(8) == 256,
        p2(9) == 512,
        p2(10) == 1024,
        p2(12) == 4096,
        p2(13) == 8192,
        p2(32) == 0x1_0000_0000,
        p2(63) == 0x8000_0000_0000_0000,
        p2(64) == 0x1_0000_0000_0000_0000,
{
    reveal(p2);
    vstd::arithmetic::power2::lemma2_to64();
    vstd::arithmetic::power2::lemma2_to64_rest();
}

/// The width of an address fixes which powers of two it can hold.
pub proof fn lemma_p2_fits(k: int)
    requires
        0 <= k,
    ensures
        k < usize::BITS <==> p2(k) <= usize::MAX,
        usize::MAX + 1 == p2(usize::BITS as int),
{
    lemma_p2_values();
    if k < usize::BITS {
        lemma_p2_mono(k, usize::BITS as int);
    } else {
        lemma_p2_mono(usize::BITS as int, k);
    }
}

/// A shifted one is a power of two.
pub proof fn lemma_shl(k: usize)
    requires
        k < usize::BITS,
    ensures
        (1usize << k) == p2(k as int),
        p2(k as int) > 0,
{
    lemma_p2_pos(k as int);
    lemma_p2_fits(k as int);
    reveal(p2);
    vstd::bits::lemma_usize_shl_is_mul(1usize, k);
}

pub proof fn lemma_aligned_zero(a: int)
    ensures
        aligned(a, 0),
        forall|k: int| aligned(0, k),
{
    reveal(aligned);
    lemma_p2_values();
    assert forall|k: int| aligned(0, k) by {
        lemma_p2_pos(k);
    }
}

/// A coarser alignment implies a finer one, and both halves of a block are
/// aligned to the halved size.
pub proof fn lemma_aligned_half(a: int, k: int)
    requires
        0 <= k,
        aligned(a, k + 1),
    ensures
        aligned(a, k),
        aligned(a + p2(k), k),
        !aligned(a + p2(k), k + 1),
        p2(k + 1) == 2 * p2(k),
        p2(k) > 0,
{
    reveal(aligned);
    lemma_p2_step(k);
    let h = p2(k);
    let q = a / (2 * h);
    vstd::arithmetic::div_mod::lemma_fundamental_div_mod(a, 2 * h);
    assert(a == (2 * q) * h) by (nonlinear_arith)
        requires
            a == (2 * h) * q,
    ;
    assert(a + h == (2 * q + 1) * h) by (nonlinear_arith)
        requires
            a == (2 * q) * h,
    ;
    vstd::arithmetic::div_mod::lemma_mod_multiples_basic(2 * q, h);
    vstd::arithmetic::div_mod::lemma_mod_multiples_basic(2 * q + 1, h);
    assert((a + h) % (2 * h) == h) by {
        vstd::arithmetic::div_mod::lemma_fundamental_div_mod_converse(a + h, 2 * h, q, h);
    }
}

/// Of a block and the block that follows it, one starts a block of the next
/// order.
pub proof fn lemma_aligned_double(a: int, k: int)
    requires
        0 <= k,
        aligned(a, k),
        !aligned(a, k + 1),
    ensures
        aligned(a + p2(k), k + 1),
        aligned(a - p2(k), k + 1),
        p2(k + 1) == 2 * p2(k),
        p2(k) > 0,
{
    reveal(aligned);
    lemma_p2_step(k);
    let h = p2(k);
    let q = a / h;
    vstd::arithmetic::div_mod::lemma_fundamental_div_mod(a, h);
    assert(a == q * h) by (nonlinear_arith)
        requires
            a == h * q,
    ;
    let r = q / 2;
    if q % 2 == 0 {
        assert(q == 2 * r);
        assert(a == r * (2 * h)) by (nonlinear_arith)
            requires
                a == q * h,
                q == 2 * r,
        ;
        vstd::arithmetic::div_mod::lemma_mod_multiples_basic(r, 2 * h);
        assert(false);
    }
    assert(q == 2 * r + 1);
    assert(a + h == (r + 1) * (2 * h)) by (nonlinear_arith)
        requires
            a == q * h,
            q == 2 * r + 1,
    ;
    assert(a - h == r * (2 * h)) by (nonlinear_arith)
        requires
            a == q * h,
            q == 2 * r + 1,
    ;
    vstd::arithmetic::div_mod::lemma_mod_multiples_basic(r + 1, 2 * h);
    vstd::arithmetic::div_mod::lemma_mod_multiples_basic(r, 2 * h);
}

pub proof fn lemma_aligned_mono(a: int, i: int, j: int)
    requires
        0 <= i <= j,
        aligned(a, j),
    ensures
        aligned(a, i),
    decreases j - i,
{
    if i < j {
        lemma_aligned_half(a, j - 1);
        lemma_aligned_mono(a, i, j - 1);
    }
}

/// Sums and differences of aligned numbers are aligned.
pub proof fn lemma_aligned_add(a: int, b: int, k: int)
    requires
        0 <= k,
        aligned(a, k),
        aligned(b, k),
    ensures
        aligned(a + b, k),
        aligned(a - b, k),
{
    reveal(aligned);
    lemma_p2_pos(k);
    let h = p2(k);
    vstd::arithmetic::div_mod::lemma_fundamental_div_mod(a, h);
    vstd::arithmetic::div_mod::lemma_fundamental_div_mod(b, h);
    let x = a / h;
    let y = b / h;
    assert(a + b == (x + y) * h && a - b == (x - y) * h) by (nonlinear_arith)
        requires
            a == h * x,
            b == h * y,
    ;
    vstd::arithmetic::div_mod::lemma_mod_multiples_basic(x + y, h);
    vstd::arithmetic::div_mod::lemma_mod_multiples_basic(x - y, h);
}

pub proof fn lemma_p2_aligned(i: int, j: int)
    requires
        0 <= i <= j,
    ensures
        aligned(p2(j), i),
    decreases j - i,
{
    reveal(aligned);
    lemma_p2_pos(i);
    if i == j {
        vstd::arithmetic::div_mod::lemma_mod_self_0(p2(i));
    } else {
        lemma_p2_step(j - 1);
        lemma_p2_aligned(i, j - 1);
        lemma_aligned_add(p2(j - 1), p2(j - 1), i);
    }
}

/// Two multiples of `2^k` that differ are at least `2^k` apart.
pub proof fn lemma_aligned_gap(a: int, b: int, k: int)
    requires
        0 <= k,
        aligned(a, k),
        aligned(b, k),
        a < b,
    ensures
        a + p2(k) <= b,
{
    lemma_aligned_add(b, a, k);
    reveal(aligned);
    lemma_p2_pos(k);
    let d = b - a;
    let h = p2(k);
    if d < h {
        vstd::arithmetic::div_mod::lemma_small_mod(d as nat, h as nat);
    }
}

/// Aligned blocks nest: if a block meets a block that is no smaller, it lies
/// inside it.
pub proof fn lemma_nested(a: int, i: int, b: int, j: int)
    requires
        0 <= i <= j,
        aligned(a, i),
        aligned(b, j),
        a < b + p2(j),
        b < a + p2(i),
    ensures
        b <= a,
        a + p2(i) <= b + p2(j),
{
    lemma_aligned_mono(b, i, j);
    lemma_p2_aligned(i, j);
    lemma_aligned_add(b, p2(j), i);
    if a < b {
        lemma_aligned_gap(a, b, i);
    }
    lemma_aligned_gap(a, b + p2(j), i);
}

/// The buddy of an aligned block, and their common parent.
pub proof fn lemma_buddy(a: int, k: int)
    requires
        0 <= k,
        aligned(a, k),
    ensures
        aligned(buddy_of(a, k), k),
        aligned(parent_of(a, k), k + 1),
        buddy_of(buddy_of(a, k), k) == a,
        parent_of(buddy_of(a, k), k) == parent_of(a, k),
        parent_of(a, k) == if a < buddy_of(a, k) {
            a
        } else {
            buddy_of(a, k)
        },
        a < buddy_of(a, k) ==> buddy_of(a, k) == a + p2(k),
        buddy_of(a, k) < a ==> a == buddy_of(a, k) + p2(k),
        a != buddy_of(a, k),
        p2(k + 1) == 2 * p2(k),
        p2(k) > 0,
{
    lemma_p2_step(k);
    if aligned(a, k + 1) {
        lemma_aligned_half(a, k);
    } else {
        lemma_aligned_double(a, k);
        lemma_aligned_half(a - p2(k), k);
    }
}

/// Alignment seen bit by bit: the block of order `k` at `a` starts a block of
/// order `k + 1` exactly if bit `k` of `a` is clear.
pub proof fn lemma_bit(a: usize, k: usize)
    requires
        k < usize::BITS,
        aligned(a as int, k as int),
    ensures
        aligned(a as int, k + 1) <==> a & (1usize << k) == 0,
{
    let h = p2(k as int);
    let q = a as int / h;
    lemma_p2_step(k as int);
    assert((a >> k) == q) by {
        reveal(p2);
        vstd::bits::lemma_usize_shr_is_div(a, k);
    }
    assert((a >> k) % 2 == 0 <==> a & (1usize << k) == 0) by (bit_vector)
        requires
            k < usize::BITS,
    ;
    reveal(aligned);
    vstd::arithmetic::div_mod::lemma_fundamental_div_mod(a as int, h);
    assert(a == q * h) by (nonlinear_arith)
        requires
            a == h * q,
    ;
    let r = q / 2;
    assert(a == r * (2 * h) + (q % 2) * h) by (nonlinear_arith)
        requires
            a == q * h,
            q == 2 * r + q % 2,
    ;
    if q % 2 == 0 {
        vstd::arithmetic::div_mod::lemma_mod_multiples_basic(r, 2 * h);
    } else {
        vstd::arithmetic::div_mod::lemma_fundamental_div_mod_converse(a as int, 2 * h, r, h);
    }
}

/// Flipping bit `k` of an aligned address gives the buddy; clearing it gives
/// the parent.
pub proof fn lemma_flip(a: usize, k: usize)
    requires
        k < usize::BITS,
        aligned(a as int, k as int),
    ensures
        (a ^ (1usize << k)) == buddy_of(a as int, k as int),
        (a & !(1usize << k)) == parent_of(a as int, k as int),
{
    lemma_shl(k);
    lemma_bit(a, k);
    let m = 1usize << k;
    assert(a & m == 0 ==> (a ^ m) == a + m && (a & !m) == a) by (bit_vector)
        requires
            m == 1usize << k,
            k < usize::BITS,
    ;
    assert(a & m != 0 ==> (a ^ m) == a - m && (a & !m) == a - m) by (bit_vector)
        requires
            m == 1usize << k,
            k < usize::BITS,
    ;
}

proof fn lemma_trailing(x: usize, t: int, j: int)
    requires
        t == vstd::std_specs::bits::u64_trailing_zeros(x as u64),
        0 <= j <= t < usize::BITS,
    ensures
        aligned(x as int, j),
    decreases j,
{
    if j == 0 {
        lemma_aligned_zero(x as int);
    } else {
        lemma_trailing(x, t, j - 1);
        let k = (j - 1) as u64;
        let i = x as u64;
        let ku = (j - 1) as usize;
        assert((i >> k) & 1u64 == 0u64);
        assert(x & (1usize << ku) == 0) by (bit_vector)
            requires
                (i >> k) & 1u64 == 0u64,
                i == x as u64,
                ku == k,
                ku < usize::BITS,
        ;
        lemma_bit(x, ku);
    }
}

/// Number of trailing zero bits of `x`: the largest alignment that `x` has.
pub fn alignment_of(x: usize) -> (r: usize)
    requires
        x != 0,
    ensures
        r < usize::BITS,
        aligned(x as int, r as int),
        !aligned(x as int, r + 1),
{
    let r: usize = (x as u64).trailing_zeros() as usize;
    proof {
        let i = x as u64;
        let t = r as u64;
        assert((i >> t) & 1u64 == 1u64);
        assert(t < usize::BITS) by (bit_vector)
            requires
                (i >> t) & 1u64 == 1u64,
                i == x as u64,
                t < 64,
        ;
        lemma_trailing(x, r as int, r as int);
        assert(x & (1usize << r) != 0) by (bit_vector)
            requires
                (i >> t) & 1u64 == 1u64,
                i == x as u64,
                r == t,
                r < usize::BITS,
        ;
        lemma_bit(x, r);
    }
    r
}

/// Logarithm of `x` rounded down.
pub fn floor_log2(x: usize) -> (r: usize)
    requires
        x != 0,
    ensures
        r < usize::BITS,
        p2(r as int) <= x < p2(r + 1),
{
    let r: usize = 63 - (x as u64).leading_zeros() as usize;
    proof {
        let i = x as u64;
        let t = r as u64;
        let q = i >> t;
        assert(q & 1u64 != 0u64);
        assert(q >= 1) by (bit_vector)
            requires
                q & 1u64 != 0u64,
        ;
        assert(q == i as int / p2(r as int)) by {
            reveal(p2);
            vstd::bits::lemma_u64_shr_is_div(i, t);
        }
        lemma_p2_step(r as int);
        let h = p2(r as int);
        vstd::arithmetic::div_mod::lemma_fundamental_div_mod(i as int, h);
        assert(i >= h) by (nonlinear_arith)
            requires
                i == h * q + i as int % h,
                q >= 1,
                h > 0,
                i as int % h >= 0,
        ;
        if r < 63 {
            let u = (r + 1) as u64;
            assert(i >> u == 0);
            assert(i as int / p2(r + 1) == 0) by {
                reveal(p2);
                vstd::bits::lemma_u64_shr_is_div(i, u);
            }
            vstd::arithmetic::div_mod::lemma_fundamental_div_mod(i as int, p2(r + 1));
        } else {
            lemma_p2_values();
        }
        lemma_p2_fits(r as int);
    }
    r
}

/// Logarithm of `n` rounded up: the least `r` with `n <= 2^r`.
pub fn ceil_log2(n: usize) -> (r: usize)
    ensures
        r <= usize::BITS,
        n <= p2(r as int),
        r > 0 ==> p2(r - 1) < n,
{
    proof {
        lemma_p2_values();
    }
    if n <= 1 {
        0
    } else {
        let r: usize = floor_log2(n - 1);
        r + 1
    }
}

} // verus!
