use vstd::prelude::*;
use vstd::arithmetic::div_mod::{lemma_fundamental_div_mod, lemma_fundamental_div_mod_converse};

verus! {

/// `a` is a power of two: a single bit is set.
pub open spec fn is_pow2(a: usize) -> bool {
    a != 0 && a & ((a - 1) as usize) == 0
}

/// `addr` rounded down to a multiple of `align`; unchanged when `align` is zero.
pub open spec fn align_down_spec(addr: int, align: int) -> int {
    if align == 0 {
        addr
    } else {
        addr - addr % align
    }
}

/// `addr` rounded up to a multiple of `align`, by way of rounding `addr + align - 1` down.
pub open spec fn align_up_spec(addr: int, align: int) -> int {
    align_down_spec(addr + align - 1, align)
}

/// Below a power of two, the low bits of `x` are its remainder.
proof fn lemma_mask_is_mod(x: u64, a: u64)
    requires
        a != 0,
        a & ((a - 1) as u64) == 0,
    ensures
        x & ((a - 1) as u64) == x % a,
    decreases a,
{
    if a == 1 {
        assert(x & 0u64 == 0) by (bit_vector);
    } else {
        let a2 = a >> 1u64;
        let x2 = x >> 1u64;
        let b = x & 1u64;
        assert(a2 != 0 && a2 < a && a2 & ((a2 - 1) as u64) == 0 && a == 2 * a2) by (bit_vector)
            requires
                a != 0,
                a != 1,
                a & ((a - 1) as u64) == 0,
                a2 == a >> 1u64,
        ;
        assert(x == 2 * x2 + b && b < 2 && x & ((a - 1) as u64) == 2 * (x2 & ((a2 - 1) as u64))
            + b) by (bit_vector)
            requires
                a != 0,
                a != 1,
                a & ((a - 1) as u64) == 0,
                a2 == a >> 1u64,
                x2 == x >> 1u64,
                b == x & 1u64,
        ;
        lemma_mask_is_mod(x2, a2);
        let q = x2 as int / a2 as int;
        let r = x2 as int % a2 as int;
        lemma_fundamental_div_mod(x2 as int, a2 as int);
        assert(x as int == q * (a as int) + (2 * r + b)) by (nonlinear_arith)
            requires
                x as int == 2 * x2 + b,
                x2 as int == a2 * q + r,
                a as int == 2 * a2,
        ;
        lemma_fundamental_div_mod_converse(x as int, a as int, q, 2 * r + b);
    }
}

/// Clearing the bits below a power of two rounds down to a multiple of it.
proof fn lemma_mask_rounds_down(x: u64, a: u64)
    requires
        a != 0,
        a & ((a - 1) as u64) == 0,
    ensures
        x & !((a - 1) as u64) == x - x % a,
{
    lemma_mask_is_mod(x, a);
    assert(x & !((a - 1) as u64) == x - (x & ((a - 1) as u64))) by (bit_vector);
}

/// Rounds `addr` down to a multiple of `align`. `align` must be a power of two or zero.
pub fn align_down(addr: usize, align: usize) -> (r: usize)
    requires
        align == 0 || is_pow2(align),
    ensures
        r == align_down_spec(addr as int, align as int),
{
    if align != 0 && align & (align - 1) == 0 {
        let (x, a) = (addr as u64, align as u64);
        assert(a & ((a - 1) as u64) == 0) by (bit_vector)
            requires
                a == align,
                align & ((align - 1) as usize) == 0,
        ;
        proof {
            lemma_mask_rounds_down(x, a);
        }
        (x & !(a - 1)) as usize
    } else {
        addr
    }
}

/// Rounds `addr` up to a multiple of `align`, as `align_down(addr + align - 1, align)`.
pub fn align_up(addr: usize, align: usize) -> (r: usize)
    requires
        align == 0 || is_pow2(align),
        1 <= addr + align <= usize::MAX + 1,
    ensures
        r == align_up_spec(addr as int, align as int),
{
    let bumped: usize = if align == 0 {
        addr - 1
    } else {
        addr + (align - 1)
    };
    align_down(bumped, align)
}

/// Rounding up to a positive alignment adds the distance to the next multiple.
pub proof fn lemma_align_up_pad(x: int, a: int)
    requires
        x >= 0,
        a > 0,
    ensures
        align_up_spec(x, a) == x + (a - x % a) % a,
        align_up_spec(x, a) % a == 0,
        x <= align_up_spec(x, a) < x + a,
        x % a == 0 ==> align_up_spec(x, a) == x,
        x % a != 0 ==> align_up_spec(x, a) == x + a - x % a,
{
    lemma_fundamental_div_mod(x, a);
    let q = x / a;
    let r = x % a;
    assert(x == q * a + r) by (nonlinear_arith)
        requires
            x == a * q + r,
    ;
    if r == 0 {
        lemma_fundamental_div_mod_converse(x + a - 1, a, q, a - 1);
        lemma_fundamental_div_mod_converse(a, a, 1, 0);
    } else {
        assert(x + a - 1 == (q + 1) * a + (r - 1)) by (nonlinear_arith)
            requires
                x == q * a + r,
        ;
        lemma_fundamental_div_mod_converse(x + a - 1, a, q + 1, r - 1);
        lemma_fundamental_div_mod_converse(a - r, a, 0, a - r);
        assert(x + a - r == (q + 1) * a + 0) by (nonlinear_arith)
            requires
                x == q * a + r,
        ;
        lemma_fundamental_div_mod_converse(x + a - r, a, q + 1, 0);
    }
}

/// Aligning an already aligned address changes nothing: for every address `a` and
/// every power-of-two alignment `k`, `align_up(align_up(a, k), k) == align_up(a, k)`.
pub proof fn lemma_align_up_idempotent(a: int, k: usize)
    requires
        a >= 0,
        is_pow2(k),
    ensures
        align_up_spec(align_up_spec(a, k as int), k as int) == align_up_spec(a, k as int),
{
    let u = align_up_spec(a, k as int);
    lemma_align_up_pad(a, k as int);
    lemma_align_up_pad(u, k as int);
}

} // verus!
