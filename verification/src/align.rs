//! Rounding addresses to power-of-two alignments.

use vstd::arithmetic::power2::is_pow2;
use vstd::prelude::*;

verus! {

/// An alignment the rounding functions accept: zero, or a power of two.
pub open spec fn valid_align(align: usize) -> bool {
    align == 0 || is_pow2(align as int)
}

/// Whether `addr` is a multiple of the positive alignment `align`.
pub open spec fn is_aligned(addr: int, align: int) -> bool {
    addr % align == 0
}

/// The greatest multiple of `align` that is at most `addr`; `addr` itself when `align` is zero.
pub open spec fn spec_align_down(addr: int, align: int) -> int {
    if align == 0 {
        addr
    } else {
        addr - addr % align
    }
}

/// The least multiple of `align` that is at least `addr`, for `align > 0`.
pub open spec fn spec_align_up(addr: int, align: int) -> int {
    spec_align_down(addr + align - 1, align)
}

/// A power of two is positive.
pub proof fn lemma_pow2_is_positive(align: int)
    requires
        is_pow2(align),
    ensures
        align > 0,
{
    reveal(is_pow2);
}

/// A number is a power of two when it has exactly one bit set: when it is not zero
/// and shares no bit with the number below it.
pub proof fn lemma_pow2_has_one_bit(n: usize)
    ensures
        is_pow2(n as int) <==> n != 0 && n & ((n - 1) as usize) == 0,
    decreases n,
{
    reveal(is_pow2);
    if n == 1 {
        assert(1usize & ((1usize - 1) as usize) == 0) by (bit_vector);
    } else if n > 1 {
        let h: usize = n / 2;
        lemma_pow2_has_one_bit(h);
        assert(n & ((n - 1) as usize) == 0 ==> n % 2 == 0 && h != 0 && h & ((h - 1) as usize) == 0)
            by (bit_vector)
            requires
                n > 1,
                h == n / 2,
        ;
        assert(n % 2 == 0 && h != 0 && h & ((h - 1) as usize) == 0 ==> n & ((n - 1) as usize) == 0)
            by (bit_vector)
            requires
                n > 1,
                h == n / 2,
        ;
    }
}

/// Halving both the value and a power-of-two modulus halves the rounded-down value.
proof fn lemma_round_down_double(x: int, b: int)
    requires
        0 <= x,
        0 < b,
    ensures
        x - x % (2 * b) == 2 * ((x / 2) - (x / 2) % b),
{
    let q = x / 2;
    let k = q / b;
    let r = q % b;
    assert(q == b * k + r) by {
        vstd::arithmetic::div_mod::lemma_fundamental_div_mod(q, b);
    }
    let low = x % 2 + 2 * r;
    assert(0 <= low < 2 * b);
    assert(x == (2 * b) * k + low) by (nonlinear_arith)
        requires
            x == 2 * q + x % 2,
            q == b * k + r,
            low == x % 2 + 2 * r,
    ;
    vstd::arithmetic::div_mod::lemma_fundamental_div_mod_converse(x, 2 * b, k, low);
}

/// Clearing the low bits below a power of two rounds down to a multiple of it.
proof fn lemma_mask_rounds_down(x: usize, a: usize)
    requires
        is_pow2(a as int),
    ensures
        x & !((a - 1) as usize) == x - x % a,
    decreases a,
{
    reveal(is_pow2);
    if a == 1 {
        assert(x & !((1usize - 1) as usize) == x) by (bit_vector);
    } else {
        let b: usize = a / 2;
        let h: usize = x / 2;
        lemma_mask_rounds_down(h, b);
        let m: usize = h & !((b - 1) as usize);
        assert(a & 1 == 0) by (bit_vector)
            requires
                a % 2 == 0,
        ;
        assert(x & !((a - 1) as usize) == (((x >> 1) & !(((a >> 1) - 1) as usize)) << 1))
            by (bit_vector)
            requires
                a & 1 == 0,
                a != 0,
        ;
        assert(x >> 1 == x / 2) by (bit_vector);
        assert(a >> 1 == a / 2) by (bit_vector);
        assert(m << 1 == 2 * m) by (bit_vector)
            requires
                m <= h,
                h == x / 2,
        ;
        lemma_round_down_double(x as int, b as int);
    }
}

/// What rounding down to a positive `align` yields: the one multiple of `align` in
/// `(addr - align, addr]`.
pub proof fn lemma_align_down_is_greatest_multiple(addr: int, align: int)
    requires
        0 < align,
    ensures
        is_aligned(spec_align_down(addr, align), align),
        addr - align < spec_align_down(addr, align) <= addr,
        forall|m: int|
            #[trigger] is_aligned(m, align) && m <= addr ==> m <= spec_align_down(addr, align),
{
    let down = spec_align_down(addr, align);
    vstd::arithmetic::div_mod::lemma_fundamental_div_mod(addr, align);
    vstd::arithmetic::div_mod::lemma_mod_multiples_basic(addr / align, align);
    assert(down == (addr / align) * align) by (nonlinear_arith)
        requires
            addr == align * (addr / align) + addr % align,
            down == addr - addr % align,
    ;
    assert forall|m: int| #[trigger] is_aligned(m, align) && m <= addr implies m <= down by {
        if m > down {
            // m and down are both multiples of align, less than align apart
            vstd::arithmetic::div_mod::lemma_fundamental_div_mod(m, align);
            let k = m / align;
            let d = addr / align;
            assert(m == align * k);
            assert(k > d) by (nonlinear_arith)
                requires
                    align * k > d * align,
                    align > 0,
            ;
            assert(align * k >= align * (d + 1)) by (nonlinear_arith)
                requires
                    k >= d + 1,
                    align > 0,
            ;
            assert(align * (d + 1) == d * align + align) by (nonlinear_arith);
        }
    }
}

/// What rounding up to a positive `align` yields: the one multiple of `align` in
/// `[addr, addr + align)`.
pub proof fn lemma_align_up_is_least_multiple(addr: int, align: int)
    requires
        0 < align,
    ensures
        is_aligned(spec_align_up(addr, align), align),
        addr <= spec_align_up(addr, align) < addr + align,
        forall|m: int|
            #[trigger] is_aligned(m, align) && addr <= m ==> spec_align_up(addr, align) <= m,
        is_aligned(addr, align) <==> spec_align_up(addr, align) == addr,
{
    let up = spec_align_up(addr, align);
    lemma_align_down_is_greatest_multiple(addr + align - 1, align);
    assert forall|m: int| #[trigger] is_aligned(m, align) && addr <= m implies up <= m by {
        if m < up {
            // up - align is a multiple too, and m would lie strictly between the two
            lemma_align_down_is_greatest_multiple(m, align);
            assert(spec_align_down(m, align) == m);
            vstd::arithmetic::div_mod::lemma_fundamental_div_mod(m, align);
            vstd::arithmetic::div_mod::lemma_fundamental_div_mod(up, align);
            let k = m / align;
            let u = up / align;
            assert(k < u) by (nonlinear_arith)
                requires
                    align * k < align * u,
                    align > 0,
            ;
            assert(align * k <= align * (u - 1)) by (nonlinear_arith)
                requires
                    k <= u - 1,
                    align > 0,
            ;
            assert(align * (u - 1) == align * u - align) by (nonlinear_arith);
        }
    }
    if is_aligned(addr, align) {
        assert(up <= addr);
    }
}

/// Whether `align` is a power of two.
pub fn is_power_of_two(align: usize) -> (yes: bool)
    ensures
        yes == is_pow2(align as int),
{
    proof {
        lemma_pow2_has_one_bit(align);
    }
    align != 0 && align & (align - 1) == 0
}

/// Rounds `addr` down to a multiple of `align`.
pub fn align_down(addr: usize, align: usize) -> (aligned: usize)
    requires
        valid_align(align),
    ensures
        aligned == spec_align_down(addr as int, align as int),
        aligned <= addr,
        align > 0 ==> is_aligned(aligned as int, align as int) && addr - aligned < align,
{
    if align == 0 {
        addr
    } else {
        proof {
            lemma_mask_rounds_down(addr, align);
            lemma_align_down_is_greatest_multiple(addr as int, align as int);
        }
        addr & !(align - 1)
    }
}

/// Rounds `addr` up to a multiple of `align`.
pub fn align_up(addr: usize, align: usize) -> (aligned: usize)
    requires
        valid_align(align),
        1 <= addr + align <= usize::MAX,
    ensures
        aligned == spec_align_up(addr as int, align as int),
        align > 0 ==> is_aligned(aligned as int, align as int) && addr <= aligned < addr + align,
{
    proof {
        if align > 0 {
            lemma_align_up_is_least_multiple(addr as int, align as int);
        }
    }
    align_down(addr + align - 1, align)
}

/// Rounds `addr` up to a multiple of `align`, or reports that the result does not fit
/// in an address.
pub fn checked_align_up(addr: usize, align: usize) -> (aligned: Option<usize>)
    requires
        is_pow2(align as int),
    ensures
        match aligned {
            Some(a) => a == spec_align_up(addr as int, align as int),
            None => spec_align_up(addr as int, align as int) > usize::MAX,
        },
{
    proof {
        lemma_pow2_is_positive(align as int);
    }
    let low: usize = align_down(addr, align);
    proof {
        lemma_align_up_is_least_multiple(addr as int, align as int);
        if low != addr {
            let r = addr as int % align as int;
            vstd::arithmetic::div_mod::lemma_fundamental_div_mod(addr as int, align as int);
            let q = addr as int / align as int;
            assert(addr + align - 1 == align * (q + 1) + (r - 1)) by (nonlinear_arith)
                requires
                    addr == align * q + r,
            ;
            vstd::arithmetic::div_mod::lemma_fundamental_div_mod_converse(
                addr + align - 1,
                align as int,
                q + 1,
                r - 1,
            );
        }
    }
    if low == addr {
        Some(addr)
    } else if low > usize::MAX - align {
        None
    } else {
        Some(low + align)
    }
}

} // verus!
