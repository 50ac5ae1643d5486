//! Bit-level IEEE 754 conversions between the half (16-bit), single
//! (32-bit) and double (64-bit) formats, on bit patterns held as plain
//! unsigned integers. The decoder widens half and single wire values to
//! double bits; the encoder narrows double bits to the shortest width that
//! represents the value exactly. Everything here is exact integer
//! arithmetic: the numeric value never leaves its bit pattern.

use vstd::arithmetic::div_mod::lemma_div_denominator;
use vstd::arithmetic::div_mod::lemma_div_multiples_vanish_fancy;
use vstd::arithmetic::div_mod::lemma_fundamental_div_mod;
use vstd::arithmetic::div_mod::lemma_mod_multiples_vanish;
use vstd::arithmetic::div_mod::lemma_small_mod;
use vstd::arithmetic::div_mod::lemma_multiply_divide_lt;
use vstd::arithmetic::power2::lemma2_to64;
use vstd::arithmetic::power2::lemma2_to64_rest;
use vstd::arithmetic::power2::lemma_pow2_adds;
use vstd::arithmetic::power2::lemma_pow2_pos;
use vstd::arithmetic::power2::lemma_pow2_strictly_increases;
use vstd::arithmetic::power2::pow2;
use vstd::prelude::*;

verus! {

/// Assembles a sign bit, an 11-bit exponent field and a 52-bit mantissa
/// field into the bit pattern of a 64-bit IEEE 754 value.
pub open spec fn pack_double(s: int, e: int, m: int) -> u64
    recommends
        0 <= s < 2,
        0 <= e < 2048,
        0 <= m < 0x10_0000_0000_0000,
{
    (s * 0x8000_0000_0000_0000 + e * 0x10_0000_0000_0000 + m) as u64
}

/// The number of binary digits of `m`: zero for zero, and otherwise the
/// unique `w` with `pow2(w - 1) <= m < pow2(w)`.
pub open spec fn bit_width(m: nat) -> nat
    decreases m,
{
    if m == 0 {
        0
    } else {
        (1 + bit_width(m / 2)) as nat
    }
}

pub proof fn lemma_bit_width_bounds(m: nat)
    requires
        m >= 1,
    ensures
        bit_width(m) >= 1,
        pow2((bit_width(m) - 1) as nat) <= m < pow2(bit_width(m)),
    decreases m,
{
    if m == 1 {
        reveal_with_fuel(bit_width, 2);
        lemma2_to64();
    } else {
        lemma_bit_width_bounds(m / 2);
        let w = bit_width(m / 2);
        assert(pow2((w - 1) as nat) <= m / 2 < pow2(w));
        assert(pow2(w) == 2 * pow2((w - 1) as nat)) by {
            lemma_pow2_adds(1, (w - 1) as nat);
            lemma2_to64();
        }
        assert(pow2(w + 1) == 2 * pow2(w)) by {
            lemma_pow2_adds(1, w);
            lemma2_to64();
        }
        assert(2 * (m / 2) <= m < 2 * (m / 2) + 2);
    }
}

pub proof fn lemma_bit_width_unique(m: nat, k: nat)
    requires
        pow2(k) <= m < pow2(k + 1),
    ensures
        bit_width(m) == k + 1,
{
    lemma_pow2_pos(k);
    lemma_bit_width_bounds(m);
    let w = bit_width(m);
    if w < k + 1 {
        lemma_pow2_strictly_increases((w - 1) as nat, k);
        assert(pow2(w) <= pow2(k)) by {
            if w < k {
                lemma_pow2_strictly_increases(w, k);
            }
        }
    }
    if w > k + 1 {
        assert(pow2(k + 1) <= pow2((w - 1) as nat)) by {
            if k + 1 < w - 1 {
                lemma_pow2_strictly_increases(k + 1, (w - 1) as nat);
            }
        }
    }
}

/// `pow2` for exponents small enough that the power fits in a `u64`.
fn two_to(k: u64) -> (r: u64)
    requires
        k <= 63,
    ensures
        r == pow2(k as nat),
        r >= 1,
{
    let mut r: u64 = 1;
    let mut i: u64 = 0;
    proof {
        lemma2_to64();
    }
    while i < k
        invariant
            i <= k <= 63,
            r == pow2(i as nat),
        decreases k - i,
    {
        proof {
            lemma_pow2_adds(i as nat, 1);
            lemma2_to64();
            lemma2_to64_rest();
            if (i as nat) < 62 {
                lemma_pow2_strictly_increases(i as nat, 62);
            }
        }
        r = r * 2;
        i = i + 1;
    }
    proof {
        lemma_pow2_pos(k as nat);
    }
    r
}

/// The position of the highest set bit of `m`, so that
/// `pow2(k) <= m < pow2(k + 1)`.
fn highest_bit(m: u64) -> (k: u64)
    requires
        m >= 1,
    ensures
        k + 1 == bit_width(m as nat),
        k <= 63,
        pow2(k as nat) <= m < pow2((k + 1) as nat),
{
    let mut v: u64 = m;
    let mut k: u64 = 0;
    proof {
        lemma_bit_width_bounds(m as nat);
        lemma2_to64();
        if bit_width(m as nat) > 64 {
            lemma_pow2_strictly_increases(64, (bit_width(m as nat) - 1) as nat);
            assert(false);
        }
    }
    while v >= 2
        invariant
            v >= 1,
            bit_width(m as nat) == k + bit_width(v as nat),
            bit_width(m as nat) <= 64,
        decreases v,
    {
        v = v / 2;
        k = k + 1;
    }
    proof {
        reveal_with_fuel(bit_width, 2);
        lemma_bit_width_bounds(m as nat);
    }
    k
}

/// The double bit pattern of the value a half-precision (16-bit) pattern
/// denotes. Subnormal halves scale the mantissa by `2^-24` and are
/// normalized here; infinities widen to infinities; every half NaN widens
/// to the quiet NaN with an empty payload, keeping only the sign.
pub open spec fn half_to_double(h: u16) -> u64 {
    let s = h as int / 0x8000;
    let e = (h as int / 0x400) % 32;
    let m = h as int % 0x400;
    if e == 0 && m == 0 {
        pack_double(s, 0, 0)
    } else if e == 0 {
        let k = bit_width(m as nat) - 1;
        pack_double(s, 999 + k, (m - pow2(k as nat)) * pow2((52 - k) as nat))
    } else if e != 31 {
        pack_double(s, e + 1008, m * 0x400_0000_0000)
    } else if m == 0 {
        pack_double(s, 2047, 0)
    } else {
        pack_double(s, 2047, 0x8_0000_0000_0000)
    }
}

/// The double bit pattern of the value a single-precision (32-bit) pattern
/// denotes. The widening is exact: subnormal singles are normalized, and
/// NaN payloads are kept, shifted into the wider mantissa.
pub open spec fn single_to_double(w: u32) -> u64 {
    let s = w as int / 0x8000_0000;
    let e = (w as int / 0x80_0000) % 256;
    let m = w as int % 0x80_0000;
    if e == 0 && m == 0 {
        pack_double(s, 0, 0)
    } else if e == 0 {
        let k = bit_width(m as nat) - 1;
        pack_double(s, 874 + k, (m - pow2(k as nat)) * pow2((52 - k) as nat))
    } else if e != 255 {
        pack_double(s, e + 896, m * 0x2000_0000)
    } else {
        pack_double(s, 2047, m * 0x2000_0000)
    }
}

pub fn half_to_double_bits(h: u16) -> (r: u64)
    ensures
        r == half_to_double(h),
{
    let s: u64 = (h / 0x8000) as u64;
    let e: u64 = ((h / 0x400) % 32) as u64;
    let m: u64 = (h % 0x400) as u64;
    if e == 0 && m == 0 {
        s * 0x8000_0000_0000_0000
    } else if e == 0 {
        let k = highest_bit(m);
        proof {
            lemma2_to64();
            if k + 1 > 10 {
                lemma_pow2_strictly_increases(10, k as nat);
                assert(false);
            }
        }
        let p = two_to(k);
        let q = two_to(52 - k);
        proof {
            lemma_pow2_adds(k as nat, (52 - k) as nat);
            lemma_pow2_adds(1, k as nat);
            lemma_pow2_pos((52 - k) as nat);
            lemma2_to64();
            lemma2_to64_rest();
            assert(m - p < pow2(k as nat));
            assert((m - p) * q + q <= pow2(k as nat) * q) by (nonlinear_arith)
                requires
                    m - p < pow2(k as nat),
                    q >= 1,
                    p == pow2(k as nat),
                    m >= p,
            ;
            assert(pow2(k as nat) * q == pow2(52));
        }
        s * 0x8000_0000_0000_0000 + (999 + k) * 0x10_0000_0000_0000 + (m - p) * q
    } else if e != 31 {
        s * 0x8000_0000_0000_0000 + (e + 1008) * 0x10_0000_0000_0000 + m * 0x400_0000_0000
    } else if m == 0 {
        s * 0x8000_0000_0000_0000 + 2047 * 0x10_0000_0000_0000
    } else {
        s * 0x8000_0000_0000_0000 + 0x7FF8_0000_0000_0000
    }
}

pub fn single_to_double_bits(w: u32) -> (r: u64)
    ensures
        r == single_to_double(w),
{
    let s: u64 = (w / 0x8000_0000) as u64;
    let e: u64 = ((w / 0x80_0000) % 256) as u64;
    let m: u64 = (w % 0x80_0000) as u64;
    if e == 0 && m == 0 {
        s * 0x8000_0000_0000_0000
    } else if e == 0 {
        let k = highest_bit(m);
        proof {
            lemma2_to64();
            if k + 1 > 23 {
                lemma_pow2_strictly_increases(23, k as nat);
                assert(false);
            }
        }
        let p = two_to(k);
        let q = two_to(52 - k);
        proof {
            lemma_pow2_adds(k as nat, (52 - k) as nat);
            lemma_pow2_adds(1, k as nat);
            lemma_pow2_pos((52 - k) as nat);
            lemma2_to64();
            lemma2_to64_rest();
            assert(m - p < pow2(k as nat));
            assert((m - p) * q + q <= pow2(k as nat) * q) by (nonlinear_arith)
                requires
                    m - p < pow2(k as nat),
                    q >= 1,
                    p == pow2(k as nat),
                    m >= p,
            ;
            assert(pow2(k as nat) * q == pow2(52));
        }
        s * 0x8000_0000_0000_0000 + (874 + k) * 0x10_0000_0000_0000 + (m - p) * q
    } else if e != 255 {
        s * 0x8000_0000_0000_0000 + (e + 896) * 0x10_0000_0000_0000 + m * 0x2000_0000
    } else {
        s * 0x8000_0000_0000_0000 + 2047 * 0x10_0000_0000_0000 + m * 0x2000_0000
    }
}

/// The sign bit of a double bit pattern.
pub open spec fn d_sign(d: u64) -> int {
    d as int / 0x8000_0000_0000_0000
}

/// The 11-bit exponent field of a double bit pattern.
pub open spec fn d_exp(d: u64) -> int {
    (d as int / 0x10_0000_0000_0000) % 2048
}

/// The 52-bit mantissa field of a double bit pattern.
pub open spec fn d_mant(d: u64) -> int {
    d as int % 0x10_0000_0000_0000
}

/// Whether the value of a double bit pattern is exactly representable in
/// half precision, so that narrowing and widening it back gives `d` again.
/// Zeros of either sign and infinities are; NaNs are not (the original
/// value is not recovered by an equality test on NaN, and a NaN always
/// keeps its full width); normal values need an exponent in the half range
/// and 10 significant mantissa bits; values below `2^-14` must land on a
/// multiple of `2^-24`, the half subnormal step.
pub open spec fn half_exact(d: u64) -> bool {
    let e = d_exp(d);
    let m = d_mant(d);
    if e == 0 || e == 2047 {
        m == 0
    } else if 1009 <= e <= 1038 {
        m % 0x400_0000_0000 == 0
    } else if 999 <= e <= 1008 {
        m % (pow2((1051 - e) as nat) as int) == 0
    } else {
        false
    }
}

/// The half bit pattern with the same value as `d`, meaningful when
/// `half_exact(d)` holds.
pub open spec fn double_to_half(d: u64) -> u16
    recommends
        half_exact(d),
{
    let s = d_sign(d);
    let e = d_exp(d);
    let m = d_mant(d);
    if e == 0 {
        (s * 0x8000) as u16
    } else if e == 2047 {
        (s * 0x8000 + 0x7C00) as u16
    } else if 1009 <= e {
        (s * 0x8000 + (e - 1008) * 0x400 + m / 0x400_0000_0000) as u16
    } else {
        (s * 0x8000 + pow2((e - 999) as nat) + m / (pow2((1051 - e) as nat) as int)) as u16
    }
}

/// Whether the value of a double bit pattern is exactly representable in
/// single precision. The shape mirrors `half_exact` with the single
/// format's exponent range and 23-bit mantissa.
pub open spec fn single_exact(d: u64) -> bool {
    let e = d_exp(d);
    let m = d_mant(d);
    if e == 0 || e == 2047 {
        m == 0
    } else if 897 <= e <= 1150 {
        m % 0x2000_0000 == 0
    } else if 874 <= e <= 896 {
        m % (pow2((926 - e) as nat) as int) == 0
    } else {
        false
    }
}

/// The single bit pattern with the same value as `d`, meaningful when
/// `single_exact(d)` holds.
pub open spec fn double_to_single(d: u64) -> u32
    recommends
        single_exact(d),
{
    let s = d_sign(d);
    let e = d_exp(d);
    let m = d_mant(d);
    if e == 0 {
        (s * 0x8000_0000) as u32
    } else if e == 2047 {
        (s * 0x8000_0000 + 0x7F80_0000) as u32
    } else if 897 <= e {
        (s * 0x8000_0000 + (e - 896) * 0x80_0000 + m / 0x2000_0000) as u32
    } else {
        (s * 0x8000_0000 + pow2((e - 874) as nat) + m / (pow2((926 - e) as nat) as int)) as u32
    }
}

/// How a value splits into three fields stacked at widths `mid` and `lo`.
proof fn lemma_split3(t: int, mid: int, lo: int, a: int, b: int, c: int)
    requires
        0 < lo,
        0 < mid,
        0 <= a,
        0 <= b < mid,
        0 <= c < lo,
        t == a * (mid * lo) + b * lo + c,
    ensures
        t / (mid * lo) == a,
        (t / lo) % mid == b,
        t % lo == c,
{
    assert(t == lo * (a * mid + b) + c) by (nonlinear_arith)
        requires
            t == a * (mid * lo) + b * lo + c,
    ;
    lemma_div_multiples_vanish_fancy(a * mid + b, c, lo);
    assert(t / lo == a * mid + b);
    lemma_mod_multiples_vanish(a * mid + b, c, lo);
    lemma_small_mod(c as nat, lo as nat);
    assert(t % lo == c);
    lemma_mod_multiples_vanish(a, b, mid);
    lemma_small_mod(b as nat, mid as nat);
    assert((mid * a + b) % mid == b % mid);
    assert((t / lo) % mid == b);
    assert(t >= 0) by (nonlinear_arith)
        requires
            t == a * (mid * lo) + b * lo + c,
            0 <= a,
            0 <= b,
            0 <= c,
            0 < lo,
            0 < mid,
    ;
    lemma_div_denominator(t, lo, mid);
    assert(lo * mid == mid * lo) by (nonlinear_arith);
    assert(t / (mid * lo) == (t / lo) / mid);
    lemma_div_multiples_vanish_fancy(a, b, mid);
    assert((t / lo) / mid == a);
}

/// Every value splits into the three fields its divisions and remainders
/// name, with the field bounds.
proof fn lemma_join3(t: int, mid: int, lo: int)
    requires
        0 <= t,
        0 < lo,
        0 < mid,
    ensures
        t == (t / (mid * lo)) * (mid * lo) + ((t / lo) % mid) * lo + t % lo,
        0 <= t % lo < lo,
        0 <= (t / lo) % mid < mid,
        0 <= t / (mid * lo),
{
    lemma_fundamental_div_mod(t, lo);
    lemma_fundamental_div_mod(t / lo, mid);
    lemma_div_denominator(t, lo, mid);
    assert(mid * lo > 0) by (nonlinear_arith)
        requires
            0 < lo,
            0 < mid,
    ;
    assert(t == lo * (mid * (t / (lo * mid)) + (t / lo) % mid) + t % lo);
    assert(lo * (mid * (t / (lo * mid)) + (t / lo) % mid) == (t / (mid * lo)) * (mid * lo) + ((t
        / lo) % mid) * lo) by (nonlinear_arith)
        requires
            t / (lo * mid) == t / (mid * lo),
    ;
    assert(t / (mid * lo) >= 0) by (nonlinear_arith)
        requires
            t >= 0,
            mid * lo > 0,
    ;
}

/// A double bit pattern is the packing of its own three fields.
pub proof fn lemma_unpack_double(d: u64)
    ensures
        0 <= d_sign(d) < 2,
        0 <= d_exp(d) < 2048,
        0 <= d_mant(d) < 0x10_0000_0000_0000,
        d == pack_double(d_sign(d), d_exp(d), d_mant(d)),
{
    lemma_join3(d as int, 2048, 0x10_0000_0000_0000);
    assert(d_sign(d) < 2);
}

/// Narrowing a half-exact double to half precision and widening the half
/// back recovers the double exactly.
pub proof fn lemma_half_widen_narrow(d: u64)
    requires
        half_exact(d),
    ensures
        half_to_double(double_to_half(d)) == d,
{
    lemma_unpack_double(d);
    let s = d_sign(d);
    let e = d_exp(d);
    let m = d_mant(d);
    let h = double_to_half(d);
    lemma2_to64();
    lemma2_to64_rest();
    if e == 0 {
        lemma_split3(h as int, 32, 0x400, s, 0, 0);
    } else if e == 2047 {
        lemma_split3(h as int, 32, 0x400, s, 31, 0);
    } else if 1009 <= e {
        let q = m / 0x400_0000_0000;
        lemma_fundamental_div_mod(m, 0x400_0000_0000);
        lemma_multiply_divide_lt(m, 0x400_0000_0000, 0x400);
        lemma_split3(h as int, 32, 0x400, s, e - 1008, q);
        assert(q * 0x400_0000_0000 == m);
    } else {
        let sh = (1051 - e) as nat;
        let k = (e - 999) as nat;
        let p = pow2(sh) as int;
        let pk = pow2(k) as int;
        lemma_pow2_pos(sh);
        lemma_pow2_pos(k);
        lemma_pow2_adds(k, sh);
        assert(pk * p == pow2(52));
        assert(p * pk == pk * p) by (nonlinear_arith);
        let q = m / p;
        lemma_fundamental_div_mod(m, p);
        lemma_multiply_divide_lt(m, p, pk);
        assert(q < pk);
        let mant = pk + q;
        assert(pk <= 512) by {
            if k < 9 {
                lemma_pow2_strictly_increases(k, 9);
            }
        }
        lemma_split3(h as int, 32, 0x400, s, 0, mant);
        lemma_pow2_adds(1, k);
        lemma_bit_width_unique(mant as nat, k);
        assert(q * p == p * q) by (nonlinear_arith);
        assert(q * p == m);
    }
}

/// Narrowing a single-exact double to single precision and widening the
/// single back recovers the double exactly.
pub proof fn lemma_single_widen_narrow(d: u64)
    requires
        single_exact(d),
    ensures
        single_to_double(double_to_single(d)) == d,
{
    lemma_unpack_double(d);
    let s = d_sign(d);
    let e = d_exp(d);
    let m = d_mant(d);
    let w = double_to_single(d);
    lemma2_to64();
    lemma2_to64_rest();
    if e == 0 {
        lemma_split3(w as int, 256, 0x80_0000, s, 0, 0);
    } else if e == 2047 {
        lemma_split3(w as int, 256, 0x80_0000, s, 255, 0);
    } else if 897 <= e {
        let q = m / 0x2000_0000;
        lemma_fundamental_div_mod(m, 0x2000_0000);
        lemma_multiply_divide_lt(m, 0x2000_0000, 0x80_0000);
        lemma_split3(w as int, 256, 0x80_0000, s, e - 896, q);
        assert(q * 0x2000_0000 == m);
    } else {
        let sh = (926 - e) as nat;
        let k = (e - 874) as nat;
        let p = pow2(sh) as int;
        let pk = pow2(k) as int;
        lemma_pow2_pos(sh);
        lemma_pow2_pos(k);
        lemma_pow2_adds(k, sh);
        assert(pk * p == pow2(52));
        assert(p * pk == pk * p) by (nonlinear_arith);
        let q = m / p;
        lemma_fundamental_div_mod(m, p);
        lemma_multiply_divide_lt(m, p, pk);
        assert(q < pk);
        let mant = pk + q;
        assert(pk <= 0x400000) by {
            if k < 22 {
                lemma_pow2_strictly_increases(k, 22);
            }
        }
        lemma_split3(w as int, 256, 0x80_0000, s, 0, mant);
        lemma_pow2_adds(1, k);
        lemma_bit_width_unique(mant as nat, k);
        assert(q * p == p * q) by (nonlinear_arith);
        assert(q * p == m);
    }
}

/// The half bit pattern with the same value as `d`, or `None` when the
/// value of `d` does not survive the narrowing exactly.
pub fn try_narrow_half(d: u64) -> (r: Option<u16>)
    ensures
        r == (if half_exact(d) {
            Some(double_to_half(d))
        } else {
            None::<u16>
        }),
{
    let s: u64 = d / 0x8000_0000_0000_0000;
    let e: u64 = (d / 0x10_0000_0000_0000) % 2048;
    let m: u64 = d % 0x10_0000_0000_0000;
    if e == 0 || e == 2047 {
        if m == 0 {
            let base: u64 = if e == 2047 {
                0x7C00
            } else {
                0
            };
            Some((s * 0x8000 + base) as u16)
        } else {
            None
        }
    } else if 1009 <= e && e <= 1038 {
        if m % 0x400_0000_0000 == 0 {
            Some((s * 0x8000 + (e - 1008) * 0x400 + m / 0x400_0000_0000) as u16)
        } else {
            None
        }
    } else if 999 <= e && e <= 1008 {
        let p = two_to(1051 - e);
        let pk = two_to(e - 999);
        proof {
            lemma2_to64();
            if e - 999 < 9 {
                lemma_pow2_strictly_increases((e - 999) as nat, 9);
            }
            assert(m / p <= m) by (nonlinear_arith)
                requires
                    p >= 1,
                    m >= 0,
            ;
        }
        if m % p == 0 {
            Some((s * 0x8000 + pk + m / p) as u16)
        } else {
            None
        }
    } else {
        None
    }
}

/// The single bit pattern with the same value as `d`, or `None` when the
/// value of `d` does not survive the narrowing exactly.
pub fn try_narrow_single(d: u64) -> (r: Option<u32>)
    ensures
        r == (if single_exact(d) {
            Some(double_to_single(d))
        } else {
            None::<u32>
        }),
{
    let s: u64 = d / 0x8000_0000_0000_0000;
    let e: u64 = (d / 0x10_0000_0000_0000) % 2048;
    let m: u64 = d % 0x10_0000_0000_0000;
    if e == 0 || e == 2047 {
        if m == 0 {
            let base: u64 = if e == 2047 {
                0x7F80_0000
            } else {
                0
            };
            Some((s * 0x8000_0000 + base) as u32)
        } else {
            None
        }
    } else if 897 <= e && e <= 1150 {
        if m % 0x2000_0000 == 0 {
            Some((s * 0x8000_0000 + (e - 896) * 0x80_0000 + m / 0x2000_0000) as u32)
        } else {
            None
        }
    } else if 874 <= e && e <= 896 {
        let p = two_to(926 - e);
        let pk = two_to(e - 874);
        proof {
            lemma2_to64();
            if e - 874 < 22 {
                lemma_pow2_strictly_increases((e - 874) as nat, 22);
            }
            assert(m / p <= m) by (nonlinear_arith)
                requires
                    p >= 1,
                    m >= 0,
            ;
        }
        if m % p == 0 {
            Some((s * 0x8000_0000 + pk + m / p) as u32)
        } else {
            None
        }
    } else {
        None
    }
}

} // verus!
