//! Fixed-point color arithmetic.
//!
//! A color channel is a sixteen-bit fixed-point number: the value `UNIT`
//! stands for the real intensity 1.0, a value `v` for `v / UNIT`.  The
//! module converts between fixed-point channels and 8-bit storage
//! channels, multiplies colors, and layers an "over" color onto an
//! "under" color.
//!
//! The blending law is fixed as follows.  The over color's weight is the
//! curve `1 - (1 - a)^2` of its alpha `a`; each result channel is the
//! weighted mean `w * over + (1 - w) * under`; the result alpha is the
//! quadrature sum `sqrt(over.a^2 + under.a^2)` clamped to 1.  An opaque
//! over color replaces the under color exactly, and a fully transparent
//! over color leaves it exactly unchanged.

use vstd::arithmetic::div_mod::lemma_fundamental_div_mod;
use vstd::arithmetic::div_mod::lemma_mod_division_less_than_divisor;
use vstd::prelude::*;

verus! {

/// The fixed-point channel value that stands for the intensity 1.0.
pub const UNIT: u16 = 65535;

/// One 8-bit quantization step in fixed-point channel units: `UNIT / 255`.
pub const STEP: u16 = 257;

/// An RGBA color with fixed-point channels in `0 ..= UNIT`.
#[derive(Clone, Copy, PartialEq, Eq, Structural, Debug)]
pub struct Color {
    pub r: u16,
    pub g: u16,
    pub b: u16,
    pub a: u16,
}

/// The quotient `n / d` rounded to the nearest integer, halves rounded up.
pub open spec fn rdiv(n: int, d: int) -> int
    recommends
        0 <= n,
        0 < d,
{
    (2 * n + d) / (2 * d)
}

/// `rdiv(n, d)` lies within a half step of the exact quotient:
/// `2 * d * rdiv(n, d)` is at most `2 * n + d`, which is less than
/// `2 * d * (rdiv(n, d) + 1)`.
pub proof fn lemma_rdiv_bounds(n: int, d: int)
    requires
        0 <= n,
        0 < d,
    ensures
        2 * d * rdiv(n, d) <= 2 * n + d,
        2 * n + d < 2 * d * (rdiv(n, d) + 1),
{
    let x = 2 * n + d;
    let e = 2 * d;
    lemma_fundamental_div_mod(x, e);
    lemma_mod_division_less_than_divisor(x, e);
    let q = x / e;
    let r = x % e;
    assert(2 * d * q <= 2 * n + d && 2 * n + d < 2 * d * (q + 1)) by (nonlinear_arith)
        requires
            x == e * q + r,
            0 <= r < e,
            e == 2 * d,
            x == 2 * n + d,
            0 < d,
    {
    }
}

/// Rounded division never exceeds `a` when `n <= a * d`.
pub proof fn lemma_rdiv_le(n: int, d: int, a: int)
    requires
        0 <= n,
        0 < d,
        0 <= a,
        n <= a * d,
    ensures
        0 <= rdiv(n, d) <= a,
{
    lemma_rdiv_bounds(n, d);
    let q = rdiv(n, d);
    assert(0 <= q && q <= a) by (nonlinear_arith)
        requires
            2 * d * q <= 2 * n + d,
            2 * n + d < 2 * d * (q + 1),
            0 <= n,
            0 < d,
            0 <= a,
            n <= a * d,
    {
    }
}

/// Rounded division of an exact multiple recovers the factor.
pub proof fn lemma_rdiv_exact(a: int, d: int)
    requires
        0 <= a,
        0 < d,
    ensures
        rdiv(a * d, d) == a,
{
    lemma_rdiv_bounds(a * d, d);
    let q = rdiv(a * d, d);
    assert(q == a) by (nonlinear_arith)
        requires
            2 * d * q <= 2 * (a * d) + d,
            2 * (a * d) + d < 2 * d * (q + 1),
            0 <= a,
            0 < d,
    {
    }
}

/// Rounded division by `d` moves a value by at most half of `d`.
pub proof fn lemma_rdiv_close(n: int, d: int)
    requires
        0 <= n,
        0 < d,
    ensures
        -d <= d * rdiv(n, d) - n <= d,
{
    lemma_rdiv_bounds(n, d);
    let q = rdiv(n, d);
    assert(-d <= d * q - n <= d) by (nonlinear_arith)
        requires
            2 * d * q <= 2 * n + d,
            2 * n + d < 2 * d * (q + 1),
            0 <= n,
            0 < d,
    {
    }
}

/// Executable rounded division on 64-bit operands.
fn rdiv_u64(n: u64, d: u64) -> (r: u64)
    requires
        0 < d,
        n < 0x4000_0000_0000_0000,
        d < 0x4000_0000_0000_0000,
    ensures
        r as int == rdiv(n as int, d as int),
{
    (2 * n + d) / (2 * d)
}

/// The integer square root, defined by counting up.
pub open spec fn sqrt_floor(n: int) -> int
    recommends
        0 <= n,
    decreases n,
{
    if n <= 0 {
        0
    } else {
        let p = sqrt_floor(n - 1);
        if (p + 1) * (p + 1) <= n {
            p + 1
        } else {
            p
        }
    }
}

/// `sqrt_floor(n)` is the greatest integer whose square is at most `n`.
pub proof fn lemma_sqrt_floor(n: int)
    requires
        0 <= n,
    ensures
        0 <= sqrt_floor(n),
        sqrt_floor(n) * sqrt_floor(n) <= n,
        n < (sqrt_floor(n) + 1) * (sqrt_floor(n) + 1),
    decreases n,
{
    if n <= 0 {
    } else {
        lemma_sqrt_floor(n - 1);
        let p = sqrt_floor(n - 1);
        if (p + 1) * (p + 1) <= n {
            assert(sqrt_floor(n) == p + 1);
            assert(n < (p + 1 + 1) * (p + 1 + 1)) by (nonlinear_arith)
                requires
                    n - 1 < (p + 1) * (p + 1),
                    0 <= p,
                    0 < n,
            {
            }
        } else {
            assert(sqrt_floor(n) == p);
            assert(p * p <= n - 1);
        }
    }
}

/// Two integers with the square-root property agree.
proof fn lemma_sqrt_unique(n: int, r: int)
    requires
        0 <= n,
        0 <= r,
        r * r <= n,
        n < (r + 1) * (r + 1),
    ensures
        r == sqrt_floor(n),
{
    lemma_sqrt_floor(n);
    let s = sqrt_floor(n);
    assert(r == s) by (nonlinear_arith)
        requires
            r * r <= n,
            n < (r + 1) * (r + 1),
            s * s <= n,
            n < (s + 1) * (s + 1),
            0 <= r,
            0 <= s,
    {
    }
}

/// Executable integer square root by bisection.
fn isqrt_u64(n: u64) -> (r: u64)
    requires
        n < 0x4_0000_0000,
    ensures
        r as int == sqrt_floor(n as int),
        r * r <= n,
{
    let mut lo: u64 = 0;
    let mut hi: u64 = 0x2_0000;
    while lo + 1 < hi
        invariant
            0 <= lo < hi <= 0x2_0000,
            lo * lo <= n,
            (n as int) < (hi as int) * (hi as int),
        decreases hi - lo,
    {
        let mid = lo + (hi - lo) / 2;
        proof {
            assert(mid as int * mid as int <= 0x2_0000 * 0x2_0000) by (nonlinear_arith)
                requires
                    0 <= mid as int <= 0x2_0000,
            {
            }
        }
        if mid * mid <= n {
            lo = mid;
        } else {
            hi = mid;
        }
    }
    proof {
        lemma_sqrt_unique(n as int, lo as int);
    }
    lo
}

/// The 8-bit image of a fixed-point color: each channel rounded to the
/// nearest multiple of `STEP` and rescaled to `0 ..= 255`.
pub open spec fn to_rgba8_spec(c: Color) -> (u8, u8, u8, u8) {
    (
        rdiv(c.r as int, STEP as int) as u8,
        rdiv(c.g as int, STEP as int) as u8,
        rdiv(c.b as int, STEP as int) as u8,
        rdiv(c.a as int, STEP as int) as u8,
    )
}

/// The fixed-point color standing for an 8-bit RGBA quadruple.
pub open spec fn from_rgba8_spec(q: (u8, u8, u8, u8)) -> Color {
    Color {
        r: (q.0 * STEP) as u16,
        g: (q.1 * STEP) as u16,
        b: (q.2 * STEP) as u16,
        a: (q.3 * STEP) as u16,
    }
}

/// One channel of `to_rgba8_spec`, executable.
fn channel_to_u8(v: u16) -> (r: u8)
    ensures
        r as int == rdiv(v as int, STEP as int),
{
    proof {
        lemma_rdiv_le(v as int, STEP as int, 255);
    }
    rdiv_u64(v as u64, STEP as u64) as u8
}

impl Color {
    /// Quantize to 8-bit storage channels.
    pub fn to_rgba8(&self) -> (r: (u8, u8, u8, u8))
        ensures
            r == to_rgba8_spec(*self),
    {
        (channel_to_u8(self.r), channel_to_u8(self.g), channel_to_u8(self.b), channel_to_u8(
            self.a,
        ))
    }

    /// Rescale 8-bit storage channels to fixed point.
    pub fn from_rgba8(q: (u8, u8, u8, u8)) -> (r: Color)
        ensures
            r == from_rgba8_spec(q),
    {
        Color {
            r: q.0 as u16 * STEP,
            g: q.1 as u16 * STEP,
            b: q.2 as u16 * STEP,
            a: q.3 as u16 * STEP,
        }
    }
}

/// The per-channel product of two colors, each channel rounded to the
/// nearest fixed-point value.
pub open spec fn multiply_spec(x: Color, y: Color) -> Color {
    Color {
        r: rdiv(x.r as int * y.r as int, UNIT as int) as u16,
        g: rdiv(x.g as int * y.g as int, UNIT as int) as u16,
        b: rdiv(x.b as int * y.b as int, UNIT as int) as u16,
        a: rdiv(x.a as int * y.a as int, UNIT as int) as u16,
    }
}

/// One channel of `multiply_spec`, executable.
fn channel_mul(x: u16, y: u16) -> (r: u16)
    ensures
        r as int == rdiv(x as int * y as int, UNIT as int),
{
    proof {
        assert(x as int * y as int <= UNIT as int * UNIT as int) by (nonlinear_arith)
            requires
                0 <= x as int <= UNIT as int,
                0 <= y as int <= UNIT as int,
        {
        }
        lemma_rdiv_le(x as int * y as int, UNIT as int, UNIT as int);
    }
    rdiv_u64(x as u64 * y as u64, UNIT as u64) as u16
}

/// Multiply two colors channel by channel, as when a sampled texel is
/// tinted by a draw color.
pub fn multiply(x: Color, y: Color) -> (r: Color)
    ensures
        r == multiply_spec(x, y),
{
    Color {
        r: channel_mul(x.r, y.r),
        g: channel_mul(x.g, y.g),
        b: channel_mul(x.b, y.b),
        a: channel_mul(x.a, y.a),
    }
}

/// The over color's blending weight: the curve `1 - (1 - a)^2` of its
/// alpha, in fixed point.
pub open spec fn over_weight_spec(a: int) -> int {
    rdiv(a * (2 * (UNIT as int) - a), UNIT as int)
}

/// One blended color channel: the mean of the over and under channels
/// weighted by `over_weight_spec` of the over alpha.
pub open spec fn blend_channel_spec(a: int, oc: int, uc: int) -> int {
    let w = over_weight_spec(a);
    rdiv(w * oc + ((UNIT as int) - w) * uc, UNIT as int)
}

/// The blended alpha: the quadrature sum of both alphas, clamped to 1.
pub open spec fn blend_alpha_spec(ao: int, au: int) -> int {
    let s = sqrt_floor(ao * ao + au * au);
    if s > UNIT as int {
        UNIT as int
    } else {
        s
    }
}

/// The fixed blending law: `over` composited onto `under`.
pub open spec fn layer_spec(over: Color, under: Color) -> Color {
    Color {
        r: blend_channel_spec(over.a as int, over.r as int, under.r as int) as u16,
        g: blend_channel_spec(over.a as int, over.g as int, under.g as int) as u16,
        b: blend_channel_spec(over.a as int, over.b as int, under.b as int) as u16,
        a: blend_alpha_spec(over.a as int, under.a as int) as u16,
    }
}

/// The over weight stays within `0 ..= UNIT`.
pub proof fn lemma_over_weight_range(a: int)
    requires
        0 <= a <= UNIT as int,
    ensures
        0 <= over_weight_spec(a) <= UNIT as int,
{
    let u = UNIT as int;
    assert(0 <= a * (2 * u - a) && a * (2 * u - a) <= u * u) by (nonlinear_arith)
        requires
            0 <= a <= u,
            u == UNIT as int,
    {
        assert((u - a) * (u - a) >= 0);
    }
    lemma_rdiv_le(a * (2 * u - a), u, u);
}

/// A blended channel stays within `0 ..= UNIT`.
pub proof fn lemma_blend_channel_range(a: int, oc: int, uc: int)
    requires
        0 <= a <= UNIT as int,
        0 <= oc <= UNIT as int,
        0 <= uc <= UNIT as int,
    ensures
        0 <= blend_channel_spec(a, oc, uc) <= UNIT as int,
{
    let u = UNIT as int;
    lemma_over_weight_range(a);
    let w = over_weight_spec(a);
    assert(0 <= w * oc + (u - w) * uc && w * oc + (u - w) * uc <= u * u) by (nonlinear_arith)
        requires
            0 <= w <= u,
            0 <= oc <= u,
            0 <= uc <= u,
    {
    }
    lemma_rdiv_le(w * oc + (u - w) * uc, u, u);
}

/// The executable over weight.
fn over_weight(a: u16) -> (w: u16)
    ensures
        w as int == over_weight_spec(a as int),
        w <= UNIT,
{
    proof {
        lemma_over_weight_range(a as int);
    }
    rdiv_u64(a as u64 * (2 * UNIT as u64 - a as u64), UNIT as u64) as u16
}

/// One executable blended channel, given the precomputed weight.
fn blend_channel(a: u16, oc: u16, uc: u16) -> (r: u16)
    ensures
        r as int == blend_channel_spec(a as int, oc as int, uc as int),
{
    let w = over_weight(a);
    proof {
        lemma_blend_channel_range(a as int, oc as int, uc as int);
        assert(0 <= w as int * oc as int + (UNIT as int - w as int) * uc as int <= UNIT as int
            * UNIT as int) by (nonlinear_arith)
            requires
                0 <= w as int <= UNIT as int,
                0 <= oc as int <= UNIT as int,
                0 <= uc as int <= UNIT as int,
        {
        }
    }
    rdiv_u64(w as u64 * oc as u64 + (UNIT as u64 - w as u64) * uc as u64, UNIT as u64) as u16
}

/// Composite `over` onto `under` by the fixed blending law.
pub fn layer(over: Color, under: Color) -> (r: Color)
    ensures
        r == layer_spec(over, under),
{
    proof {
        assert(over.a as int * over.a as int <= 65535 * 65535 && under.a as int * under.a as int
            <= 65535 * 65535) by (nonlinear_arith)
            requires
                0 <= over.a as int <= 65535,
                0 <= under.a as int <= 65535,
        {
        }
    }
    let s = isqrt_u64(over.a as u64 * over.a as u64 + under.a as u64 * under.a as u64);
    let alpha: u16 = if s > UNIT as u64 {
        UNIT
    } else {
        s as u16
    };
    Color {
        r: blend_channel(over.a, over.r, under.r),
        g: blend_channel(over.a, over.g, under.g),
        b: blend_channel(over.a, over.b, under.b),
        a: alpha,
    }
}

/// Layering an opaque color replaces the destination exactly.
pub proof fn lemma_layer_opaque(over: Color, under: Color)
    requires
        over.a == UNIT,
    ensures
        layer_spec(over, under) == over,
{
    let u = UNIT as int;
    assert(u * (2 * u - u) == u * u) by (nonlinear_arith);
    lemma_rdiv_exact(u, u);
    assert(over_weight_spec(u) == u);
    assert(blend_channel_spec(over.a as int, over.r as int, under.r as int) == over.r as int) by {
        assert(u * (over.r as int) + (u - u) * (under.r as int) == (over.r as int) * u)
            by (nonlinear_arith);
        lemma_rdiv_exact(over.r as int, u);
    }
    assert(blend_channel_spec(over.a as int, over.g as int, under.g as int) == over.g as int) by {
        assert(u * (over.g as int) + (u - u) * (under.g as int) == (over.g as int) * u)
            by (nonlinear_arith);
        lemma_rdiv_exact(over.g as int, u);
    }
    assert(blend_channel_spec(over.a as int, over.b as int, under.b as int) == over.b as int) by {
        assert(u * (over.b as int) + (u - u) * (under.b as int) == (over.b as int) * u)
            by (nonlinear_arith);
        lemma_rdiv_exact(over.b as int, u);
    }
    let n = u * u + (under.a as int) * (under.a as int);
    lemma_sqrt_floor(n);
    let s = sqrt_floor(n);
    assert(s >= u) by (nonlinear_arith)
        requires
            (s + 1) * (s + 1) > n,
            n >= u * u,
            s >= 0,
            u >= 0,
            n == (u * u + (under.a as int) * (under.a as int)),
    {
    }
    assert(blend_alpha_spec(over.a as int, under.a as int) == u);
}

/// Layering a fully transparent color leaves the destination exactly
/// unchanged.
pub proof fn lemma_layer_transparent(over: Color, under: Color)
    requires
        over.a == 0,
    ensures
        layer_spec(over, under) == under,
{
    let u = UNIT as int;
    assert(over_weight_spec(0) == rdiv(0, u));
    assert(rdiv(0, u) == 0) by {
        let q = rdiv(0, u);
        lemma_rdiv_bounds(0, u);
        assert(q == 0) by (nonlinear_arith)
            requires
                2 * u * q <= u,
                u < 2 * u * (q + 1),
                u > 0,
        {
        }
    }
    assert(blend_channel_spec(0, over.r as int, under.r as int) == under.r as int) by {
        assert(0 * (over.r as int) + (u - 0) * (under.r as int) == (under.r as int) * u)
            by (nonlinear_arith);
        lemma_rdiv_exact(under.r as int, u);
    }
    assert(blend_channel_spec(0, over.g as int, under.g as int) == under.g as int) by {
        assert(0 * (over.g as int) + (u - 0) * (under.g as int) == (under.g as int) * u)
            by (nonlinear_arith);
        lemma_rdiv_exact(under.g as int, u);
    }
    assert(blend_channel_spec(0, over.b as int, under.b as int) == under.b as int) by {
        assert(0 * (over.b as int) + (u - 0) * (under.b as int) == (under.b as int) * u)
            by (nonlinear_arith);
        lemma_rdiv_exact(under.b as int, u);
    }
    let au = under.a as int;
    assert(au * au < (au + 1) * (au + 1)) by (nonlinear_arith)
        requires
            0 <= au,
    {
    }
    lemma_sqrt_unique(au * au, au);
    assert(blend_alpha_spec(0, au) == au);
}

/// Rescaling an 8-bit quadruple to fixed point and quantizing it back
/// is exact: the quantization boundary loses nothing on values that
/// came from storage.
pub proof fn lemma_quantize_exact(q: (u8, u8, u8, u8))
    ensures
        to_rgba8_spec(from_rgba8_spec(q)) == q,
{
    lemma_rdiv_exact(q.0 as int, STEP as int);
    lemma_rdiv_exact(q.1 as int, STEP as int);
    lemma_rdiv_exact(q.2 as int, STEP as int);
    lemma_rdiv_exact(q.3 as int, STEP as int);
}

/// Quantizing a color to 8 bits and rescaling moves every channel by at
/// most one 8-bit step.
pub proof fn lemma_quantize_round_trip(c: Color)
    ensures
        -(STEP as int) <= from_rgba8_spec(to_rgba8_spec(c)).r - c.r <= STEP as int,
        -(STEP as int) <= from_rgba8_spec(to_rgba8_spec(c)).g - c.g <= STEP as int,
        -(STEP as int) <= from_rgba8_spec(to_rgba8_spec(c)).b - c.b <= STEP as int,
        -(STEP as int) <= from_rgba8_spec(to_rgba8_spec(c)).a - c.a <= STEP as int,
{
    let s = STEP as int;
    lemma_rdiv_le(c.r as int, s, 255);
    lemma_rdiv_le(c.g as int, s, 255);
    lemma_rdiv_le(c.b as int, s, 255);
    lemma_rdiv_le(c.a as int, s, 255);
    lemma_rdiv_close(c.r as int, s);
    lemma_rdiv_close(c.g as int, s);
    lemma_rdiv_close(c.b as int, s);
    lemma_rdiv_close(c.a as int, s);
    assert(s * rdiv(c.r as int, s) == rdiv(c.r as int, s) * s) by (nonlinear_arith);
    assert(s * rdiv(c.g as int, s) == rdiv(c.g as int, s) * s) by (nonlinear_arith);
    assert(s * rdiv(c.b as int, s) == rdiv(c.b as int, s) * s) by (nonlinear_arith);
    assert(s * rdiv(c.a as int, s) == rdiv(c.a as int, s) * s) by (nonlinear_arith);
}

} // verus!
