//! Fixed-point plane geometry for the rasterizer.
//!
//! Coordinates are 16.16 fixed point: the value `SCALE` stands for one
//! pixel.  The module provides the edge-sign point-in-triangle test, the
//! clipped bounding box of a triangle, and the barycentric mapping that
//! carries a destination-space point into texture space.

use vstd::arithmetic::div_mod::lemma_hoist_over_denominator;
use vstd::prelude::*;

verus! {

/// The fixed-point coordinate value that stands for one pixel.
pub const SCALE: i64 = 65536;

/// The largest coordinate magnitude the geometry accepts; keeps every
/// intermediate product of the edge tests inside 64 bits.
pub const COORD_LIMIT: i64 = 0x2000_0000;

/// `COORD_LIMIT / SCALE`: the largest pixel index a coordinate can name.
pub const PIXEL_LIMIT: i64 = 8192;

/// A point of the fixed-point plane.
#[derive(Clone, Copy, PartialEq, Eq, Structural, Debug)]
pub struct Vec2 {
    pub x: i64,
    pub y: i64,
}

/// A triangle given by its three vertices.
#[derive(Clone, Copy, PartialEq, Eq, Structural, Debug)]
pub struct Triangle {
    pub a: Vec2,
    pub b: Vec2,
    pub c: Vec2,
}

/// The point lies within the coordinate range the geometry accepts.
pub open spec fn coord_ok(p: Vec2) -> bool {
    &&& -(COORD_LIMIT as int) <= p.x <= COORD_LIMIT as int
    &&& -(COORD_LIMIT as int) <= p.y <= COORD_LIMIT as int
}

/// All three vertices lie within the coordinate range.
pub open spec fn tri_ok(t: Triangle) -> bool {
    coord_ok(t.a) && coord_ok(t.b) && coord_ok(t.c)
}

/// The minimum of two integers.
pub open spec fn imin(a: int, b: int) -> int {
    if a < b {
        a
    } else {
        b
    }
}

/// The maximum of two integers.
pub open spec fn imax(a: int, b: int) -> int {
    if a < b {
        b
    } else {
        a
    }
}

/// `v` held to the range `lo ..= hi`.
pub open spec fn iclamp(v: int, lo: int, hi: int) -> int {
    if v < lo {
        lo
    } else if v > hi {
        hi
    } else {
        v
    }
}

/// The signed parallelogram area of `p1` and `p2` relative to `p3`: the
/// edge-function of the rasterizer's point-in-triangle test.
pub open spec fn sign_spec(p1: Vec2, p2: Vec2, p3: Vec2) -> int {
    (p1.x - p3.x) * (p2.y - p3.y) - (p2.x - p3.x) * (p1.y - p3.y)
}

/// The point-in-triangle test: the three edge signs agree.  The test is
/// winding-order agnostic; only consistency of the three signs counts.
pub open spec fn contains_spec(t: Triangle, p: Vec2) -> bool {
    let s1 = sign_spec(p, t.a, t.b);
    let s2 = sign_spec(p, t.b, t.c);
    let s3 = sign_spec(p, t.c, t.a);
    ((s1 < 0) == (s2 < 0)) && ((s2 < 0) == (s3 < 0))
}

/// The product of two values bounded by `COORD_LIMIT * 2` stays within
/// `i64` range.
proof fn lemma_edge_product_bound(a: int, b: int)
    requires
        -0x4000_0000 <= a <= 0x4000_0000,
        -0x4000_0000 <= b <= 0x4000_0000,
    ensures
        -0x1000_0000_0000_0000 <= a * b <= 0x1000_0000_0000_0000,
{
    assert(-0x1000_0000_0000_0000 <= a * b <= 0x1000_0000_0000_0000) by (nonlinear_arith)
        requires
            -0x4000_0000 <= a <= 0x4000_0000,
            -0x4000_0000 <= b <= 0x4000_0000,
    {
    }
}

/// The executable edge function.
pub fn sign(p1: Vec2, p2: Vec2, p3: Vec2) -> (r: i64)
    requires
        coord_ok(p1),
        coord_ok(p2),
        coord_ok(p3),
    ensures
        r as int == sign_spec(p1, p2, p3),
{
    proof {
        lemma_edge_product_bound(p1.x - p3.x, p2.y - p3.y);
        lemma_edge_product_bound(p2.x - p3.x, p1.y - p3.y);
    }
    (p1.x - p3.x) * (p2.y - p3.y) - (p2.x - p3.x) * (p1.y - p3.y)
}

/// The executable point-in-triangle test.
pub fn triangle_contains(t: &Triangle, p: Vec2) -> (r: bool)
    requires
        tri_ok(*t),
        coord_ok(p),
    ensures
        r == contains_spec(*t, p),
{
    let s1 = sign(p, t.a, t.b);
    let s2 = sign(p, t.b, t.c);
    let s3 = sign(p, t.c, t.a);
    ((s1 < 0) == (s2 < 0)) && ((s2 < 0) == (s3 < 0))
}

/// The pixel row or column of a coordinate: the floor of `v / SCALE`.
pub open spec fn floor_scale(v: int) -> int {
    v / (SCALE as int)
}

/// The first pixel row or column at or after a coordinate: the ceiling
/// of `v / SCALE`.
pub open spec fn ceil_scale(v: int) -> int {
    (v + SCALE as int - 1) / (SCALE as int)
}

/// Executable floor of `v / SCALE` for range-checked coordinates.
pub fn floor_scale_exec(v: i64) -> (r: i64)
    requires
        -(COORD_LIMIT as int) <= v as int <= COORD_LIMIT as int,
    ensures
        r as int == floor_scale(v as int),
        -(PIXEL_LIMIT as int) <= r as int <= PIXEL_LIMIT as int,
{
    proof {
        lemma_hoist_over_denominator(v as int, PIXEL_LIMIT as int, SCALE as nat);
        assert((COORD_LIMIT as int) == (PIXEL_LIMIT as int) * (SCALE as int));
        vstd::arithmetic::div_mod::lemma_div_is_ordered(
            0,
            v as int + COORD_LIMIT as int,
            SCALE as int,
        );
        vstd::arithmetic::div_mod::lemma_div_is_ordered(
            v as int + COORD_LIMIT as int,
            2 * COORD_LIMIT as int,
            SCALE as int,
        );
        assert(0int / (SCALE as int) == 0);
        assert((2 * COORD_LIMIT as int) / (SCALE as int) == 16384);
    }
    (v + COORD_LIMIT) / SCALE - PIXEL_LIMIT
}

/// Executable ceiling of `v / SCALE` for range-checked coordinates.
pub fn ceil_scale_exec(v: i64) -> (r: i64)
    requires
        -(COORD_LIMIT as int) <= v as int <= COORD_LIMIT as int,
    ensures
        r as int == ceil_scale(v as int),
        -(PIXEL_LIMIT as int) <= r as int <= PIXEL_LIMIT as int + 1,
{
    proof {
        lemma_hoist_over_denominator(v as int + SCALE as int - 1, PIXEL_LIMIT as int, SCALE as nat);
        assert((COORD_LIMIT as int) == (PIXEL_LIMIT as int) * (SCALE as int));
        vstd::arithmetic::div_mod::lemma_div_is_ordered(
            0,
            v as int + SCALE as int - 1 + COORD_LIMIT as int,
            SCALE as int,
        );
        vstd::arithmetic::div_mod::lemma_div_is_ordered(
            v as int + SCALE as int - 1 + COORD_LIMIT as int,
            2 * COORD_LIMIT as int + SCALE as int - 1,
            SCALE as int,
        );
        assert(0int / (SCALE as int) == 0);
        assert((2 * COORD_LIMIT as int + SCALE as int - 1) / (SCALE as int) == 16384);
    }
    (v + SCALE - 1 + COORD_LIMIT) / SCALE - PIXEL_LIMIT
}

/// The clipped bounding box of a triangle on a `width` by `height`
/// buffer: low edges by floor, high edges by ceiling, held to the
/// buffer's extent.  A pixel `(x, y)` belongs to the box when
/// `left <= x < right` and `top <= y < bottom`.
pub open spec fn bbox_left(t: Triangle) -> int {
    imax(floor_scale(imin(imin(t.a.x as int, t.b.x as int), t.c.x as int)), 0)
}

/// See [`bbox_left`].
pub open spec fn bbox_top(t: Triangle) -> int {
    imax(floor_scale(imin(imin(t.a.y as int, t.b.y as int), t.c.y as int)), 0)
}

/// See [`bbox_left`].
pub open spec fn bbox_right(t: Triangle, width: int) -> int {
    imin(ceil_scale(imax(imax(t.a.x as int, t.b.x as int), t.c.x as int)), width)
}

/// See [`bbox_left`].
pub open spec fn bbox_bottom(t: Triangle, height: int) -> int {
    imin(ceil_scale(imax(imax(t.a.y as int, t.b.y as int), t.c.y as int)), height)
}

/// The executable clipped bounding box, as
/// `(left, top, right, bottom)`.
pub fn clipped_bbox(t: &Triangle, width: u32, height: u32) -> (r: (i64, i64, i64, i64))
    requires
        tri_ok(*t),
    ensures
        r.0 as int == bbox_left(*t),
        r.1 as int == bbox_top(*t),
        r.2 as int == bbox_right(*t, width as int),
        r.3 as int == bbox_bottom(*t, height as int),
        0 <= r.0,
        0 <= r.1,
        r.2 as int <= imin(PIXEL_LIMIT as int + 1, width as int),
        r.3 as int <= imin(PIXEL_LIMIT as int + 1, height as int),
{
    let minx = if t.a.x < t.b.x {
        if t.a.x < t.c.x {
            t.a.x
        } else {
            t.c.x
        }
    } else {
        if t.b.x < t.c.x {
            t.b.x
        } else {
            t.c.x
        }
    };
    let maxx = if t.a.x > t.b.x {
        if t.a.x > t.c.x {
            t.a.x
        } else {
            t.c.x
        }
    } else {
        if t.b.x > t.c.x {
            t.b.x
        } else {
            t.c.x
        }
    };
    let miny = if t.a.y < t.b.y {
        if t.a.y < t.c.y {
            t.a.y
        } else {
            t.c.y
        }
    } else {
        if t.b.y < t.c.y {
            t.b.y
        } else {
            t.c.y
        }
    };
    let maxy = if t.a.y > t.b.y {
        if t.a.y > t.c.y {
            t.a.y
        } else {
            t.c.y
        }
    } else {
        if t.b.y > t.c.y {
            t.b.y
        } else {
            t.c.y
        }
    };
    let fl = floor_scale_exec(minx);
    let ft = floor_scale_exec(miny);
    let cr = ceil_scale_exec(maxx);
    let cb = ceil_scale_exec(maxy);
    let left = if fl > 0 {
        fl
    } else {
        0
    };
    let top = if ft > 0 {
        ft
    } else {
        0
    };
    let w = width as i64;
    let h = height as i64;
    let right = if cr < w {
        cr
    } else {
        w
    };
    let bottom = if cb < h {
        cb
    } else {
        h
    };
    (left, top, right, bottom)
}

/// Twice the signed area of a triangle: the denominator of the
/// barycentric solve.  Zero exactly for degenerate triangles.
pub open spec fn denom_spec(t: Triangle) -> int {
    (t.b.y - t.c.y) * (t.a.x - t.c.x) + (t.c.x - t.b.x) * (t.a.y - t.c.y)
}

/// The executable denominator.
pub fn denom(t: &Triangle) -> (r: i64)
    requires
        tri_ok(*t),
    ensures
        r as int == denom_spec(*t),
{
    proof {
        lemma_edge_product_bound(t.b.y - t.c.y, t.a.x - t.c.x);
        lemma_edge_product_bound(t.c.x - t.b.x, t.a.y - t.c.y);
    }
    (t.b.y - t.c.y) * (t.a.x - t.c.x) + (t.c.x - t.b.x) * (t.a.y - t.c.y)
}

/// The numerator of the first barycentric weight of `p` in `t`; the
/// weight itself is this over `denom_spec(t)`.
pub open spec fn bary_a_num(p: Vec2, t: Triangle) -> int {
    (t.b.y - t.c.y) * (p.x - t.c.x) + (t.c.x - t.b.x) * (p.y - t.c.y)
}

/// The numerator of the second barycentric weight of `p` in `t`.
pub open spec fn bary_b_num(p: Vec2, t: Triangle) -> int {
    (t.c.y - t.a.y) * (p.x - t.c.x) + (t.a.x - t.c.x) * (p.y - t.c.y)
}

/// The numerator of the third barycentric weight: the three numerators
/// sum to the denominator.
pub open spec fn bary_c_num(p: Vec2, t: Triangle) -> int {
    denom_spec(t) - bary_a_num(p, t) - bary_b_num(p, t)
}

/// The quotient `n / d` rounded to the nearest integer, halves rounded
/// away from zero; `d` may be negative.
pub open spec fn round_div(n: int, d: int) -> int
    recommends
        d != 0,
{
    let nn = if d < 0 {
        -n
    } else {
        n
    };
    let dd = if d < 0 {
        -d
    } else {
        d
    };
    if nn >= 0 {
        (2 * nn + dd) / (2 * dd)
    } else {
        -((2 * (-nn) + dd) / (2 * dd))
    }
}

/// Executable rounded division on 128-bit operands.
fn round_div_i128(n: i128, d: i128) -> (r: i128)
    requires
        d != 0,
        -0x1000_0000_0000_0000_0000_0000_0000 <= n as int <= 0x1000_0000_0000_0000_0000_0000_0000,
        -0x1000_0000_0000_0000_0000_0000_0000 <= d as int <= 0x1000_0000_0000_0000_0000_0000_0000,
    ensures
        r as int == round_div(n as int, d as int),
{
    let nn: i128 = if d < 0 {
        -n
    } else {
        n
    };
    let dd: i128 = if d < 0 {
        -d
    } else {
        d
    };
    if nn >= 0 {
        (2 * nn + dd) / (2 * dd)
    } else {
        -((2 * (-nn) + dd) / (2 * dd))
    }
}

/// A texture-space triangle scaled from normalized coordinates: every
/// coordinate lies in `0 ..= SCALE * 0x1_0000`.
pub open spec fn uv_scaled_ok(t: Triangle) -> bool {
    &&& 0 <= t.a.x <= 0x1_0000_0000 && 0 <= t.a.y <= 0x1_0000_0000
    &&& 0 <= t.b.x <= 0x1_0000_0000 && 0 <= t.b.y <= 0x1_0000_0000
    &&& 0 <= t.c.x <= 0x1_0000_0000 && 0 <= t.c.y <= 0x1_0000_0000
}

/// The texel column sampled for destination point `p`: the barycentric
/// weights of `p` in `from_tri` applied to the scaled texture triangle
/// `to_tri`, rounded to the nearest texel.
pub open spec fn map_x_spec(p: Vec2, from_tri: Triangle, to_tri: Triangle) -> int {
    round_div(
        bary_a_num(p, from_tri) * to_tri.a.x + bary_b_num(p, from_tri) * to_tri.b.x + bary_c_num(
            p,
            from_tri,
        ) * to_tri.c.x,
        denom_spec(from_tri) * (SCALE as int),
    )
}

/// The texel row sampled for destination point `p`.
pub open spec fn map_y_spec(p: Vec2, from_tri: Triangle, to_tri: Triangle) -> int {
    round_div(
        bary_a_num(p, from_tri) * to_tri.a.y + bary_b_num(p, from_tri) * to_tri.b.y + bary_c_num(
            p,
            from_tri,
        ) * to_tri.c.y,
        denom_spec(from_tri) * (SCALE as int),
    )
}

/// A product of a barycentric numerator and a scaled texture coordinate
/// stays within 128-bit range.
proof fn lemma_map_product_bound(n: int, tc: int)
    requires
        -0x4000_0000_0000_0000 <= n <= 0x4000_0000_0000_0000,
        0 <= tc <= 0x1_0000_0000,
    ensures
        -0x4_0000_0000_0000_0000_0000_0000 <= n * tc <= 0x4_0000_0000_0000_0000_0000_0000,
{
    assert(-0x4_0000_0000_0000_0000_0000_0000 <= n * tc <= 0x4_0000_0000_0000_0000_0000_0000)
        by (nonlinear_arith)
        requires
            -0x4000_0000_0000_0000 <= n <= 0x4000_0000_0000_0000,
            0 <= tc <= 0x1_0000_0000,
    {
    }
}

/// Map a destination point into texture space by barycentric
/// interpolation, rounding to the nearest texel.
pub fn map_to_triangle(p: Vec2, from_tri: &Triangle, to_tri: &Triangle) -> (r: (i128, i128))
    requires
        tri_ok(*from_tri),
        coord_ok(p),
        uv_scaled_ok(*to_tri),
        denom_spec(*from_tri) != 0,
    ensures
        r.0 as int == map_x_spec(p, *from_tri, *to_tri),
        r.1 as int == map_y_spec(p, *from_tri, *to_tri),
{
    proof {
        lemma_edge_product_bound(from_tri.b.y - from_tri.c.y, p.x - from_tri.c.x);
        lemma_edge_product_bound(from_tri.c.x - from_tri.b.x, p.y - from_tri.c.y);
        lemma_edge_product_bound(from_tri.c.y - from_tri.a.y, p.x - from_tri.c.x);
        lemma_edge_product_bound(from_tri.a.x - from_tri.c.x, p.y - from_tri.c.y);
    }
    let d = denom(from_tri);
    let na: i64 = (from_tri.b.y - from_tri.c.y) * (p.x - from_tri.c.x) + (from_tri.c.x
        - from_tri.b.x) * (p.y - from_tri.c.y);
    let nb: i64 = (from_tri.c.y - from_tri.a.y) * (p.x - from_tri.c.x) + (from_tri.a.x
        - from_tri.c.x) * (p.y - from_tri.c.y);
    let nc: i128 = d as i128 - na as i128 - nb as i128;
    proof {
        lemma_map_product_bound(na as int, to_tri.a.x as int);
        lemma_map_product_bound(nb as int, to_tri.b.x as int);
        lemma_map_product_bound(na as int, to_tri.a.y as int);
        lemma_map_product_bound(nb as int, to_tri.b.y as int);
        assert(-0x1_8000_0000_0000_0000 <= nc as int <= 0x1_8000_0000_0000_0000);
        assert(-0x1_8000_0000_0000_0000 * 0x1_0000_0000 <= nc as int * to_tri.c.x as int <= 0x1_8000_0000_0000_0000 * 0x1_0000_0000)
            by (nonlinear_arith)
            requires
                -0x1_8000_0000_0000_0000 <= nc as int <= 0x1_8000_0000_0000_0000,
                0 <= to_tri.c.x as int <= 0x1_0000_0000,
        {
        }
        assert(-0x1_8000_0000_0000_0000 * 0x1_0000_0000 <= nc as int * to_tri.c.y as int <= 0x1_8000_0000_0000_0000 * 0x1_0000_0000)
            by (nonlinear_arith)
            requires
                -0x1_8000_0000_0000_0000 <= nc as int <= 0x1_8000_0000_0000_0000,
                0 <= to_tri.c.y as int <= 0x1_0000_0000,
        {
        }
        assert(d as int * SCALE as int != 0 && -0x1_0000_0000_0000_0000_0000 <= d as int
            * SCALE as int <= 0x1_0000_0000_0000_0000_0000) by (nonlinear_arith)
            requires
                d as int != 0,
                -0x8000_0000_0000_0000 <= d as int <= 0x8000_0000_0000_0000,
        {
        }
    }
    let numx: i128 = na as i128 * to_tri.a.x as i128 + nb as i128 * to_tri.b.x as i128 + nc
        * to_tri.c.x as i128;
    let numy: i128 = na as i128 * to_tri.a.y as i128 + nb as i128 * to_tri.b.y as i128 + nc
        * to_tri.c.y as i128;
    let den: i128 = d as i128 * SCALE as i128;
    (round_div_i128(numx, den), round_div_i128(numy, den))
}

/// The texel actually sampled: the mapped point held to the texture's
/// extent.  The clamp guarantees that no out-of-range texel is ever
/// read, whatever the mapping produced.
pub open spec fn sample_x_spec(p: Vec2, from_tri: Triangle, to_tri: Triangle, tw: int) -> int {
    iclamp(map_x_spec(p, from_tri, to_tri), 0, tw - 1)
}

/// See [`sample_x_spec`].
pub open spec fn sample_y_spec(p: Vec2, from_tri: Triangle, to_tri: Triangle, th: int) -> int {
    iclamp(map_y_spec(p, from_tri, to_tri), 0, th - 1)
}

/// Map a destination point and hold the result to the texture's extent:
/// the returned texel indices always lie strictly inside
/// `width` by `height`.
pub fn sample_point(
    p: Vec2,
    from_tri: &Triangle,
    to_tri: &Triangle,
    width: u32,
    height: u32,
) -> (r: (u32, u32))
    requires
        tri_ok(*from_tri),
        coord_ok(p),
        uv_scaled_ok(*to_tri),
        denom_spec(*from_tri) != 0,
        1 <= width,
        1 <= height,
    ensures
        r.0 as int == sample_x_spec(p, *from_tri, *to_tri, width as int),
        r.1 as int == sample_y_spec(p, *from_tri, *to_tri, height as int),
        r.0 < width,
        r.1 < height,
{
    let (mx, my) = map_to_triangle(p, from_tri, to_tri);
    let sx: u32 = if mx < 0 {
        0
    } else if mx > width as i128 - 1 {
        width - 1
    } else {
        mx as u32
    };
    let sy: u32 = if my < 0 {
        0
    } else if my > height as i128 - 1 {
        height - 1
    } else {
        my as u32
    };
    (sx, sy)
}

/// For every destination point, the sampled texel lies strictly inside
/// the texture: the clamp admits no out-of-range texel read.
pub proof fn lemma_sample_in_texture(p: Vec2, from_tri: Triangle, to_tri: Triangle, tw: int, th: int)
    requires
        1 <= tw,
        1 <= th,
    ensures
        0 <= sample_x_spec(p, from_tri, to_tri, tw) < tw,
        0 <= sample_y_spec(p, from_tri, to_tri, th) < th,
{
}

/// Scale one normalized texture coordinate pair to a texture's pixel
/// dimensions.
pub open spec fn point_scale_spec(p: Vec2, tw: int, th: int) -> Vec2 {
    Vec2 { x: (p.x * tw) as i64, y: (p.y * th) as i64 }
}

/// Scale a normalized texture triangle to a texture's pixel dimensions.
pub open spec fn tri_scale_spec(t: Triangle, tw: int, th: int) -> Triangle {
    Triangle {
        a: point_scale_spec(t.a, tw, th),
        b: point_scale_spec(t.b, tw, th),
        c: point_scale_spec(t.c, tw, th),
    }
}

/// The vertex holds normalized texture coordinates: `0 ..= SCALE` on
/// both axes, standing for `0.0 ..= 1.0`.
pub open spec fn uv_ok(p: Vec2) -> bool {
    0 <= p.x <= SCALE as int && 0 <= p.y <= SCALE as int
}

/// All three vertices hold normalized texture coordinates.
pub open spec fn uv_tri_ok(t: Triangle) -> bool {
    uv_ok(t.a) && uv_ok(t.b) && uv_ok(t.c)
}

/// The executable scaling of one normalized point.
pub fn point_image_scale(p: Vec2, width: u32, height: u32) -> (r: Vec2)
    requires
        uv_ok(p),
        width <= 0x1_0000,
        height <= 0x1_0000,
    ensures
        r == point_scale_spec(p, width as int, height as int),
{
    proof {
        assert(0 <= p.x * width as int <= 0x1_0000_0000 && 0 <= p.y * height as int
            <= 0x1_0000_0000) by (nonlinear_arith)
            requires
                0 <= p.x <= 0x1_0000,
                0 <= p.y <= 0x1_0000,
                0 <= width as int <= 0x1_0000,
                0 <= height as int <= 0x1_0000,
        {
        }
    }
    Vec2 { x: p.x * width as i64, y: p.y * height as i64 }
}

/// The executable scaling of a normalized texture triangle; the result
/// satisfies [`uv_scaled_ok`].
pub fn tri_image_scale(t: &Triangle, width: u32, height: u32) -> (r: Triangle)
    requires
        uv_tri_ok(*t),
        width <= 0x1_0000,
        height <= 0x1_0000,
    ensures
        r == tri_scale_spec(*t, width as int, height as int),
        uv_scaled_ok(r),
{
    proof {
        assert(0 <= t.a.x * width as int <= 0x1_0000_0000 && 0 <= t.a.y * height as int
            <= 0x1_0000_0000 && 0 <= t.b.x * width as int <= 0x1_0000_0000 && 0 <= t.b.y
            * height as int <= 0x1_0000_0000 && 0 <= t.c.x * width as int <= 0x1_0000_0000 && 0
            <= t.c.y * height as int <= 0x1_0000_0000) by (nonlinear_arith)
            requires
                uv_tri_ok(*t),
                0 <= width as int <= 0x1_0000,
                0 <= height as int <= 0x1_0000,
        {
        }
    }
    Triangle {
        a: point_image_scale(t.a, width, height),
        b: point_image_scale(t.b, width, height),
        c: point_image_scale(t.c, width, height),
    }
}

} // verus!
