//! The render buffer: a pixel grid with a per-draw-call coverage
//! bitmap.
//!
//! The buffer owns a width-by-height grid of RGBA8 pixels and a
//! coverage bitmap with one bit per pixel.  A draw call resets the
//! bitmap, then composites each covered pixel at most once, whatever
//! triangles the call holds; pixels outside every triangle's clipped
//! bounding box keep their value.

use crate::bits::bits;
use crate::bits::bits_get;
use crate::bits::bits_new;
use crate::bits::bits_set;
use crate::color::from_rgba8_spec;
use crate::color::layer;
use crate::color::layer_spec;
use crate::color::to_rgba8_spec;
use crate::color::Color;
use crate::color::multiply;
use crate::color::multiply_spec;
use crate::geom::denom;
use crate::geom::denom_spec;
use crate::geom::sample_point;
use crate::geom::sample_x_spec;
use crate::geom::sample_y_spec;
use crate::geom::tri_image_scale;
use crate::geom::tri_scale_spec;
use crate::geom::uv_scaled_ok;
use crate::geom::uv_tri_ok;
use crate::geom::bbox_bottom;
use crate::geom::bbox_left;
use crate::geom::bbox_right;
use crate::geom::bbox_top;
use crate::geom::clipped_bbox;
use crate::geom::contains_spec;
use crate::geom::imax;
use crate::geom::imin;
use crate::geom::tri_ok;
use crate::geom::triangle_contains;
use crate::geom::Triangle;
use crate::geom::Vec2;
use crate::geom::SCALE;
use crate::img::grid_from_raw;
use crate::img::grid_get;
use crate::img::grid_new;
use crate::img::grid_put;
use crate::img::grid_raw_bytes;
use crate::img::image_height;
use crate::img::image_pixels;
use crate::img::image_width;
use crate::img::raw_grid;
use crate::img::solid_grid;
use crate::img::PixelGrid;
use vstd::prelude::*;

verus! {

/// What can go wrong when a buffer is built over caller-supplied
/// memory.
#[derive(Clone, Debug, PartialEq, Eq, Structural)]
pub enum Error {
    /// The byte container's length does not match the dimensions: the
    /// container's byte count, and the pixel count the dimensions ask
    /// for.
    SizeMismatch(usize, usize),
}

/// The mathematical image of a render buffer: its extent and the 8-bit
/// quadruple at each pixel of the grid.
pub ghost struct BufView {
    pub width: int,
    pub height: int,
    pub pixels: Map<(int, int), (u8, u8, u8, u8)>,
}

/// A render target: a grid of RGBA8 pixels plus the per-draw-call
/// coverage bitmap.
pub struct RenderBuffer {
    grid: PixelGrid,
    used: bit_vec::BitVec<u32>,
    width: u32,
    height: u32,
}

/// The pixel count the dimensions ask for, held to `usize` range: the
/// second field of [`Error::SizeMismatch`].
pub open spec fn area_clipped(width: int, height: int) -> int {
    imin(width * height, usize::MAX as int)
}

/// The set of pixel coordinates of a `width` by `height` grid.
pub open spec fn grid_dom(width: int, height: int) -> Set<(int, int)> {
    Set::new(|xy: (int, int)| 0 <= xy.0 < width && 0 <= xy.1 < height)
}

/// Inserting at a coordinate the grid already holds leaves the map's
/// domain the full grid.
proof fn lemma_insert_keeps_dom(
    m: Map<(int, int), (u8, u8, u8, u8)>,
    w: int,
    h: int,
    k: (int, int),
    v: (u8, u8, u8, u8),
)
    requires
        m.dom() == grid_dom(w, h),
        0 <= k.0 < w,
        0 <= k.1 < h,
    ensures
        m.insert(k, v).dom() == grid_dom(w, h),
{
    assert(m.insert(k, v).dom() =~= grid_dom(w, h));
}

/// Column-major indexing into the coverage bitmap stays inside the
/// bitmap.
proof fn lemma_col_major_index(x: int, y: int, w: int, h: int)
    requires
        0 <= x < w,
        0 <= y < h,
    ensures
        0 <= x * h + y < w * h,
        w * h <= 4 * w * h,
{
    assert(0 <= x * h + y < w * h && w * h <= 4 * w * h) by (nonlinear_arith)
        requires
            0 <= x < w,
            0 <= y < h,
    {
    }
}

/// Column-major indices agree only at the same pixel.
proof fn lemma_col_major_unique(a: int, b: int, x: int, y: int, h: int)
    requires
        0 <= b < h,
        0 <= y < h,
        a * h + b == x * h + y,
    ensures
        a == x,
        b == y,
{
    assert(a == x && b == y) by (nonlinear_arith)
        requires
            0 <= b < h,
            0 <= y < h,
            a * h + b == x * h + y,
    {
    }
}

/// A byte index of a row-major RGBA source rectangle stays inside the
/// rectangle's byte count.
proof fn lemma_src_index(i: int, j: int, sw: int, sh: int)
    requires
        0 <= i < sw,
        0 <= j < sh,
    ensures
        0 <= j * sw + i,
        j * sw + i < sw * sh,
        4 * (j * sw + i) + 3 < 4 * sw * sh,
{
    assert(0 <= j * sw + i && j * sw + i < sw * sh && 4 * (j * sw + i) + 3 < 4 * sw * sh)
        by (nonlinear_arith)
        requires
            0 <= i < sw,
            0 <= j < sh,
    {
    }
}

/// The pixel `(a, b)` lies in the rectangle at `(ox, oy)` of extent
/// `sw` by `sh`.
pub open spec fn in_rect(a: int, b: int, ox: int, oy: int, sw: int, sh: int) -> bool {
    ox <= a < ox + sw && oy <= b < oy + sh
}

/// What the rectangle overwrite leaves at pixel `(a, b)`: the source
/// texel where the rectangle covers it, the old value elsewhere.  The
/// partially-scanned state after `i` full source columns and `j` rows
/// of column `i`.
pub open spec fn update_partial(
    base: Map<(int, int), (u8, u8, u8, u8)>,
    mem: Seq<u8>,
    ox: int,
    oy: int,
    sw: int,
    sh: int,
    i: int,
    j: int,
    a: int,
    b: int,
) -> (u8, u8, u8, u8) {
    if in_rect(a, b, ox, oy, i, sh) || (a == ox + i && oy <= b < oy + j) {
        raw_grid(sw, sh, mem)[(a - ox, b - oy)]
    } else {
        base[(a, b)]
    }
}

/// What the rectangle overwrite leaves at pixel `(a, b)` once the whole
/// rectangle is written.
pub open spec fn update_result(
    base: Map<(int, int), (u8, u8, u8, u8)>,
    mem: Seq<u8>,
    ox: int,
    oy: int,
    sw: int,
    sh: int,
    a: int,
    b: int,
) -> (u8, u8, u8, u8) {
    update_partial(base, mem, ox, oy, sw, sh, sw, 0, a, b)
}

/// The destination-space point of the pixel at integer coordinates
/// `(x, y)`.
pub open spec fn pixel_point(x: int, y: int) -> Vec2 {
    Vec2 { x: (x * SCALE as int) as i64, y: (y * SCALE as int) as i64 }
}

/// Triangle `t` covers pixel `(x, y)` of a `w` by `h` buffer: the
/// pixel lies inside the triangle's clipped bounding box and passes the
/// edge-sign test.
pub open spec fn tri_lit(t: Triangle, w: int, h: int, x: int, y: int) -> bool {
    &&& bbox_left(t) <= x < bbox_right(t, w)
    &&& bbox_top(t) <= y < bbox_bottom(t, h)
    &&& contains_spec(t, pixel_point(x, y))
}

/// No pixel outside a triangle's clipped bounding box is ever covered
/// by that triangle's fill.
pub proof fn lemma_outside_bbox_not_lit(t: Triangle, w: int, h: int, x: int, y: int)
    requires
        !(bbox_left(t) <= x < bbox_right(t, w)) || !(bbox_top(t) <= y < bbox_bottom(t, h)),
    ensures
        !tri_lit(t, w, h, x, y),
{
}

/// Some triangle among the first `n` covers pixel `(x, y)`.
pub open spec fn any_lit(tris: Seq<Triangle>, n: int, w: int, h: int, x: int, y: int) -> bool {
    exists|i: int| 0 <= i < n && #[trigger] tri_lit(tris[i], w, h, x, y)
}

/// Extending the prefix by one triangle extends the coverage by exactly
/// that triangle's own coverage.
proof fn lemma_any_lit_step(tris: Seq<Triangle>, k: int, w: int, h: int, x: int, y: int)
    requires
        0 <= k < tris.len(),
    ensures
        any_lit(tris, k + 1, w, h, x, y) == (any_lit(tris, k, w, h, x, y) || tri_lit(
            tris[k],
            w,
            h,
            x,
            y,
        )),
{
    if any_lit(tris, k + 1, w, h, x, y) {
        let i = choose|i: int| 0 <= i < k + 1 && #[trigger] tri_lit(tris[i], w, h, x, y);
        if i < k {
            assert(tri_lit(tris[i], w, h, x, y));
            assert(any_lit(tris, k, w, h, x, y));
        }
    }
    if any_lit(tris, k, w, h, x, y) {
        let i = choose|i: int| 0 <= i < k && #[trigger] tri_lit(tris[i], w, h, x, y);
        assert(tri_lit(tris[i], w, h, x, y));
        assert(any_lit(tris, k + 1, w, h, x, y));
    }
    if tri_lit(tris[k], w, h, x, y) {
        assert(any_lit(tris, k + 1, w, h, x, y));
    }
}

/// One flat compositing step: the draw color layered onto a stored
/// pixel, re-quantized to storage.
pub open spec fn flat_out(c: Color, p: (u8, u8, u8, u8)) -> (u8, u8, u8, u8) {
    to_rgba8_spec(layer_spec(c, from_rgba8_spec(p)))
}

/// What a flat fill leaves at a pixel: one compositing step where the
/// call covers it, the old value elsewhere.
pub open spec fn flat_result(covered: bool, c: Color, p: (u8, u8, u8, u8)) -> (u8, u8, u8, u8) {
    if covered {
        flat_out(c, p)
    } else {
        p
    }
}

/// Coverage of pixel `(x, y)` midway through a draw call: by one of the
/// first `k` triangles, or by the current triangle `t` in the part of
/// its box already scanned, the columns before `cx` and the rows of
/// column `cx` before `cy`.
pub open spec fn lit_before(
    tris: Seq<Triangle>,
    k: int,
    t: Triangle,
    w: int,
    h: int,
    cx: int,
    cy: int,
    x: int,
    y: int,
) -> bool {
    any_lit(tris, k, w, h, x, y) || (tri_lit(t, w, h, x, y) && (x < cx || (x == cx && y < cy)))
}

/// A destination/texture triangle pair covers pixel `(x, y)`: the
/// destination triangle is nondegenerate and covers the pixel.  A
/// degenerate destination triangle is skipped entirely, so that the
/// barycentric solve never divides by zero.
pub open spec fn uv_lit(pair: (Triangle, Triangle), w: int, h: int, x: int, y: int) -> bool {
    denom_spec(pair.0) != 0 && tri_lit(pair.0, w, h, x, y)
}

/// The index of the first pair among the first `n` that covers pixel
/// `(x, y)`, or `-1` when none does.  First in iteration order: an
/// earlier pair always wins.
pub open spec fn first_hit(
    pairs: Seq<(Triangle, Triangle)>,
    n: int,
    w: int,
    h: int,
    x: int,
    y: int,
) -> int
    decreases n,
{
    if n <= 0 {
        -1
    } else if first_hit(pairs, n - 1, w, h, x, y) >= 0 {
        first_hit(pairs, n - 1, w, h, x, y)
    } else if uv_lit(pairs[n - 1], w, h, x, y) {
        n - 1
    } else {
        -1
    }
}

/// `first_hit` returns `-1` exactly when no pair covers the pixel, and
/// otherwise the least covering index: a covering pair, with no
/// covering pair before it.
pub proof fn lemma_first_hit_props(
    pairs: Seq<(Triangle, Triangle)>,
    n: int,
    w: int,
    h: int,
    x: int,
    y: int,
)
    requires
        n <= pairs.len(),
    ensures
        first_hit(pairs, n, w, h, x, y) >= 0 ==> {
            &&& first_hit(pairs, n, w, h, x, y) < n
            &&& uv_lit(pairs[first_hit(pairs, n, w, h, x, y)], w, h, x, y)
            &&& forall|j: int|
                0 <= j < first_hit(pairs, n, w, h, x, y) ==> !(#[trigger] uv_lit(
                    pairs[j],
                    w,
                    h,
                    x,
                    y,
                ))
        },
        first_hit(pairs, n, w, h, x, y) < 0 ==> forall|j: int|
            0 <= j < n ==> !(#[trigger] uv_lit(pairs[j], w, h, x, y)),
    decreases n,
{
    if n > 0 {
        lemma_first_hit_props(pairs, n - 1, w, h, x, y);
    }
}

/// One textured compositing step at pixel `(x, y)`: the texture triangle
/// is scaled to the texture's extent, the pixel's barycentric image is
/// sampled with the clamp, the texel is tinted and layered onto the
/// stored pixel.
pub open spec fn uv_out(
    tint: Color,
    tex: BufView,
    pair: (Triangle, Triangle),
    x: int,
    y: int,
    p: (u8, u8, u8, u8),
) -> (u8, u8, u8, u8) {
    let scaled = tri_scale_spec(pair.1, tex.width, tex.height);
    let sx = sample_x_spec(pixel_point(x, y), pair.0, scaled, tex.width);
    let sy = sample_y_spec(pixel_point(x, y), pair.0, scaled, tex.height);
    let texel = tex.pixels[(sx, sy)];
    to_rgba8_spec(layer_spec(multiply_spec(tint, from_rgba8_spec(texel)), from_rgba8_spec(p)))
}

/// What a textured fill leaves at a pixel: one compositing step with
/// the pair at index `hit`, or the old value when `hit` is `-1`.
pub open spec fn uv_result_at(
    pairs: Seq<(Triangle, Triangle)>,
    hit: int,
    tint: Color,
    tex: BufView,
    x: int,
    y: int,
    p: (u8, u8, u8, u8),
) -> (u8, u8, u8, u8) {
    if hit >= 0 {
        uv_out(tint, tex, pairs[hit], x, y, p)
    } else {
        p
    }
}

/// The first hit of pixel `(x, y)` midway through a textured draw
/// call: among the first `k` pairs wholly and, of the current pair
/// `pair` at index `k`, the part of its box already scanned.
pub open spec fn uv_hit_before(
    pairs: Seq<(Triangle, Triangle)>,
    k: int,
    pair: (Triangle, Triangle),
    w: int,
    h: int,
    cx: int,
    cy: int,
    x: int,
    y: int,
) -> int {
    if first_hit(pairs, k, w, h, x, y) >= 0 {
        first_hit(pairs, k, w, h, x, y)
    } else if uv_lit(pair, w, h, x, y) && (x < cx || (x == cx && y < cy)) {
        k
    } else {
        -1
    }
}

/// The row-major byte image of a buffer, four bytes per pixel.
pub open spec fn buf_bytes(v: BufView) -> Seq<u8> {
    Seq::new(
        (4 * v.width * v.height) as nat,
        |i: int|
            {
                let x = (i / 4) % v.width;
                let y = (i / 4) / v.width;
                let ch = i % 4;
                let p = v.pixels[(x, y)];
                if ch == 0 {
                    p.0
                } else if ch == 1 {
                    p.1
                } else if ch == 2 {
                    p.2
                } else {
                    p.3
                }
            },
    )
}

impl View for RenderBuffer {
    type V = BufView;

    closed spec fn view(&self) -> BufView {
        BufView {
            width: self.width as int,
            height: self.height as int,
            pixels: image_pixels(self.grid),
        }
    }
}

impl RenderBuffer {
    /// The buffer's internal invariant: the grid and the coverage
    /// bitmap both match the stored dimensions.
    pub closed spec fn wf(self) -> bool {
        &&& image_width(self.grid) == self.width as nat
        &&& image_height(self.grid) == self.height as nat
        &&& bits(self.used).len() == (self.width as int) * (self.height as int)
        &&& 4 * (self.width as int) * (self.height as int) <= usize::MAX as int
        &&& image_pixels(self.grid).dom() == grid_dom(self.width as int, self.height as int)
    }

    /// The coverage bit of pixel `(x, y)`, column-major.
    pub(crate) closed spec fn used_at(self, x: int, y: int) -> bool {
        bits(self.used)[x * (self.height as int) + y]
    }

    /// Create a buffer of fully transparent black pixels.
    pub fn new(width: u32, height: u32) -> (r: RenderBuffer)
        requires
            4 * (width as int) * (height as int) <= usize::MAX as int,
        ensures
            r.wf(),
            r@.width == width as int,
            r@.height == height as int,
            r@.pixels == solid_grid(width as int, height as int, (0u8, 0u8, 0u8, 0u8)),
    {
        let grid = grid_new(width, height);
        proof {
            assert(image_pixels(grid).dom() =~= grid_dom(width as int, height as int));
            assert((width as int) * (height as int) <= 4 * (width as int) * (height as int))
                by (nonlinear_arith)
                requires
                    0 <= (width as int),
                    0 <= (height as int),
            {
            }
        }
        let used = bits_new((width as usize) * (height as usize), false);
        RenderBuffer { grid, used, width, height }
    }

    /// Build a buffer over caller-supplied RGBA8 memory.  The container
    /// must hold exactly four bytes per pixel of the requested
    /// dimensions; otherwise nothing is built and the mismatch is
    /// reported.
    pub fn from_raw(width: u32, height: u32, bytes: Vec<u8>) -> (r: Result<RenderBuffer, Error>)
        ensures
            match r {
                Ok(buf) => {
                    &&& buf.wf()
                    &&& buf@.width == width as int
                    &&& buf@.height == height as int
                    &&& bytes@.len() == 4 * (width as int) * (height as int)
                    &&& buf@.pixels == raw_grid(width as int, height as int, bytes@)
                },
                Err(e) => {
                    &&& bytes@.len() != 4 * (width as int) * (height as int)
                    &&& e == Error::SizeMismatch(
                        bytes@.len() as usize,
                        area_clipped(width as int, height as int) as usize,
                    )
                },
            },
    {
        proof {
            assert((width as int) * (height as int) < 0x1_0000_0000_0000_0000) by (nonlinear_arith)
                requires
                    0 <= (width as int) && (width as int) < 0x1_0000_0000,
                    0 <= (height as int) && (height as int) < 0x1_0000_0000,
            {
            }
            assert(4 * ((width as int) * (height as int)) == 4 * (width as int) * (height as int))
                by (nonlinear_arith);
        }
        let area128: u128 = (width as u128) * (height as u128);
        let len128: u128 = bytes.len() as u128;
        if len128 != 4 * area128 {
            let area: usize = if area128 > usize::MAX as u128 {
                usize::MAX
            } else {
                area128 as usize
            };
            return Err(Error::SizeMismatch(bytes.len(), area));
        }
        let grid = grid_from_raw(width, height, bytes);
        proof {
            assert(image_pixels(grid).dom() =~= grid_dom(width as int, height as int));
        }
        let used = bits_new((width as usize) * (height as usize), false);
        Ok(RenderBuffer { grid, used, width, height })
    }

    /// The buffer's width in pixels.
    pub fn width(&self) -> (r: u32)
        ensures
            r as int == self@.width,
    {
        self.width
    }

    /// The buffer's height in pixels.
    pub fn height(&self) -> (r: u32)
        ensures
            r as int == self@.height,
    {
        self.height
    }

    /// The color of the pixel at `(x, y)`, which must lie inside the
    /// buffer.
    pub fn pixel(&self, x: u32, y: u32) -> (r: Color)
        requires
            self.wf(),
            (x as int) < self@.width,
            (y as int) < self@.height,
        ensures
            r == from_rgba8_spec(self@.pixels[(x as int, y as int)]),
    {
        Color::from_rgba8(grid_get(&self.grid, x, y))
    }

    /// Write the pixel at `(x, y)` directly, without blending; the
    /// pixel must lie inside the buffer.
    pub fn set_pixel(&mut self, x: u32, y: u32, color: Color)
        requires
            old(self).wf(),
            (x as int) < old(self)@.width,
            (y as int) < old(self)@.height,
        ensures
            final(self).wf(),
            final(self)@.width == old(self)@.width,
            final(self)@.height == old(self)@.height,
            final(self)@.pixels == old(self)@.pixels.insert(
                (x as int, y as int),
                to_rgba8_spec(color),
            ),
    {
        let q = color.to_rgba8();
        proof {
            lemma_insert_keeps_dom(
                image_pixels(self.grid),
                self.width as int,
                self.height as int,
                (x as int, y as int),
                to_rgba8_spec(color),
            );
        }
        grid_put(&mut self.grid, x, y, q);
    }

    /// The backing bytes, row-major, four per pixel, copied out for
    /// callers that upload or encode the buffer.
    pub fn raw_bytes(&self) -> (r: Vec<u8>)
        requires
            self.wf(),
        ensures
            r@ == buf_bytes(self@),
    {
        let r = grid_raw_bytes(&self.grid);
        proof {
            assert(crate::img::grid_bytes(self.grid) =~= buf_bytes(self@));
        }
        r
    }

    /// Overwrite every pixel with `color`, without blending.
    pub fn clear(&mut self, color: Color)
        requires
            old(self).wf(),
        ensures
            final(self).wf(),
            final(self)@.width == old(self)@.width,
            final(self)@.height == old(self)@.height,
            forall|x: int, y: int|
                0 <= x < old(self)@.width && 0 <= y < old(self)@.height
                    ==> (#[trigger] final(self)@.pixels[(x, y)]) == to_rgba8_spec(color),
    {
        let q = color.to_rgba8();
        let w = self.width;
        let h = self.height;
        let mut x: u32 = 0;
        while x < w
            invariant
                self.wf(),
                w as int == self@.width,
                h as int == self@.height,
                x <= w,
                q == to_rgba8_spec(color),
                forall|a: int, b: int|
                    0 <= a < x as int && 0 <= b < h as int ==> #[trigger] self@.pixels[(a, b)]
                        == to_rgba8_spec(color),
            decreases w - x,
        {
            let mut y: u32 = 0;
            while y < h
                invariant
                    self.wf(),
                    w as int == self@.width,
                    h as int == self@.height,
                    x < w,
                    y <= h,
                    q == to_rgba8_spec(color),
                    forall|a: int, b: int|
                        0 <= a < x as int && 0 <= b < h as int ==> #[trigger] self@.pixels[(a, b)]
                            == to_rgba8_spec(color),
                    forall|b: int|
                        0 <= b < y as int ==> #[trigger] self@.pixels[(x as int, b)]
                            == to_rgba8_spec(color),
                decreases h - y,
            {
                let ghost prev = self@.pixels;
                proof {
                    lemma_insert_keeps_dom(
                        image_pixels(self.grid),
                        self.width as int,
                        self.height as int,
                        (x as int, y as int),
                        q,
                    );
                }
                grid_put(&mut self.grid, x, y, q);
                proof {
                    assert(self@.pixels == prev.insert((x as int, y as int), q));
                    assert forall|a: int, b: int|
                        !(a == x as int && b == y as int) implies #[trigger] self@.pixels[(a, b)]
                        == prev[(a, b)] by {
                        assert(prev.insert((x as int, y as int), q)[(a, b)] == prev[(a, b)]);
                    }
                }
                y = y + 1;
            }
            x = x + 1;
        }
    }

    /// Read the coverage bit of pixel `(x, y)`.
    fn used_get(&self, x: u32, y: u32) -> (r: bool)
        requires
            self.wf(),
            (x as int) < self@.width,
            (y as int) < self@.height,
        ensures
            r == self.used_at(x as int, y as int),
    {
        proof {
            lemma_col_major_index(x as int, y as int, self@.width, self@.height);
        }
        let idx: usize = (x as usize) * (self.height as usize) + (y as usize);
        match bits_get(&self.used, idx) {
            Some(b) => b,
            None => false,
        }
    }

    /// Mark the coverage bit of pixel `(x, y)`.
    fn used_set(&mut self, x: u32, y: u32)
        requires
            old(self).wf(),
            (x as int) < old(self)@.width,
            (y as int) < old(self)@.height,
        ensures
            final(self).wf(),
            final(self)@ == old(self)@,
            final(self).used_at(x as int, y as int),
            forall|a: int, b: int|
                0 <= a < old(self)@.width && 0 <= b < old(self)@.height && !(a == x as int && b
                    == y as int) ==> #[trigger] final(self).used_at(a, b) == old(self).used_at(
                    a,
                    b,
                ),
    {
        proof {
            lemma_col_major_index(x as int, y as int, self@.width, self@.height);
        }
        let idx: usize = (x as usize) * (self.height as usize) + (y as usize);
        bits_set(&mut self.used, idx, true);
        proof {
            assert forall|a: int, b: int|
                0 <= a < old(self)@.width && 0 <= b < old(self)@.height && !(a == x as int && b
                    == y as int) implies #[trigger] self.used_at(a, b) == old(self).used_at(
                a,
                b,
            ) by {
                lemma_col_major_index(a, b, old(self)@.width, old(self)@.height);
                if a * (old(self)@.height) + b == (x as int) * (old(self)@.height) + (y as int) {
                    lemma_col_major_unique(a, b, x as int, y as int, old(self)@.height);
                }
            }
        }
    }

    /// Clear the coverage bitmap at the start of a draw call.
    fn reset_used(&mut self)
        requires
            old(self).wf(),
        ensures
            final(self).wf(),
            final(self)@ == old(self)@,
            forall|a: int, b: int|
                0 <= a < old(self)@.width && 0 <= b < old(self)@.height ==> !(#[trigger] final(self).used_at(a, b)),
    {
        proof {
            assert((self.width as int) * (self.height as int) <= 4 * (self.width as int) * (
            self.height as int)) by (nonlinear_arith)
                requires
                    0 <= (self.width as int),
                    0 <= (self.height as int),
            {
            }
        }
        self.used = bits_new((self.width as usize) * (self.height as usize), false);
        proof {
            assert forall|a: int, b: int|
                0 <= a < old(self)@.width && 0 <= b < old(self)@.height implies !(#[trigger] self
                .used_at(a, b)) by {
                lemma_col_major_index(a, b, old(self)@.width, old(self)@.height);
            }
        }
    }

    /// Overwrite the rectangle at `offset` of the given `size` with
    /// caller-supplied RGBA8 memory, pixel by pixel and without
    /// blending.  The memory must hold exactly four bytes per pixel of
    /// `size`; otherwise nothing changes and the mismatch is reported.
    /// The rectangle must lie inside the buffer.
    pub fn update(&mut self, memory: &[u8], offset: (u32, u32), size: (u32, u32)) -> (r: Result<
        (),
        Error,
    >)
        requires
            old(self).wf(),
            offset.0 as int + size.0 as int <= old(self)@.width,
            offset.1 as int + size.1 as int <= old(self)@.height,
        ensures
            final(self).wf(),
            final(self)@.width == old(self)@.width,
            final(self)@.height == old(self)@.height,
            r is Ok ==> {
                &&& memory@.len() == 4 * (size.0 as int) * (size.1 as int)
                &&& forall|a: int, b: int|
                    0 <= a < old(self)@.width && 0 <= b < old(self)@.height
                        ==> (#[trigger] final(self)@.pixels[(a, b)]) == update_result(
                        old(self)@.pixels,
                        memory@,
                        offset.0 as int,
                        offset.1 as int,
                        size.0 as int,
                        size.1 as int,
                        a,
                        b,
                    )
            },
            r matches Err(e) ==> {
                &&& memory@.len() != 4 * (size.0 as int) * (size.1 as int)
                &&& e == Error::SizeMismatch(
                    memory@.len() as usize,
                    area_clipped(size.0 as int, size.1 as int) as usize,
                )
                &&& final(self)@ == old(self)@
            },
    {
        let (sw, sh) = size;
        let (ox, oy) = offset;
        proof {
            assert((sw as int) * (sh as int) < 0x1_0000_0000_0000_0000) by (nonlinear_arith)
                requires
                    0 <= (sw as int) && (sw as int) < 0x1_0000_0000,
                    0 <= (sh as int) && (sh as int) < 0x1_0000_0000,
            {
            }
            assert(4 * ((sw as int) * (sh as int)) == 4 * (sw as int) * (sh as int))
                by (nonlinear_arith);
        }
        let area128: u128 = (sw as u128) * (sh as u128);
        if (memory.len() as u128) != 4 * area128 {
            let area: usize = if area128 > usize::MAX as u128 {
                usize::MAX
            } else {
                area128 as usize
            };
            return Err(Error::SizeMismatch(memory.len(), area));
        }
        let ghost base = self@.pixels;
        let ghost gw = self@.width;
        let ghost gh = self@.height;
        let mut i: u32 = 0;
        while i < sw
            invariant
                self.wf(),
                self@.width == gw,
                self@.height == gh,
                base.dom() == grid_dom(gw, gh),
                i <= sw,
                ox as int + sw as int <= gw,
                oy as int + sh as int <= gh,
                memory@.len() == 4 * (sw as int) * (sh as int),
                memory@.len() <= usize::MAX as int,
                forall|a: int, b: int|
                    0 <= a < gw && 0 <= b < gh ==> (#[trigger] self@.pixels[(a, b)])
                        == update_partial(base, memory@, ox as int, oy as int, sw as int,
                    sh as int, i as int, 0, a, b),
            decreases sw - i,
        {
            let mut j: u32 = 0;
            while j < sh
                invariant
                    self.wf(),
                    self@.width == gw,
                    self@.height == gh,
                    base.dom() == grid_dom(gw, gh),
                    i < sw,
                    j <= sh,
                    ox as int + sw as int <= gw,
                    oy as int + sh as int <= gh,
                    memory@.len() == 4 * (sw as int) * (sh as int),
                    memory@.len() <= usize::MAX as int,
                    forall|a: int, b: int|
                        0 <= a < gw && 0 <= b < gh ==> (#[trigger] self@.pixels[(a, b)])
                            == update_partial(base, memory@, ox as int, oy as int, sw as int,
                        sh as int, i as int, j as int, a, b),
                decreases sh - j,
            {
                proof {
                    lemma_src_index(i as int, j as int, sw as int, sh as int);
                }
                let idx: usize = 4 * ((j as usize) * (sw as usize) + (i as usize));
                let q = (memory[idx], memory[idx + 1], memory[idx + 2], memory[idx + 3]);
                let ghost prev = self@.pixels;
                proof {
                    lemma_insert_keeps_dom(
                        image_pixels(self.grid),
                        self.width as int,
                        self.height as int,
                        ((ox + i) as int, (oy + j) as int),
                        q,
                    );
                }
                grid_put(&mut self.grid, ox + i, oy + j, q);
                proof {
                    assert(self@.pixels == prev.insert(((ox + i) as int, (oy + j) as int), q));
                    assert forall|a: int, b: int|
                        !(a == (ox + i) as int && b == (oy + j) as int) implies #[trigger] self@
                        .pixels[(a, b)] == prev[(a, b)] by {
                        assert(prev.insert(((ox + i) as int, (oy + j) as int), q)[(a, b)] == prev[
                            (a, b)
                        ]);
                    }
                    assert(raw_grid(sw as int, sh as int, memory@)[(i as int, j as int)] == q);
                }
                j = j + 1;
            }
            i = i + 1;
        }
        Ok(())
    }

    /// One draw call of flat-colored triangles.  Every pixel covered by
    /// at least one triangle of the call is composited exactly once
    /// with `color`; every other pixel, including every pixel outside
    /// all the triangles' clipped bounding boxes, keeps its value.
    pub fn tri_list(&mut self, color: Color, tris: &Vec<Triangle>)
        requires
            old(self).wf(),
            forall|i: int| 0 <= i < tris@.len() ==> tri_ok(#[trigger] tris@[i]),
        ensures
            final(self).wf(),
            final(self)@.width == old(self)@.width,
            final(self)@.height == old(self)@.height,
            forall|x: int, y: int|
                0 <= x < old(self)@.width && 0 <= y < old(self)@.height
                    ==> (#[trigger] final(self)@.pixels[(x, y)]) == flat_result(
                    any_lit(tris@, tris@.len() as int, old(self)@.width, old(self)@.height, x, y),
                    color,
                    old(self)@.pixels[(x, y)],
                ),
    {
        self.reset_used();
        let w = self.width;
        let h = self.height;
        let ghost gw = self@.width;
        let ghost gh = self@.height;
        let ghost base = self@.pixels;
        let mut k: usize = 0;
        while k < tris.len()
            invariant
                self.wf(),
                self@.width == gw,
                self@.height == gh,
                w as int == gw,
                h as int == gh,
                base == old(self)@.pixels,
                k <= tris@.len(),
                forall|i: int| 0 <= i < tris@.len() ==> tri_ok(#[trigger] tris@[i]),
                forall|x: int, y: int|
                    0 <= x < gw && 0 <= y < gh ==> (#[trigger] self.used_at(x, y)) == any_lit(
                        tris@,
                        k as int,
                        gw,
                        gh,
                        x,
                        y,
                    ),
                forall|x: int, y: int|
                    0 <= x < gw && 0 <= y < gh ==> (#[trigger] self@.pixels[(x, y)])
                        == flat_result(
                        any_lit(tris@, k as int, gw, gh, x, y),
                        color,
                        base[(x, y)],
                    ),
            decreases tris@.len() - k,
        {
            let t = tris[k];
            let (left, top, right, bottom) = clipped_bbox(&t, w, h);
            let mut cx: i64 = left;
            proof {
                assert forall|x: int, y: int| 0 <= x < gw && 0 <= y < gh implies lit_before(
                    tris@,
                    k as int,
                    t,
                    gw,
                    gh,
                    cx as int,
                    top as int,
                    x,
                    y,
                ) == any_lit(tris@, k as int, gw, gh, x, y) by {}
            }
            while cx < right
                invariant
                    self.wf(),
                    self@.width == gw,
                    self@.height == gh,
                    w as int == gw,
                    h as int == gh,
                    base == old(self)@.pixels,
                    k < tris@.len(),
                    t == tris@[k as int],
                    tri_ok(t),
                    forall|i: int| 0 <= i < tris@.len() ==> tri_ok(#[trigger] tris@[i]),
                    left as int == bbox_left(t),
                    top as int == bbox_top(t),
                    right as int == bbox_right(t, gw),
                    bottom as int == bbox_bottom(t, gh),
                    0 <= left,
                    0 <= top,
                    right as int <= imin(8193, gw),
                    bottom as int <= imin(8193, gh),
                    left <= cx,
                    cx as int <= imax(left as int, right as int),
                    forall|x: int, y: int|
                        0 <= x < gw && 0 <= y < gh ==> (#[trigger] self.used_at(x, y))
                            == lit_before(
                            tris@,
                            k as int,
                            t,
                            gw,
                            gh,
                            cx as int,
                            top as int,
                            x,
                            y,
                        ),
                    forall|x: int, y: int|
                        0 <= x < gw && 0 <= y < gh ==> (#[trigger] self@.pixels[(x, y)])
                            == flat_result(
                            lit_before(tris@, k as int, t, gw, gh, cx as int, top as int, x, y),
                            color,
                            base[(x, y)],
                        ),
                decreases right - cx,
            {
                let mut cy: i64 = top;
                while cy < bottom
                    invariant
                        self.wf(),
                        self@.width == gw,
                        self@.height == gh,
                        w as int == gw,
                        h as int == gh,
                        base == old(self)@.pixels,
                        k < tris@.len(),
                        t == tris@[k as int],
                        tri_ok(t),
                        forall|i: int| 0 <= i < tris@.len() ==> tri_ok(#[trigger] tris@[i]),
                        left as int == bbox_left(t),
                        top as int == bbox_top(t),
                        right as int == bbox_right(t, gw),
                        bottom as int == bbox_bottom(t, gh),
                        0 <= left,
                        0 <= top,
                        right as int <= imin(8193, gw),
                        bottom as int <= imin(8193, gh),
                        left <= cx,
                        cx < right,
                        top <= cy,
                        cy as int <= imax(top as int, bottom as int),
                        forall|x: int, y: int|
                            0 <= x < gw && 0 <= y < gh ==> (#[trigger] self.used_at(x, y))
                                == lit_before(
                                tris@,
                                k as int,
                                t,
                                gw,
                                gh,
                                cx as int,
                                cy as int,
                                x,
                                y,
                            ),
                        forall|x: int, y: int|
                            0 <= x < gw && 0 <= y < gh ==> (#[trigger] self@.pixels[(x, y)])
                                == flat_result(
                                lit_before(tris@, k as int, t, gw, gh, cx as int, cy as int, x, y),
                                color,
                                base[(x, y)],
                            ),
                    decreases bottom - cy,
                {
                    let ghost snap = *self;
                    let p = Vec2 { x: cx * SCALE, y: cy * SCALE };
                    let ghost litxy = tri_lit(t, gw, gh, cx as int, cy as int);
                    proof {
                        assert(p == pixel_point(cx as int, cy as int));
                    }
                    if triangle_contains(&t, p) {
                        let ux = cx as u32;
                        let uy = cy as u32;
                        proof {
                            assert(litxy);
                        }
                        if !self.used_get(ux, uy) {
                            let under = Color::from_rgba8(grid_get(&self.grid, ux, uy));
                            let outc = layer(color, under);
                            let q = outc.to_rgba8();
                            let ghost prev = self@.pixels;
                            proof {
                                lemma_insert_keeps_dom(
                                    image_pixels(self.grid),
                                    self.width as int,
                                    self.height as int,
                                    (cx as int, cy as int),
                                    q,
                                );
                            }
                            grid_put(&mut self.grid, ux, uy, q);
                            proof {
                                assert(self@.pixels == prev.insert((cx as int, cy as int), q));
                                assert forall|a: int, b: int|
                                    !(a == cx as int && b == cy as int) implies #[trigger] self@
                                    .pixels[(a, b)] == prev[(a, b)] by {
                                    assert(prev.insert((cx as int, cy as int), q)[(a, b)] == prev[
                                        (a, b)
                                    ]);
                                }
                                assert(self@.pixels[(cx as int, cy as int)] == flat_out(
                                    color,
                                    base[(cx as int, cy as int)],
                                ));
                            }
                            self.used_set(ux, uy);
                        }
                    }
                    proof {
                        assert forall|x: int, y: int| 0 <= x < gw && 0 <= y < gh implies lit_before(
                            tris@,
                            k as int,
                            t,
                            gw,
                            gh,
                            cx as int,
                            cy as int + 1,
                            x,
                            y,
                        ) == (lit_before(tris@, k as int, t, gw, gh, cx as int, cy as int, x, y) || (
                        litxy && x == cx as int && y == cy as int)) by {}
                        assert forall|x: int, y: int|
                            0 <= x < gw && 0 <= y < gh implies (#[trigger] self.used_at(x, y))
                            == lit_before(
                            tris@,
                            k as int,
                            t,
                            gw,
                            gh,
                            cx as int,
                            cy as int + 1,
                            x,
                            y,
                        ) by {
                            assert(snap.used_at(x, y) == lit_before(
                                tris@,
                                k as int,
                                t,
                                gw,
                                gh,
                                cx as int,
                                cy as int,
                                x,
                                y,
                            ));
                            if !(x == cx as int && y == cy as int) {
                                assert(self.used_at(x, y) == snap.used_at(x, y));
                            }
                        }
                    }
                    cy = cy + 1;
                }
                proof {
                    assert forall|x: int, y: int| 0 <= x < gw && 0 <= y < gh implies lit_before(
                        tris@,
                        k as int,
                        t,
                        gw,
                        gh,
                        cx as int + 1,
                        top as int,
                        x,
                        y,
                    ) == lit_before(tris@, k as int, t, gw, gh, cx as int, cy as int, x, y) by {}
                }
                cx = cx + 1;
            }
            proof {
                assert forall|x: int, y: int| 0 <= x < gw && 0 <= y < gh implies any_lit(
                    tris@,
                    k as int + 1,
                    gw,
                    gh,
                    x,
                    y,
                ) == lit_before(tris@, k as int, t, gw, gh, cx as int, top as int, x, y) by {
                    lemma_any_lit_step(tris@, k as int, gw, gh, x, y);
                }
            }
            k = k + 1;
        }
    }

    /// One draw call of textured triangles.  Each pair holds a
    /// destination triangle and a texture triangle in normalized
    /// coordinates.  Every covered pixel is composited exactly once,
    /// with the texel sampled through the *first* covering pair in
    /// iteration order, tinted by `color`; every other pixel keeps its
    /// value.  Degenerate destination triangles are skipped.
    pub fn tri_list_uv(
        &mut self,
        color: Color,
        texture: &RenderBuffer,
        pairs: &Vec<(Triangle, Triangle)>,
    )
        requires
            old(self).wf(),
            texture.wf(),
            1 <= texture@.width <= 0x1_0000,
            1 <= texture@.height <= 0x1_0000,
            forall|i: int|
                0 <= i < pairs@.len() ==> tri_ok((#[trigger] pairs@[i]).0) && uv_tri_ok(
                    pairs@[i].1,
                ),
        ensures
            final(self).wf(),
            final(self)@.width == old(self)@.width,
            final(self)@.height == old(self)@.height,
            forall|x: int, y: int|
                0 <= x < old(self)@.width && 0 <= y < old(self)@.height
                    ==> (#[trigger] final(self)@.pixels[(x, y)]) == uv_result_at(
                    pairs@,
                    first_hit(
                        pairs@,
                        pairs@.len() as int,
                        old(self)@.width,
                        old(self)@.height,
                        x,
                        y,
                    ),
                    color,
                    texture@,
                    x,
                    y,
                    old(self)@.pixels[(x, y)],
                ),
    {
        self.reset_used();
        let w = self.width;
        let h = self.height;
        let tw = texture.width;
        let th = texture.height;
        let ghost gw = self@.width;
        let ghost gh = self@.height;
        let ghost base = self@.pixels;
        let mut k: usize = 0;
        while k < pairs.len()
            invariant
                self.wf(),
                texture.wf(),
                self@.width == gw,
                self@.height == gh,
                w as int == gw,
                h as int == gh,
                tw as int == texture@.width,
                th as int == texture@.height,
                1 <= texture@.width <= 0x1_0000,
                1 <= texture@.height <= 0x1_0000,
                base == old(self)@.pixels,
                k <= pairs@.len(),
                forall|i: int|
                    0 <= i < pairs@.len() ==> tri_ok((#[trigger] pairs@[i]).0) && uv_tri_ok(
                        pairs@[i].1,
                    ),
                forall|x: int, y: int|
                    0 <= x < gw && 0 <= y < gh ==> (#[trigger] self.used_at(x, y)) == (first_hit(
                        pairs@,
                        k as int,
                        gw,
                        gh,
                        x,
                        y,
                    ) >= 0),
                forall|x: int, y: int|
                    0 <= x < gw && 0 <= y < gh ==> (#[trigger] self@.pixels[(x, y)])
                        == uv_result_at(
                        pairs@,
                        first_hit(pairs@, k as int, gw, gh, x, y),
                        color,
                        texture@,
                        x,
                        y,
                        base[(x, y)],
                    ),
            decreases pairs@.len() - k,
        {
            let pair = pairs[k];
            let t = pair.0;
            let d = denom(&t);
            if d != 0 {
                let scaled = tri_image_scale(&pair.1, tw, th);
                let (left, top, right, bottom) = clipped_bbox(&t, w, h);
                let mut cx: i64 = left;
                proof {
                    assert forall|x: int, y: int| 0 <= x < gw && 0 <= y < gh implies uv_hit_before(
                        pairs@,
                        k as int,
                        pair,
                        gw,
                        gh,
                        cx as int,
                        top as int,
                        x,
                        y,
                    ) == first_hit(pairs@, k as int, gw, gh, x, y) by {}
                }
                while cx < right
                    invariant
                        self.wf(),
                        texture.wf(),
                        self@.width == gw,
                        self@.height == gh,
                        w as int == gw,
                        h as int == gh,
                        tw as int == texture@.width,
                        th as int == texture@.height,
                        1 <= texture@.width <= 0x1_0000,
                        1 <= texture@.height <= 0x1_0000,
                        base == old(self)@.pixels,
                        k < pairs@.len(),
                        pair == pairs@[k as int],
                        t == pair.0,
                        tri_ok(t),
                        uv_tri_ok(pair.1),
                        denom_spec(t) != 0,
                        scaled == tri_scale_spec(pair.1, texture@.width, texture@.height),
                        uv_scaled_ok(scaled),
                        forall|i: int|
                            0 <= i < pairs@.len() ==> tri_ok((#[trigger] pairs@[i]).0) && uv_tri_ok(
                                pairs@[i].1,
                            ),
                        left as int == bbox_left(t),
                        top as int == bbox_top(t),
                        right as int == bbox_right(t, gw),
                        bottom as int == bbox_bottom(t, gh),
                        0 <= left,
                        0 <= top,
                        right as int <= imin(8193, gw),
                        bottom as int <= imin(8193, gh),
                        left <= cx,
                        cx as int <= imax(left as int, right as int),
                        forall|x: int, y: int|
                            0 <= x < gw && 0 <= y < gh ==> (#[trigger] self.used_at(x, y)) == (
                            uv_hit_before(
                                pairs@,
                                k as int,
                                pair,
                                gw,
                                gh,
                                cx as int,
                                top as int,
                                x,
                                y,
                            ) >= 0),
                        forall|x: int, y: int|
                            0 <= x < gw && 0 <= y < gh ==> (#[trigger] self@.pixels[(x, y)])
                                == uv_result_at(
                                pairs@,
                                uv_hit_before(
                                    pairs@,
                                    k as int,
                                    pair,
                                    gw,
                                    gh,
                                    cx as int,
                                    top as int,
                                    x,
                                    y,
                                ),
                                color,
                                texture@,
                                x,
                                y,
                                base[(x, y)],
                            ),
                    decreases right - cx,
                {
                    let mut cy: i64 = top;
                    while cy < bottom
                        invariant
                            self.wf(),
                            texture.wf(),
                            self@.width == gw,
                            self@.height == gh,
                            w as int == gw,
                            h as int == gh,
                            tw as int == texture@.width,
                            th as int == texture@.height,
                            1 <= texture@.width <= 0x1_0000,
                            1 <= texture@.height <= 0x1_0000,
                            base == old(self)@.pixels,
                            k < pairs@.len(),
                            pair == pairs@[k as int],
                            t == pair.0,
                            tri_ok(t),
                            uv_tri_ok(pair.1),
                            denom_spec(t) != 0,
                            scaled == tri_scale_spec(pair.1, texture@.width, texture@.height),
                            uv_scaled_ok(scaled),
                            forall|i: int|
                                0 <= i < pairs@.len() ==> tri_ok((#[trigger] pairs@[i]).0)
                                    && uv_tri_ok(pairs@[i].1),
                            left as int == bbox_left(t),
                            top as int == bbox_top(t),
                            right as int == bbox_right(t, gw),
                            bottom as int == bbox_bottom(t, gh),
                            0 <= left,
                            0 <= top,
                            right as int <= imin(8193, gw),
                            bottom as int <= imin(8193, gh),
                            left <= cx,
                            cx < right,
                            top <= cy,
                            cy as int <= imax(top as int, bottom as int),
                            forall|x: int, y: int|
                                0 <= x < gw && 0 <= y < gh ==> (#[trigger] self.used_at(x, y)) == (
                                uv_hit_before(
                                    pairs@,
                                    k as int,
                                    pair,
                                    gw,
                                    gh,
                                    cx as int,
                                    cy as int,
                                    x,
                                    y,
                                ) >= 0),
                            forall|x: int, y: int|
                                0 <= x < gw && 0 <= y < gh ==> (#[trigger] self@.pixels[(x, y)])
                                    == uv_result_at(
                                    pairs@,
                                    uv_hit_before(
                                        pairs@,
                                        k as int,
                                        pair,
                                        gw,
                                        gh,
                                        cx as int,
                                        cy as int,
                                        x,
                                        y,
                                    ),
                                    color,
                                    texture@,
                                    x,
                                    y,
                                    base[(x, y)],
                                ),
                        decreases bottom - cy,
                    {
                        let ghost snap = *self;
                        let p = Vec2 { x: cx * SCALE, y: cy * SCALE };
                        let ghost litxy = uv_lit(pair, gw, gh, cx as int, cy as int);
                        proof {
                            assert(p == pixel_point(cx as int, cy as int));
                        }
                        if triangle_contains(&t, p) {
                            let ux = cx as u32;
                            let uy = cy as u32;
                            proof {
                                assert(litxy);
                            }
                            if !self.used_get(ux, uy) {
                                let (sx, sy) = sample_point(p, &t, &scaled, tw, th);
                                let texel = Color::from_rgba8(grid_get(&texture.grid, sx, sy));
                                let under = Color::from_rgba8(grid_get(&self.grid, ux, uy));
                                let outc = layer(multiply(color, texel), under);
                                let q = outc.to_rgba8();
                                let ghost prev = self@.pixels;
                                proof {
                                    lemma_insert_keeps_dom(
                                        image_pixels(self.grid),
                                        self.width as int,
                                        self.height as int,
                                        (cx as int, cy as int),
                                        q,
                                    );
                                }
                                grid_put(&mut self.grid, ux, uy, q);
                                proof {
                                    assert(self@.pixels == prev.insert((cx as int, cy as int), q));
                                    assert forall|a: int, b: int|
                                        !(a == cx as int && b == cy as int) implies #[trigger] self@
                                        .pixels[(a, b)] == prev[(a, b)] by {
                                        assert(prev.insert((cx as int, cy as int), q)[(a, b)]
                                            == prev[(a, b)]);
                                    }
                                    assert(self@.pixels[(cx as int, cy as int)] == uv_out(
                                        color,
                                        texture@,
                                        pair,
                                        cx as int,
                                        cy as int,
                                        base[(cx as int, cy as int)],
                                    ));
                                }
                                self.used_set(ux, uy);
                            }
                        }
                        proof {
                            assert forall|x: int, y: int|
                                0 <= x < gw && 0 <= y < gh implies uv_hit_before(
                                pairs@,
                                k as int,
                                pair,
                                gw,
                                gh,
                                cx as int,
                                cy as int + 1,
                                x,
                                y,
                            ) == (if litxy && x == cx as int && y == cy as int && uv_hit_before(
                                pairs@,
                                k as int,
                                pair,
                                gw,
                                gh,
                                cx as int,
                                cy as int,
                                x,
                                y,
                            ) < 0 {
                                k as int
                            } else {
                                uv_hit_before(pairs@, k as int, pair, gw, gh, cx as int, cy as int, x, y)
                            }) by {}
                            assert forall|x: int, y: int|
                                0 <= x < gw && 0 <= y < gh implies (#[trigger] self.used_at(x, y))
                                == (uv_hit_before(
                                pairs@,
                                k as int,
                                pair,
                                gw,
                                gh,
                                cx as int,
                                cy as int + 1,
                                x,
                                y,
                            ) >= 0) by {
                                assert(snap.used_at(x, y) == (uv_hit_before(
                                    pairs@,
                                    k as int,
                                    pair,
                                    gw,
                                    gh,
                                    cx as int,
                                    cy as int,
                                    x,
                                    y,
                                ) >= 0));
                                if !(x == cx as int && y == cy as int) {
                                    assert(self.used_at(x, y) == snap.used_at(x, y));
                                }
                            }
                        }
                        cy = cy + 1;
                    }
                    proof {
                        assert forall|x: int, y: int| 0 <= x < gw && 0 <= y < gh implies
                            uv_hit_before(
                            pairs@,
                            k as int,
                            pair,
                            gw,
                            gh,
                            cx as int + 1,
                            top as int,
                            x,
                            y,
                        ) == uv_hit_before(
                            pairs@,
                            k as int,
                            pair,
                            gw,
                            gh,
                            cx as int,
                            cy as int,
                            x,
                            y,
                        ) by {}
                    }
                    cx = cx + 1;
                }
                proof {
                    assert forall|x: int, y: int| 0 <= x < gw && 0 <= y < gh implies first_hit(
                        pairs@,
                        k as int + 1,
                        gw,
                        gh,
                        x,
                        y,
                    ) == uv_hit_before(
                        pairs@,
                        k as int,
                        pair,
                        gw,
                        gh,
                        cx as int,
                        top as int,
                        x,
                        y,
                    ) by {}
                }
            } else {
                proof {
                    assert forall|x: int, y: int| 0 <= x < gw && 0 <= y < gh implies first_hit(
                        pairs@,
                        k as int + 1,
                        gw,
                        gh,
                        x,
                        y,
                    ) == first_hit(pairs@, k as int, gw, gh, x, y) by {}
                }
            }
            k = k + 1;
        }
    }
}

} // verus!
