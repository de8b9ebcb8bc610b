//! The pixel grid behind the render buffer.
//!
//! The buffer's pixels live in an RGBA image of the `image` crate, held
//! in the opaque [`PixelGrid`].  What the grid holds is named by
//! [`image_pixels`], [`image_width`] and [`image_height`], and each
//! operation the rasterizer uses is a trusted wrapper whose contract
//! speaks over those names.

use vstd::prelude::*;

verus! {

/// A width-by-height grid of RGBA8 pixels, backed by an image of the
/// `image` crate.  Opaque to the verifier; its contents are named by
/// [`image_pixels`].
#[verifier::external_body]
pub struct PixelGrid {
    inner: image::RgbaImage,
}

/// What a pixel grid holds: the 8-bit channel quadruple at each pixel
/// coordinate inside the grid's extent.
pub uninterp spec fn image_pixels(g: PixelGrid) -> Map<(int, int), (u8, u8, u8, u8)>;

/// The width a pixel grid was made with.
pub uninterp spec fn image_width(g: PixelGrid) -> nat;

/// The height a pixel grid was made with.
pub uninterp spec fn image_height(g: PixelGrid) -> nat;

/// A `width` by `height` grid holding the same quadruple everywhere.
pub open spec fn solid_grid(width: int, height: int, p: (u8, u8, u8, u8)) -> Map<
    (int, int),
    (u8, u8, u8, u8),
> {
    Map::new(|xy: (int, int)| 0 <= xy.0 < width && 0 <= xy.1 < height, |xy: (int, int)| p)
}

/// A `width` by `height` grid read out of a row-major byte sequence,
/// four bytes per pixel.
pub open spec fn raw_grid(width: int, height: int, buf: Seq<u8>) -> Map<
    (int, int),
    (u8, u8, u8, u8),
> {
    Map::new(
        |xy: (int, int)| 0 <= xy.0 < width && 0 <= xy.1 < height,
        |xy: (int, int)|
            (
                buf[4 * (xy.1 * width + xy.0)],
                buf[4 * (xy.1 * width + xy.0) + 1],
                buf[4 * (xy.1 * width + xy.0) + 2],
                buf[4 * (xy.1 * width + xy.0) + 3],
            ),
    )
}

/// Relies on image::ImageBuffer::new: a buffer of the given dimensions
/// with every sample zero, hence every pixel transparent black.  `new`
/// aborts when `4 * width * height` overflows `usize`, so that case is
/// required away.
#[verifier::external_body]
pub(crate) fn grid_new(width: u32, height: u32) -> (r: PixelGrid)
    requires
        4 * (width as int) * (height as int) <= usize::MAX as int,
    ensures
        image_width(r) == width as nat,
        image_height(r) == height as nat,
        image_pixels(r) == solid_grid(width as int, height as int, (0u8, 0u8, 0u8, 0u8)),
{
    PixelGrid { inner: image::RgbaImage::new(width, height) }
}

/// Relies on image::ImageBuffer::from_raw: with a container of exactly
/// `4 * width * height` bytes the image is built over it, pixel
/// `(x, y)` reading its four channels at byte `4 * (y * width + x)` of
/// the row-major container.
#[verifier::external_body]
pub(crate) fn grid_from_raw(width: u32, height: u32, buf: Vec<u8>) -> (r: PixelGrid)
    requires
        buf.len() == 4 * (width as int) * (height as int),
    ensures
        image_width(r) == width as nat,
        image_height(r) == height as nat,
        image_pixels(r) == raw_grid(width as int, height as int, buf@),
{
    PixelGrid { inner: image::RgbaImage::from_raw(width, height, buf).unwrap() }
}

/// Relies on image::ImageBuffer::get_pixel, which panics outside the
/// image's extent, so the bounds are required.
#[verifier::external_body]
pub(crate) fn grid_get(g: &PixelGrid, x: u32, y: u32) -> (r: (u8, u8, u8, u8))
    requires
        (x as nat) < image_width(*g),
        (y as nat) < image_height(*g),
    ensures
        r == image_pixels(*g)[(x as int, y as int)],
{
    let p = g.inner.get_pixel(x, y).0;
    (p[0], p[1], p[2], p[3])
}

/// Relies on image::ImageBuffer::put_pixel, which panics outside the
/// image's extent, so the bounds are required.  The write touches one
/// pixel and nothing else.
#[verifier::external_body]
pub(crate) fn grid_put(g: &mut PixelGrid, x: u32, y: u32, p: (u8, u8, u8, u8))
    requires
        (x as nat) < image_width(*old(g)),
        (y as nat) < image_height(*old(g)),
    ensures
        image_width(*final(g)) == image_width(*old(g)),
        image_height(*final(g)) == image_height(*old(g)),
        image_pixels(*final(g)) == image_pixels(*old(g)).insert((x as int, y as int), p),
{
    g.inner.put_pixel(x, y, image::Rgba([p.0, p.1, p.2, p.3]))
}

/// Relies on image::ImageBuffer::as_raw: the backing bytes in row-major
/// order, four per pixel, copied out for callers that upload or encode
/// the grid.
#[verifier::external_body]
pub fn grid_raw_bytes(g: &PixelGrid) -> (r: Vec<u8>)
    ensures
        r@ == grid_bytes(*g),
{
    g.inner.as_raw().clone()
}

/// The row-major byte image of a grid, four bytes per pixel.
pub open spec fn grid_bytes(g: PixelGrid) -> Seq<u8> {
    Seq::new(
        4 * image_width(g) * image_height(g),
        |i: int|
            {
                let x = (i / 4) % (image_width(g) as int);
                let y = (i / 4) / (image_width(g) as int);
                let ch = i % 4;
                let p = image_pixels(g)[(x, y)];
                if ch == 0 {
                    p.0
                } else if ch == 1 {
                    p.1
                } else if ch == 2 {
                    p.2
                } else {
                    p.3
                }
            },
    )
}

} // verus!
