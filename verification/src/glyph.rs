//! The glyph cache.
//!
//! Each requested (character, pixel-size) pair is rasterized at most
//! once: the first request inserts the rasterized bitmap and metrics,
//! and every later request for the pair returns exactly the stored
//! entry.  A character the font has no outline for is served through
//! the Unicode replacement character, cached under its own key.  The
//! cache never evicts.
//!
//! Rasterizing an outline is the font library's work; this module owns
//! the memoization, the key encoding, the coverage-to-bitmap painting,
//! and the advance-width summation.

use crate::buffer::RenderBuffer;
use crate::color::lemma_quantize_exact;
use crate::color::Color;
use std::collections::HashMap;
use vstd::prelude::*;

verus! {

broadcast use vstd::std_specs::hash::group_hash_axioms;

/// One rasterized glyph: its draw offset relative to the pen position,
/// its advance width, and its bitmap.  Offsets and the advance are
/// 16.16 fixed point, as all coordinates of this crate are; the bitmap
/// holds full-white pixels whose alpha is the outline's coverage.
pub struct GlyphEntry {
    pub offset_x: i64,
    pub offset_y: i64,
    pub advance: u32,
    pub bitmap: RenderBuffer,
}

impl GlyphEntry {
    /// The entry's bitmap is a well-formed buffer.
    pub open spec fn wf(self) -> bool {
        self.bitmap.wf()
    }
}

/// The cache key of a (character, pixel-size) pair: the code point in
/// the upper half, the size in the lower half.
pub open spec fn glyph_key_spec(ch: char, size: u32) -> u64 {
    ((ch as int) * 0x1_0000_0000 + size as int) as u64
}

/// The executable cache key.
pub fn glyph_key(ch: char, size: u32) -> (r: u64)
    ensures
        r == glyph_key_spec(ch, size),
{
    (ch as u64) * 0x1_0000_0000u64 + (size as u64)
}

/// Distinct (character, size) pairs get distinct keys.
pub proof fn lemma_glyph_key_injective(c1: char, s1: u32, c2: char, s2: u32)
    requires
        glyph_key_spec(c1, s1) == glyph_key_spec(c2, s2),
    ensures
        c1 as int == c2 as int,
        s1 == s2,
{
    assert(c1 as int == c2 as int && s1 as int == s2 as int) by (nonlinear_arith)
        requires
            (c1 as int) * 0x1_0000_0000 + s1 as int == (c2 as int) * 0x1_0000_0000 + s2 as int,
            0 <= (s1 as int) && (s1 as int) < 0x1_0000_0000,
            0 <= (s2 as int) && (s2 as int) < 0x1_0000_0000,
            0 <= c1 as int,
            0 <= c2 as int,
    {
    }
}

/// What the cache holds after a request inserts a freshly rasterized
/// entry: unchanged when the pair is already cached, extended by the
/// entry otherwise.
pub open spec fn cache_insert(
    m: Map<u64, GlyphEntry>,
    ch: char,
    size: u32,
    e: GlyphEntry,
) -> Map<u64, GlyphEntry> {
    if m.contains_key(glyph_key_spec(ch, size)) {
        m
    } else {
        m.insert(glyph_key_spec(ch, size), e)
    }
}

/// What a lookup of a (character, size) pair returns.
pub open spec fn cache_lookup(m: Map<u64, GlyphEntry>, ch: char, size: u32) -> Option<GlyphEntry> {
    if m.contains_key(glyph_key_spec(ch, size)) {
        Some(m[glyph_key_spec(ch, size)])
    } else {
        None
    }
}

/// A memoizing cache of rasterized glyphs, keyed by (character,
/// pixel-size).  Not safe for unsynchronized concurrent mutation:
/// callers on several threads must serialize access themselves.
pub struct GlyphCache {
    entries: HashMap<u64, GlyphEntry>,
}

impl View for GlyphCache {
    type V = Map<u64, GlyphEntry>;

    closed spec fn view(&self) -> Map<u64, GlyphEntry> {
        self.entries@
    }
}

impl GlyphCache {
    /// Every cached entry carries a well-formed bitmap.
    pub open spec fn wf(self) -> bool {
        forall|k: u64| self@.contains_key(k) ==> (#[trigger] self@[k]).wf()
    }

    /// An empty cache.
    pub fn new() -> (r: GlyphCache)
        ensures
            r@ == Map::<u64, GlyphEntry>::empty(),
            r.wf(),
    {
        GlyphCache { entries: HashMap::new() }
    }

    /// Whether a (character, size) pair is cached.
    pub fn cached(&self, ch: char, size: u32) -> (r: bool)
        ensures
            r == self@.contains_key(glyph_key_spec(ch, size)),
    {
        let key = glyph_key(ch, size);
        self.entries.contains_key(&key)
    }

    /// The cached entry of a (character, size) pair, if any.  Two
    /// lookups of one pair on one cache state return the identical
    /// entry.
    pub fn lookup(&self, ch: char, size: u32) -> (r: Option<&GlyphEntry>)
        requires
            self.wf(),
        ensures
            cache_lookup(self@, ch, size) is Some ==> (r matches Some(e) && *e == cache_lookup(
                self@,
                ch,
                size,
            ).unwrap() && e.wf()),
            cache_lookup(self@, ch, size) is None ==> r is None,
    {
        let key = glyph_key(ch, size);
        self.entries.get(&key)
    }

    /// Insert a freshly rasterized entry for a (character, size) pair.
    /// A pair that is already cached is left exactly as it was: each
    /// pair is rasterized at most once per cache.
    pub fn insert(&mut self, ch: char, size: u32, entry: GlyphEntry)
        requires
            old(self).wf(),
            entry.wf(),
        ensures
            final(self).wf(),
            final(self)@ == cache_insert(old(self)@, ch, size, entry),
    {
        let key = glyph_key(ch, size);
        if !self.entries.contains_key(&key) {
            self.entries.insert(key, entry);
            proof {
                assert forall|k: u64| self@.contains_key(k) implies (#[trigger] self@[k]).wf() by {
                    if k != glyph_key_spec(ch, size) {
                        assert(self@[k] == old(self)@[k]);
                    }
                }
            }
        }
    }

    /// Serve a (character, size) request: the cached entry when the
    /// pair is cached, otherwise the entry `rasterize` returns,
    /// inserted first.  `rasterize` runs only on a miss, so each pair
    /// is rasterized at most once per cache.
    pub fn get_or_rasterize<F: FnOnce() -> GlyphEntry>(
        &mut self,
        ch: char,
        size: u32,
        rasterize: F,
    ) -> (r: &GlyphEntry)
        requires
            old(self).wf(),
            rasterize.requires(()),
            forall|e: GlyphEntry| rasterize.ensures((), e) ==> e.wf(),
        ensures
            final(self).wf(),
            old(self)@.contains_key(glyph_key_spec(ch, size)) ==> {
                &&& final(self)@ == old(self)@
                &&& *r == old(self)@[glyph_key_spec(ch, size)]
            },
            !old(self)@.contains_key(glyph_key_spec(ch, size)) ==> exists|e: GlyphEntry|
                {
                    &&& #[trigger] rasterize.ensures((), e)
                    &&& final(self)@ == old(self)@.insert(glyph_key_spec(ch, size), e)
                    &&& *r == e
                },
    {
        let key = glyph_key(ch, size);
        if !self.entries.contains_key(&key) {
            let entry = rasterize();
            self.entries.insert(key, entry);
            proof {
                assert forall|k: u64| self@.contains_key(k) implies (#[trigger] self@[k]).wf() by {
                    if k != glyph_key_spec(ch, size) {
                        assert(self@[k] == old(self)@[k]);
                    }
                }
            }
        }
        let got = self.entries.get(&key);
        proof {
            assert(self@.contains_key(glyph_key_spec(ch, size)));
        }
        got.unwrap()
    }

    /// How many distinct (character, size) pairs have been rasterized
    /// into the cache.
    pub fn rasterizations(&self) -> (r: usize)
        ensures
            r == self@.len(),
    {
        self.entries.len()
    }

    /// The width of a run of text at one size: the sum of the advance
    /// widths of its characters' cached glyphs, or `None` as soon as
    /// some character is not cached yet.
    pub fn text_width(&self, size: u32, text: &[char]) -> (r: Option<u64>)
        requires
            self.wf(),
            text@.len() < 0x8000_0000,
        ensures
            advance_sum(self@, size, text@) is Some <==> r is Some,
            r matches Some(v) ==> Some(v as int) == advance_sum(self@, size, text@),
    {
        let mut acc: u64 = 0;
        let mut i: usize = 0;
        proof {
            assert(text@.skip(0) =~= text@);
        }
        while i < text.len()
            invariant
                self.wf(),
                i <= text@.len(),
                text@.len() < 0x8000_0000,
                acc <= (i as int) * 0x1_0000_0000,
                advance_sum(self@, size, text@) == advance_sum_from(
                    self@,
                    size,
                    text@,
                    i as int,
                    acc as int,
                ),
            decreases text@.len() - i,
        {
            let ch = text[i];
            let adv: u32;
            match self.lookup(ch, size) {
                Some(e) => {
                    adv = e.advance;
                },
                None => {
                    proof {
                        assert(text@.skip(i as int)[0] == text@[i as int]);
                    }
                    return None;
                },
            }
            proof {
                assert(text@.skip(i as int)[0] == text@[i as int]);
                assert(text@.skip(i as int).drop_first() =~= text@.skip(i as int + 1));
            }
            acc = acc + adv as u64;
            i = i + 1;
        }
        proof {
            assert(text@.skip(text@.len() as int) =~= Seq::<char>::empty());
        }
        Some(acc)
    }
}

/// The total advance of a run of text against a cache state: `None` as
/// soon as some character of the run is not cached.
pub open spec fn advance_sum(m: Map<u64, GlyphEntry>, size: u32, text: Seq<char>) -> Option<int>
    decreases text.len(),
{
    if text.len() == 0 {
        Some(0)
    } else {
        let k = glyph_key_spec(text[0], size);
        if m.contains_key(k) {
            match advance_sum(m, size, text.drop_first()) {
                Some(rest) => Some(m[k].advance + rest),
                None => None,
            }
        } else {
            None
        }
    }
}

/// The total advance of a run, with the first `i` characters already
/// summed into `acc`.
pub open spec fn advance_sum_from(
    m: Map<u64, GlyphEntry>,
    size: u32,
    text: Seq<char>,
    i: int,
    acc: int,
) -> Option<int> {
    match advance_sum(m, size, text.skip(i)) {
        Some(rest) => Some(acc + rest),
        None => None,
    }
}

/// Caching is memoized: the first insertion of a (character, size)
/// pair is returned by lookup exactly as it was inserted, a second
/// insertion of the pair, whatever entry it carries, changes nothing,
/// and the count of rasterized pairs rises only at the first
/// insertion.
pub proof fn lemma_glyph_memoization(
    m: Map<u64, GlyphEntry>,
    ch: char,
    size: u32,
    e1: GlyphEntry,
    e2: GlyphEntry,
)
    requires
        m.dom().finite(),
        !m.contains_key(glyph_key_spec(ch, size)),
    ensures
        cache_lookup(cache_insert(m, ch, size, e1), ch, size) == Some(e1),
        cache_insert(cache_insert(m, ch, size, e1), ch, size, e2) == cache_insert(m, ch, size, e1),
        cache_insert(m, ch, size, e1).len() == m.len() + 1,
{
    let k = glyph_key_spec(ch, size);
    assert(m.insert(k, e1).dom() == m.dom().insert(k));
}

/// Paint a glyph bitmap from per-pixel outline coverage: every pixel
/// full white, its alpha the outline's fractional coverage, written
/// pixel by pixel.  Tinting the bitmap later by multiplication recolors
/// the glyph.
pub fn glyph_bitmap(width: u32, height: u32, coverage: &Vec<u8>) -> (r: RenderBuffer)
    requires
        coverage@.len() == (width as int) * (height as int),
        4 * (width as int) * (height as int) <= usize::MAX as int,
    ensures
        r.wf(),
        r@.width == width as int,
        r@.height == height as int,
        forall|x: int, y: int|
            0 <= x < width as int && 0 <= y < height as int ==> (#[trigger] r@.pixels[(x, y)]) == (
            255u8,
            255u8,
            255u8,
            coverage@[y * width as int + x],
            ),
    {
        let mut buf = RenderBuffer::new(width, height);
        let mut y: u32 = 0;
        while y < height
            invariant
                buf.wf(),
                buf@.width == width as int,
                buf@.height == height as int,
                y <= height,
                coverage@.len() == (width as int) * (height as int),
                4 * (width as int) * (height as int) <= usize::MAX as int,
                forall|a: int, b: int|
                    0 <= a < width as int && 0 <= b < y as int ==> (#[trigger] buf@.pixels[(a, b)])
                        == (255u8, 255u8, 255u8, coverage@[b * width as int + a]),
            decreases height - y,
        {
            let mut x: u32 = 0;
            while x < width
                invariant
                    buf.wf(),
                    buf@.width == width as int,
                    buf@.height == height as int,
                    y < height,
                    x <= width,
                    coverage@.len() == (width as int) * (height as int),
                    4 * (width as int) * (height as int) <= usize::MAX as int,
                    forall|a: int, b: int|
                        0 <= a < width as int && 0 <= b < y as int ==> (#[trigger] buf@.pixels[
                            (a, b)
                        ]) == (255u8, 255u8, 255u8, coverage@[b * width as int + a]),
                    forall|a: int|
                        0 <= a < x as int ==> (#[trigger] buf@.pixels[(a, y as int)]) == (
                        255u8,
                        255u8,
                        255u8,
                        coverage@[(y as int) * width as int + a],
                        ),
                decreases width - x,
            {
                proof {
                    lemma_row_major_index(x as int, y as int, width as int, height as int);
                }
                let idx: usize = (y as usize) * (width as usize) + (x as usize);
                let c = Color::from_rgba8((255u8, 255u8, 255u8, coverage[idx]));
                let ghost prev = buf@.pixels;
                buf.set_pixel(x, y, c);
                proof {
                    lemma_quantize_exact((255u8, 255u8, 255u8, coverage@[idx as int]));
                    assert forall|a: int, b: int|
                        !(a == x as int && b == y as int) implies #[trigger] buf@.pixels[(a, b)]
                        == prev[(a, b)] by {
                        assert(prev.insert(
                            (x as int, y as int),
                            crate::color::to_rgba8_spec(c),
                        )[(a, b)] == prev[(a, b)]);
                    }
                }
                x = x + 1;
            }
            y = y + 1;
        }
        buf
    }

/// A row-major pixel index stays inside the pixel count.
proof fn lemma_row_major_index(x: int, y: int, w: int, h: int)
    requires
        0 <= x < w,
        0 <= y < h,
    ensures
        0 <= y * w + x < w * h,
        w * h <= 4 * w * h,
{
    assert(0 <= y * w + x < w * h && w * h <= 4 * w * h) by (nonlinear_arith)
        requires
            0 <= x < w,
            0 <= y < h,
    {
    }
}

/// The character a request is served with: the requested one when the
/// font has an outline for it, the Unicode replacement character
/// otherwise.  A missing outline never fails a request.
pub fn resolve_char(ch: char, has_outline: bool) -> (r: char)
    ensures
        has_outline ==> r == ch,
        !has_outline ==> r == '\u{FFFD}',
{
    if has_outline {
        ch
    } else {
        '\u{FFFD}'
    }
}

} // verus!
