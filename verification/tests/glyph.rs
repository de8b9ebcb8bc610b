use graphics_buffer::buffer::RenderBuffer;
use graphics_buffer::color::Color;
use graphics_buffer::glyph::glyph_bitmap;
use graphics_buffer::glyph::glyph_key;
use graphics_buffer::glyph::resolve_char;
use graphics_buffer::glyph::GlyphCache;
use graphics_buffer::glyph::GlyphEntry;

fn entry(advance: u32) -> GlyphEntry {
    GlyphEntry { offset_x: 0, offset_y: 0, advance, bitmap: RenderBuffer::new(1, 1) }
}

#[test]
fn lookup_misses_before_insert() {
    let cache = GlyphCache::new();
    assert!(!cache.cached('a', 12));
    assert!(cache.lookup('a', 12).is_none());
    assert_eq!(cache.rasterizations(), 0);
}

#[test]
fn same_pair_rasterizes_only_once() {
    let mut cache = GlyphCache::new();
    cache.insert('a', 12, entry(700));
    assert_eq!(cache.rasterizations(), 1);
    // A second rasterization of the same pair is dropped whole.
    cache.insert('a', 12, entry(999));
    assert_eq!(cache.rasterizations(), 1);
    let first = cache.lookup('a', 12).unwrap().advance;
    let second = cache.lookup('a', 12).unwrap().advance;
    assert_eq!(first, 700);
    assert_eq!(second, 700);
}

#[test]
fn distinct_pairs_are_cached_separately() {
    let mut cache = GlyphCache::new();
    cache.insert('a', 12, entry(700));
    cache.insert('a', 13, entry(710));
    cache.insert('b', 12, entry(650));
    assert_eq!(cache.rasterizations(), 3);
    assert_eq!(cache.lookup('a', 12).unwrap().advance, 700);
    assert_eq!(cache.lookup('a', 13).unwrap().advance, 710);
    assert_eq!(cache.lookup('b', 12).unwrap().advance, 650);
    assert_ne!(glyph_key('a', 13), glyph_key('b', 12));
}

#[test]
fn text_width_sums_advances() {
    let mut cache = GlyphCache::new();
    cache.insert('a', 16, entry(3 * 65536));
    cache.insert('b', 16, entry(2 * 65536));
    let w = cache.text_width(16, &['a', 'b', 'a']);
    assert_eq!(w, Some(8 * 65536));
    assert_eq!(cache.text_width(16, &[]), Some(0));
}

#[test]
fn text_width_needs_every_character_cached() {
    let mut cache = GlyphCache::new();
    cache.insert('a', 16, entry(3 * 65536));
    assert_eq!(cache.text_width(16, &['a', 'z']), None);
    assert_eq!(cache.text_width(17, &['a']), None);
}

#[test]
fn glyph_bitmap_holds_coverage_as_alpha() {
    let coverage = vec![0u8, 128, 255, 7];
    let bmp = glyph_bitmap(2, 2, &coverage);
    assert_eq!(bmp.width(), 2);
    assert_eq!(bmp.height(), 2);
    assert_eq!(bmp.pixel(0, 0), Color::from_rgba8((255, 255, 255, 0)));
    assert_eq!(bmp.pixel(1, 0), Color::from_rgba8((255, 255, 255, 128)));
    assert_eq!(bmp.pixel(0, 1), Color::from_rgba8((255, 255, 255, 255)));
    assert_eq!(bmp.pixel(1, 1), Color::from_rgba8((255, 255, 255, 7)));
}

#[test]
fn missing_outline_falls_back_to_replacement() {
    assert_eq!(resolve_char('x', true), 'x');
    assert_eq!(resolve_char('x', false), '\u{FFFD}');
}

#[test]
fn get_or_rasterize_runs_the_rasterizer_once() {
    let mut cache = GlyphCache::new();
    let mut runs = 0;
    let first = cache
        .get_or_rasterize('q', 9, || {
            runs += 1;
            entry(500)
        })
        .advance;
    let second = cache
        .get_or_rasterize('q', 9, || {
            runs += 1;
            entry(999)
        })
        .advance;
    assert_eq!(first, 500);
    assert_eq!(second, 500);
    assert_eq!(runs, 1);
    assert_eq!(cache.rasterizations(), 1);
}
