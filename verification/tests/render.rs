use graphics_buffer::buffer::Error;
use graphics_buffer::buffer::RenderBuffer;
use graphics_buffer::color::layer;
use graphics_buffer::color::Color;
use graphics_buffer::color::UNIT;
use graphics_buffer::geom::Triangle;
use graphics_buffer::geom::Vec2;
use graphics_buffer::geom::SCALE;

fn pt(x: i64, y: i64) -> Vec2 {
    Vec2 { x: x * SCALE, y: y * SCALE }
}

fn tri(a: Vec2, b: Vec2, c: Vec2) -> Triangle {
    Triangle { a, b, c }
}

const BLACK: Color = Color { r: 0, g: 0, b: 0, a: UNIT };
const RED: Color = Color { r: UNIT, g: 0, b: 0, a: UNIT };

/// What one compositing pass stores and then reads back.
fn once_through(over: Color, under: Color) -> Color {
    Color::from_rgba8(layer(over, under).to_rgba8())
}

#[test]
fn new_buffer_is_transparent_black() {
    let buf = RenderBuffer::new(3, 2);
    assert_eq!(buf.width(), 3);
    assert_eq!(buf.height(), 2);
    assert_eq!(buf.pixel(0, 0), Color { r: 0, g: 0, b: 0, a: 0 });
    assert_eq!(buf.pixel(2, 1), Color { r: 0, g: 0, b: 0, a: 0 });
}

#[test]
fn set_pixel_then_read_back() {
    let mut buf = RenderBuffer::new(4, 4);
    let c = Color { r: 65535, g: 32768, b: 257, a: 65535 };
    buf.set_pixel(2, 3, c);
    let read = buf.pixel(2, 3);
    assert_eq!(read, Color::from_rgba8(c.to_rgba8()));
    assert_eq!(buf.pixel(1, 3), Color { r: 0, g: 0, b: 0, a: 0 });
}

#[test]
fn clear_overwrites_every_pixel() {
    let mut buf = RenderBuffer::new(5, 5);
    buf.clear(RED);
    for x in 0..5 {
        for y in 0..5 {
            assert_eq!(buf.pixel(x, y), RED);
        }
    }
}

#[test]
fn from_raw_reads_row_major_bytes() {
    let bytes = vec![
        1, 2, 3, 4, // pixel (0, 0)
        5, 6, 7, 8, // pixel (1, 0)
        9, 10, 11, 12, // pixel (0, 1)
        13, 14, 15, 16, // pixel (1, 1)
    ];
    let buf = RenderBuffer::from_raw(2, 2, bytes).unwrap();
    assert_eq!(buf.pixel(1, 0), Color::from_rgba8((5, 6, 7, 8)));
    assert_eq!(buf.pixel(0, 1), Color::from_rgba8((9, 10, 11, 12)));
}

#[test]
fn from_raw_rejects_wrong_length() {
    let r = RenderBuffer::from_raw(2, 2, vec![0u8; 15]);
    assert!(matches!(r, Err(Error::SizeMismatch(15, 4))));
}

#[test]
fn raw_bytes_exports_stored_pixels() {
    let mut buf = RenderBuffer::new(2, 1);
    buf.set_pixel(1, 0, Color::from_rgba8((9, 8, 7, 6)));
    let bytes = buf.raw_bytes();
    assert_eq!(bytes, vec![0, 0, 0, 0, 9, 8, 7, 6]);
}

#[test]
fn update_overwrites_rectangle_only() {
    let mut buf = RenderBuffer::new(4, 4);
    buf.clear(BLACK);
    let memory = vec![
        10, 11, 12, 255, // source (0, 0)
        20, 21, 22, 255, // source (1, 0)
        30, 31, 32, 255, // source (0, 1)
        40, 41, 42, 255, // source (1, 1)
    ];
    buf.update(&memory, (1, 2), (2, 2)).unwrap();
    assert_eq!(buf.pixel(1, 2), Color::from_rgba8((10, 11, 12, 255)));
    assert_eq!(buf.pixel(2, 2), Color::from_rgba8((20, 21, 22, 255)));
    assert_eq!(buf.pixel(1, 3), Color::from_rgba8((30, 31, 32, 255)));
    assert_eq!(buf.pixel(2, 3), Color::from_rgba8((40, 41, 42, 255)));
    assert_eq!(buf.pixel(0, 0), Color::from_rgba8((0, 0, 0, 255)));
    assert_eq!(buf.pixel(3, 3), Color::from_rgba8((0, 0, 0, 255)));
}

#[test]
fn update_rejects_wrong_length() {
    let mut buf = RenderBuffer::new(4, 4);
    let r = buf.update(&[0u8; 9], (0, 0), (2, 2));
    assert!(matches!(r, Err(Error::SizeMismatch(9, 4))));
}

#[test]
fn red_triangle_on_black_buffer() {
    let mut buf = RenderBuffer::new(100, 100);
    buf.clear(BLACK);
    let t = tri(pt(0, 0), pt(100, 0), pt(0, 100));
    buf.tri_list(RED, &vec![t]);
    let red_stored = once_through(RED, BLACK);
    assert_eq!(buf.pixel(10, 10), red_stored);
    assert_eq!(buf.pixel(90, 5), red_stored);
    assert_eq!(buf.pixel(95, 95), once_through(BLACK, BLACK));
    assert_eq!(buf.pixel(95, 95), Color::from_rgba8((0, 0, 0, 255)));
}

#[test]
fn overlapping_triangles_blend_once() {
    let mut buf = RenderBuffer::new(10, 10);
    buf.clear(BLACK);
    let half_red = Color { r: UNIT, g: 0, b: 0, a: 32768 };
    let t = tri(pt(0, 0), pt(10, 0), pt(0, 10));
    // Two identical overlapping triangles in ONE draw call.
    buf.tri_list(half_red, &vec![t, t]);
    let stored_black = Color::from_rgba8((0, 0, 0, 255));
    let single = once_through(half_red, stored_black);
    let double = once_through(half_red, single);
    assert_ne!(single, double, "the two composites must differ for this test to mean anything");
    assert_eq!(buf.pixel(2, 2), single);
}

#[test]
fn two_calls_blend_twice() {
    let mut buf = RenderBuffer::new(10, 10);
    buf.clear(BLACK);
    let half_red = Color { r: UNIT, g: 0, b: 0, a: 32768 };
    let t = tri(pt(0, 0), pt(10, 0), pt(0, 10));
    buf.tri_list(half_red, &vec![t]);
    buf.tri_list(half_red, &vec![t]);
    let stored_black = Color::from_rgba8((0, 0, 0, 255));
    let single = once_through(half_red, stored_black);
    let double = once_through(half_red, single);
    assert_eq!(buf.pixel(2, 2), double);
}

#[test]
fn pixels_outside_bounding_box_untouched() {
    let mut buf = RenderBuffer::new(20, 20);
    buf.clear(BLACK);
    // A small triangle near the origin: its clipped box stays under 4.
    let t = tri(pt(1, 1), pt(3, 1), pt(1, 3));
    buf.tri_list(RED, &vec![t]);
    let stored_black = Color::from_rgba8((0, 0, 0, 255));
    for x in 4..20 {
        for y in 4..20 {
            assert_eq!(buf.pixel(x, y), stored_black);
        }
    }
}

#[test]
fn subpixel_vertices_are_honored() {
    let mut buf = RenderBuffer::new(4, 4);
    buf.clear(BLACK);
    // A triangle with half-pixel vertices still covers pixel (1, 1).
    let t = Triangle {
        a: Vec2 { x: SCALE / 2, y: SCALE / 2 },
        b: Vec2 { x: 3 * SCALE + SCALE / 2, y: SCALE / 2 },
        c: Vec2 { x: SCALE / 2, y: 3 * SCALE + SCALE / 2 },
    };
    buf.tri_list(RED, &vec![t]);
    assert_eq!(buf.pixel(1, 1), once_through(RED, BLACK));
}

#[test]
fn empty_draw_call_changes_nothing() {
    let mut buf = RenderBuffer::new(3, 3);
    buf.clear(RED);
    buf.tri_list(BLACK, &vec![]);
    assert_eq!(buf.pixel(1, 1), RED);
}

#[test]
fn triangle_outside_buffer_changes_nothing() {
    let mut buf = RenderBuffer::new(3, 3);
    buf.clear(BLACK);
    let t = tri(pt(10, 10), pt(20, 10), pt(10, 20));
    buf.tri_list(RED, &vec![t]);
    let stored_black = Color::from_rgba8((0, 0, 0, 255));
    for x in 0..3 {
        for y in 0..3 {
            assert_eq!(buf.pixel(x, y), stored_black);
        }
    }
}

#[test]
fn negative_vertices_clip_to_buffer() {
    let mut buf = RenderBuffer::new(3, 3);
    buf.clear(BLACK);
    // A large triangle reaching in from negative space covers (0, 0).
    let t = tri(pt(-5, -5), pt(5, -5), pt(-5, 5));
    buf.tri_list(RED, &vec![t]);
    assert_eq!(buf.pixel(0, 0), once_through(RED, BLACK));
}

#[test]
fn zero_sized_buffer_is_fine() {
    let buf = RenderBuffer::from_raw(0, 0, Vec::new()).unwrap();
    assert_eq!(buf.width(), 0);
    assert_eq!(buf.height(), 0);
}
