use image_outline::classify::{is_background, Background, EdgePolicy};
use image_outline::outline::{outline_rgba8, touches_edge, OutlineOptions};
use image_outline::raster::{add_pixel_padding, PixelBuffer, Rgba};

const CLEAR: Rgba = Rgba { r: 0, g: 0, b: 0, a: 0 };
const BLUE: Rgba = Rgba { r: 0, g: 0, b: 255, a: 255 };
const BLACK: Rgba = Rgba { r: 0, g: 0, b: 0, a: 255 };
const WHITE: Rgba = Rgba { r: 255, g: 255, b: 255, a: 255 };
const RED: Rgba = Rgba { r: 255, g: 0, b: 0, a: 255 };

fn filled(w: u32, h: u32, p: Rgba) -> PixelBuffer {
    PixelBuffer::from_pixels(w, h, vec![p; (w * h) as usize]).unwrap()
}

/// A `w` by `h` buffer of `back` with the rectangle `[x0, x1) x [y0, y1)` in `front`.
fn block(w: u32, h: u32, back: Rgba, front: Rgba, x0: u32, y0: u32, x1: u32, y1: u32) -> PixelBuffer {
    let mut v = Vec::new();
    for y in 0..h {
        for x in 0..w {
            v.push(if x >= x0 && x < x1 && y >= y0 && y < y1 { front } else { back });
        }
    }
    PixelBuffer::from_pixels(w, h, v).unwrap()
}

fn opts(pad: bool, extra_wide: bool, weight: u32, edge_policy: EdgePolicy) -> OutlineOptions {
    OutlineOptions { pad, extra_wide, weight, edge_policy }
}

fn red() -> (u8, u8, u8) {
    (255, 0, 0)
}

#[test]
fn classifier_alpha_and_color() {
    assert!(is_background(CLEAR, Background::Alpha));
    assert!(!is_background(BLUE, Background::Alpha));
    assert!(is_background(WHITE, Background::Color(255, 255, 255)));
    let clear_white = Rgba { r: 255, g: 255, b: 255, a: 0 };
    assert!(is_background(clear_white, Background::Color(255, 255, 255)));
    assert!(!is_background(BLACK, Background::Color(255, 255, 255)));
    assert!(!is_background(Rgba { r: 255, g: 255, b: 254, a: 255 }, Background::Color(255, 255, 255)));
}

#[test]
fn from_pixels_rejects_wrong_length() {
    assert!(PixelBuffer::from_pixels(2, 2, vec![BLUE; 3]).is_none());
    assert!(PixelBuffer::from_pixels(2, 2, vec![BLUE; 5]).is_none());
    let b = PixelBuffer::from_pixels(2, 3, vec![BLUE; 6]).unwrap();
    assert_eq!((b.width(), b.height()), (2, 3));
    assert_eq!(b.get_pixel(1, 2), BLUE);
}

#[test]
fn new_is_transparent() {
    let b = PixelBuffer::new(3, 2);
    assert_eq!(b.pixels().len(), 6);
    assert!(b.pixels().iter().all(|p| *p == CLEAR));
}

#[test]
fn padding_grows_by_a_transparent_ring() {
    let src = block(3, 2, BLACK, BLUE, 1, 0, 2, 1);
    let p = add_pixel_padding(&src);
    assert_eq!((p.width(), p.height()), (5, 4));
    for y in 0..4 {
        for x in 0..5 {
            if x == 0 || y == 0 || x == 4 || y == 3 {
                assert_eq!(p.get_pixel(x, y), CLEAR);
            } else {
                assert_eq!(p.get_pixel(x, y), src.get_pixel(x - 1, y - 1));
            }
        }
    }
}

#[test]
fn padding_empty_buffer() {
    let p = add_pixel_padding(&PixelBuffer::new(0, 0));
    assert_eq!((p.width(), p.height()), (2, 2));
    assert!(p.pixels().iter().all(|q| *q == CLEAR));
}

#[test]
fn alpha_mode_padded_three_by_three() {
    let img = filled(3, 3, BLUE);
    let out = outline_rgba8(&img, Background::Alpha, red(), opts(true, false, 1, EdgePolicy::Skip));
    assert_eq!((out.width(), out.height()), (5, 5));
    for y in 0..5 {
        for x in 0..5 {
            let p = out.get_pixel(x, y);
            if x == 0 || y == 0 || x == 4 || y == 4 {
                assert_eq!(p, CLEAR);
            } else if x == 2 && y == 2 {
                assert_eq!(p, BLUE);
            } else {
                assert_eq!(p, RED);
            }
        }
    }
    assert_eq!(img.get_pixel(1, 1), BLUE);
}

#[test]
fn edge_policies_without_padding() {
    let img = filled(3, 3, BLUE);
    let skip = outline_rgba8(&img, Background::Alpha, red(), opts(false, false, 1, EdgePolicy::Skip));
    assert_eq!(skip.pixels(), img.pixels());
    let edge = outline_rgba8(&img, Background::Alpha, red(), opts(false, false, 1, EdgePolicy::TreatAsBackground));
    assert_eq!((edge.width(), edge.height()), (3, 3));
    for y in 0..3 {
        for x in 0..3 {
            let want = if x == 1 && y == 1 { BLUE } else { RED };
            assert_eq!(edge.get_pixel(x, y), want);
        }
    }
}

#[test]
fn color_key_mode() {
    let img = block(5, 5, WHITE, BLACK, 1, 1, 4, 4);
    let key = Background::Color(255, 255, 255);
    let out = outline_rgba8(&img, key, (0, 255, 0), opts(false, false, 1, EdgePolicy::Skip));
    let green = Rgba { r: 0, g: 255, b: 0, a: 255 };
    for y in 0..5 {
        for x in 0..5 {
            let p = out.get_pixel(x, y);
            if x == 0 || y == 0 || x == 4 || y == 4 {
                assert_eq!(p, WHITE);
            } else if x == 2 && y == 2 {
                assert_eq!(p, BLACK);
            } else {
                assert_eq!(p, green);
            }
        }
    }
}

#[test]
fn color_key_ignores_alpha() {
    let mut v = vec![BLACK; 9];
    v[0] = Rgba { r: 255, g: 255, b: 255, a: 0 };
    let img = PixelBuffer::from_pixels(3, 3, v).unwrap();
    let out = outline_rgba8(&img, Background::Color(255, 255, 255), red(), opts(false, false, 1, EdgePolicy::Skip));
    assert_eq!(out.get_pixel(0, 0), Rgba { r: 255, g: 255, b: 255, a: 0 });
    assert_eq!(out.get_pixel(1, 0), RED);
    assert_eq!(out.get_pixel(0, 1), RED);
    assert_eq!(out.get_pixel(1, 1), RED);
    assert_eq!(out.get_pixel(2, 2), BLACK);
    assert_eq!(out.get_pixel(2, 0), BLACK);
}

#[test]
fn widening_dilates_the_outline() {
    let img = block(5, 5, CLEAR, BLUE, 2, 2, 3, 3);
    let narrow = outline_rgba8(&img, Background::Alpha, red(), opts(false, false, 1, EdgePolicy::Skip));
    let wide = outline_rgba8(&img, Background::Alpha, red(), opts(false, true, 1, EdgePolicy::Skip));
    for y in 0..5 {
        for x in 0..5 {
            let centre = x == 2 && y == 2;
            let around = (1..=3).contains(&x) && (1..=3).contains(&y);
            assert_eq!(narrow.get_pixel(x, y), if centre { RED } else { CLEAR });
            assert_eq!(wide.get_pixel(x, y), if around { RED } else { CLEAR });
        }
    }
}

#[test]
fn widening_is_clipped_at_the_edge() {
    let img = block(3, 3, CLEAR, BLUE, 0, 0, 1, 1);
    let wide = outline_rgba8(&img, Background::Alpha, red(), opts(false, true, 1, EdgePolicy::Skip));
    assert_eq!((wide.width(), wide.height()), (3, 3));
    for y in 0..3 {
        for x in 0..3 {
            assert_eq!(wide.get_pixel(x, y), if x <= 1 && y <= 1 { RED } else { CLEAR });
        }
    }
}

#[test]
fn weight_thickens_inwards() {
    let img = block(7, 7, CLEAR, BLUE, 1, 1, 6, 6);
    let ring = |w: u32| outline_rgba8(&img, Background::Alpha, red(), opts(false, false, w, EdgePolicy::Skip));
    let one = ring(1);
    let two = ring(2);
    let three = ring(3);
    for y in 0..7u32 {
        for x in 0..7u32 {
            let d = x.min(y).min(6 - x).min(6 - y);
            let expect = |k: u32| match d {
                0 => CLEAR,
                _ if d <= k => RED,
                _ => BLUE,
            };
            assert_eq!(one.get_pixel(x, y), expect(1));
            assert_eq!(two.get_pixel(x, y), expect(2));
            assert_eq!(three.get_pixel(x, y), expect(3));
        }
    }
}

#[test]
fn weight_zero_copies() {
    let img = block(4, 3, CLEAR, BLUE, 1, 1, 3, 2);
    let out = outline_rgba8(&img, Background::Alpha, red(), opts(false, false, 0, EdgePolicy::Skip));
    assert_eq!(out.pixels(), img.pixels());
    let padded = outline_rgba8(&img, Background::Alpha, red(), opts(true, false, 0, EdgePolicy::Skip));
    assert_eq!(padded.pixels(), add_pixel_padding(&img).pixels());
}

#[test]
fn degenerate_sizes() {
    let empty = PixelBuffer::new(0, 0);
    let out = outline_rgba8(&empty, Background::Alpha, red(), opts(false, true, 3, EdgePolicy::TreatAsBackground));
    assert_eq!((out.width(), out.height()), (0, 0));
    let out = outline_rgba8(&empty, Background::Alpha, red(), opts(true, false, 1, EdgePolicy::Skip));
    assert_eq!((out.width(), out.height()), (2, 2));
    assert!(out.pixels().iter().all(|p| *p == CLEAR));
}

#[test]
fn single_pixel_needs_padding_under_skip() {
    let one = filled(1, 1, BLUE);
    let out = outline_rgba8(&one, Background::Alpha, red(), opts(false, true, 2, EdgePolicy::Skip));
    assert_eq!(out.pixels(), one.pixels());
    let out = outline_rgba8(&one, Background::Alpha, red(), opts(true, false, 1, EdgePolicy::Skip));
    assert_eq!((out.width(), out.height()), (3, 3));
    for y in 0..3 {
        for x in 0..3 {
            assert_eq!(out.get_pixel(x, y), if x == 1 && y == 1 { RED } else { CLEAR });
        }
    }
    let edge = outline_rgba8(&one, Background::Alpha, red(), opts(false, false, 1, EdgePolicy::TreatAsBackground));
    assert_eq!(edge.get_pixel(0, 0), RED);
}

#[test]
fn outlining_twice_keeps_foreground() {
    let img = block(6, 5, CLEAR, BLUE, 1, 1, 5, 4);
    let o = opts(false, false, 1, EdgePolicy::Skip);
    let once = outline_rgba8(&img, Background::Alpha, red(), o);
    let twice = outline_rgba8(&once, Background::Alpha, red(), o);
    assert_eq!(once.pixels(), twice.pixels());
    let wide = opts(false, true, 1, EdgePolicy::Skip);
    let once = outline_rgba8(&img, Background::Alpha, red(), wide);
    let twice = outline_rgba8(&once, Background::Alpha, red(), wide);
    for (a, b) in once.pixels().iter().zip(twice.pixels().iter()) {
        if a.a != 0 {
            assert_eq!(a, b);
        }
    }
}

#[test]
fn input_is_not_mutated() {
    let img = block(4, 4, CLEAR, BLUE, 1, 1, 3, 3);
    let before = img.pixels().clone();
    let _ = outline_rgba8(&img, Background::Alpha, red(), opts(true, true, 2, EdgePolicy::TreatAsBackground));
    assert_eq!(img.pixels(), &before);
}

#[test]
fn edge_check_before_padding() {
    assert!(!touches_edge(&block(4, 4, CLEAR, BLUE, 1, 1, 3, 3), Background::Alpha));
    assert!(touches_edge(&block(4, 4, CLEAR, BLUE, 3, 1, 4, 2), Background::Alpha));
    assert!(touches_edge(&block(4, 4, CLEAR, BLUE, 1, 3, 2, 4), Background::Alpha));
    assert!(!touches_edge(&PixelBuffer::new(0, 0), Background::Alpha));
    assert!(touches_edge(&filled(1, 1, BLUE), Background::Alpha));
    let keyed = block(3, 3, WHITE, BLACK, 1, 1, 2, 2);
    assert!(!touches_edge(&keyed, Background::Color(255, 255, 255)));
    assert!(touches_edge(&keyed, Background::Color(0, 0, 0)));
}
