use pixl::images::{Image, Pixl};

fn grid(img: Image) -> Vec<Pixl> {
    img.pixels()
}

#[test]
fn invert_involution_on_samples() {
    let samples: [(u8, u8, u8); 5] = [(0, 0, 0), (255, 255, 255), (10, 20, 30), (0, 255, 7), (128, 128, 128)];
    for (r, g, b) in samples {
        let original = Pixl::new(r, g, b);
        let mut p = Pixl::new(r, g, b);
        p.invert();
        p.invert();
        assert!(p == original);
    }
}

#[test]
fn invert_once() {
    let mut p = Pixl::new(10, 20, 30);
    p.invert();
    assert!(p == Pixl::new(245, 235, 225));
}

#[test]
fn named_pixels() {
    assert!(Pixl::black() == Pixl::new(0, 0, 0));
    assert!(Pixl::red() == Pixl::new(255, 0, 0));
}

#[test]
fn blank_canvas_is_all_white() {
    let img = Image::new(4, 3);
    assert_eq!(img.width(), 4);
    assert_eq!(img.height(), 3);
    let white = Pixl::new(255, 255, 255);
    for y in 0..3 {
        for x in 0..4 {
            assert!(img.get_pixel(x, y) == white);
        }
    }
}

#[test]
fn blank_canvas_zero_dimension() {
    let img = Image::new(0, 7);
    assert_eq!(img.width(), 0);
    assert_eq!(img.height(), 7);
    assert_eq!(grid(img).len(), 0);
}

#[test]
fn put_pixel_in_bounds() {
    let mut img = Image::new(3, 3);
    img.put_pixel(1, 2, Pixl::new(9, 8, 7));
    assert!(img.get_pixel(1, 2) == Pixl::new(9, 8, 7));
    assert!(img.get_pixel(2, 1) == Pixl::new(255, 255, 255));
}

#[test]
fn put_pixel_out_of_bounds_is_noop() {
    let mut img = Image::new(3, 2);
    let before = grid(img.clone());
    img.put_pixel(3, 0, Pixl::black());
    img.put_pixel(0, 2, Pixl::black());
    img.put_pixel(u32::MAX, u32::MAX, Pixl::black());
    let after = grid(img);
    assert_eq!(before.len(), after.len());
    for i in 0..before.len() {
        assert!(before[i] == after[i]);
    }
}

#[test]
fn pixels_row_major_order() {
    let mut img = Image::new(2, 2);
    img.put_pixel(0, 0, Pixl::new(1, 0, 0));
    img.put_pixel(1, 0, Pixl::new(2, 0, 0));
    img.put_pixel(0, 1, Pixl::new(3, 0, 0));
    img.put_pixel(1, 1, Pixl::new(4, 0, 0));
    let v = grid(img);
    assert_eq!(v.len(), 4);
    assert!(v[0] == Pixl::new(1, 0, 0));
    assert!(v[1] == Pixl::new(2, 0, 0));
    assert!(v[2] == Pixl::new(3, 0, 0));
    assert!(v[3] == Pixl::new(4, 0, 0));
}

#[test]
fn fill_circle_radius_zero_draws_nothing() {
    let mut img = Image::new(5, 5);
    img.fill_circle(2, 2, 0, Pixl::black());
    let white = Pixl::new(255, 255, 255);
    for p in grid(img) {
        assert!(p == white);
    }
}

#[test]
fn fill_circle_radius_one_draws_quad() {
    // the clipped box [cx-1, cx+1) x [cy-1, cy+1) holds four cells, and
    // all four lie within truncated distance 1 of the center: the
    // diagonal's sqrt(2) truncates to 1.
    let mut img = Image::new(5, 5);
    img.fill_circle(2, 2, 1, Pixl::black());
    let v = grid(img);
    let black = Pixl::black();
    let white = Pixl::new(255, 255, 255);
    for y in 0u32..5 {
        for x in 0u32..5 {
            let expect_black = (x == 1 || x == 2) && (y == 1 || y == 2);
            let got = v[(y * 5 + x) as usize];
            assert!(got == if expect_black { black } else { white });
        }
    }
}

#[test]
fn fill_circle_clips_at_edges() {
    let mut img = Image::new(3, 3);
    img.fill_circle(0, 0, 2, Pixl::new(1, 2, 3));
    // box is [0, 2) x [0, 2); all four cells lie within distance 2
    let v = grid(img);
    let c = Pixl::new(1, 2, 3);
    let white = Pixl::new(255, 255, 255);
    assert!(v[0] == c && v[1] == c && v[3] == c && v[4] == c);
    assert!(v[2] == white && v[5] == white);
    for i in 6..9 {
        assert!(v[i] == white);
    }
}

#[test]
fn fill_then_clear_matches_fresh_blank() {
    let mut img = Image::new(6, 4);
    img.fill_circle(3, 2, 2, Pixl::red());
    img.clear();
    let fresh = Image::new(6, 4);
    let a = grid(img);
    let b = grid(fresh);
    assert_eq!(a.len(), b.len());
    for i in 0..a.len() {
        assert!(a[i] == b[i]);
    }
}

#[test]
fn composite_at_origin_reproduces_source() {
    let mut src = Image::new(3, 2);
    src.put_pixel(0, 0, Pixl::new(1, 1, 1));
    src.put_pixel(2, 1, Pixl::new(2, 2, 2));
    let mut dst = Image::new(3, 2);
    dst.add_image(0, 0, &src);
    for y in 0..2 {
        for x in 0..3 {
            assert!(dst.get_pixel(x, y) == src.get_pixel(x, y));
        }
    }
}

#[test]
fn composite_with_offset_clips() {
    let mut src = Image::new(2, 2);
    src.put_pixel(0, 0, Pixl::new(5, 5, 5));
    src.put_pixel(1, 1, Pixl::new(6, 6, 6));
    let mut dst = Image::new(3, 3);
    dst.add_image(2, 2, &src);
    assert!(dst.get_pixel(2, 2) == Pixl::new(5, 5, 5));
    // the source pixel at (1,1) falls outside and clips away
    let white = Pixl::new(255, 255, 255);
    for y in 0..3 {
        for x in 0..3 {
            if !(x == 2 && y == 2) {
                assert!(dst.get_pixel(x, y) == white);
            }
        }
    }
}

#[test]
fn recolor_by_red_key() {
    let mut img = Image::new(2, 1);
    img.put_pixel(0, 0, Pixl::new(0, 99, 5));
    img.put_pixel(1, 0, Pixl::new(1, 0, 0));
    img.set_color(&[10, 20, 30]);
    assert!(img.get_pixel(0, 0) == Pixl::new(10, 20, 30));
    assert!(img.get_pixel(1, 0) == Pixl::new(1, 0, 0));
}

#[test]
fn recolor_keys_on_red_channel_alone() {
    let mut img = Image::new(3, 1);
    img.put_pixel(0, 0, Pixl::black());
    img.put_pixel(1, 0, Pixl::new(0, 255, 255));
    img.put_pixel(2, 0, Pixl::new(255, 0, 0));
    img.set_color(&[7, 7, 7]);
    assert!(img.get_pixel(0, 0) == Pixl::new(7, 7, 7));
    assert!(img.get_pixel(1, 0) == Pixl::new(7, 7, 7));
    assert!(img.get_pixel(2, 0) == Pixl::new(255, 0, 0));
}

#[test]
fn png_round_trip() {
    let mut img = Image::new(4, 3);
    img.put_pixel(0, 0, Pixl::new(12, 34, 56));
    img.put_pixel(3, 2, Pixl::new(200, 100, 50));
    img.fill_circle(1, 1, 1, Pixl::red());
    let encoded = img.clone().as_png().expect("encoding a small canvas succeeds");
    let decoded = Image::from_png(encoded).expect("decoding what was just encoded succeeds");
    assert_eq!(decoded.width(), 4);
    assert_eq!(decoded.height(), 3);
    let a = grid(img);
    let b = grid(decoded);
    assert_eq!(a.len(), b.len());
    for i in 0..a.len() {
        assert!(a[i] == b[i]);
    }
}

#[test]
fn decode_garbage_returns_none() {
    let garbage = vec![0u8, 1, 2, 3, 4, 5, 6, 7];
    assert!(Image::from_png(garbage).is_none());
    assert!(Image::from_png(Vec::new()).is_none());
}

#[test]
fn encode_produces_png_bytes() {
    let img = Image::new(2, 2);
    let encoded = img.as_png().expect("encoding succeeds");
    // PNG signature: the encoder really encoded, rather than handing
    // the raw buffer back
    assert!(encoded.len() > 8);
    assert_eq!(&encoded[0..8], &[0x89, b'P', b'N', b'G', 0x0D, 0x0A, 0x1A, 0x0A]);
}
