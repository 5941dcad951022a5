use mangameeya_reborn::decode::{
    bitmap_from_decoded, bitmap_from_scaled, decode, fit_within, resize_lanczos3, Bitmap,
    PageError, PixelLayout,
};

#[test]
fn fit_keeps_small_unchanged() {
    assert_eq!(fit_within(100, 200, 1000, 1000), (100, 200));
}

#[test]
fn fit_scales_down_preserving_aspect() {
    let (w, h) = fit_within(2400, 3400, 1920, 1080);
    // 3400 ratio is tighter: 1080/3400 ≈ 0.3176
    // Expected width ≈ 2400 * 0.3176 ≈ 762
    assert_eq!(h, 1080);
    assert!((760..=764).contains(&w), "got {}", w);
}

#[test]
fn fit_scales_down_landscape() {
    let (w, h) = fit_within(6000, 4000, 1920, 1080);
    assert_eq!(h, 1080);
    assert!((1618..=1622).contains(&w), "got {}", w);
}

#[test]
fn fit_exact_values() {
    assert_eq!(fit_within(2400, 3400, 1920, 1080), (762, 1080));
    assert_eq!(fit_within(6000, 4000, 1920, 1080), (1620, 1080));
    assert_eq!(fit_within(4000, 1000, 1920, 1080), (1920, 480));
    // 3 * 1 / 2 = 1.5 rounds up to 2.
    assert_eq!(fit_within(2, 3, 1, 10), (1, 2));
    // A rounded side of 0 becomes 1.
    assert_eq!(fit_within(1000, 1, 10, 10), (10, 1));
    // A box of width 0 still yields at least one pixel.
    assert_eq!(fit_within(10, 10, 0, 5), (1, 1));
    // An image with no width fits by height.
    assert_eq!(fit_within(0, 50, 10, 20), (1, 20));
    assert_eq!(fit_within(50, 0, 20, 10), (20, 1));
    assert_eq!(fit_within(0, 0, 0, 0), (0, 0));
    assert_eq!(fit_within(1920, 1080, 1920, 1080), (1920, 1080));
    // Exact half-up rounding of 45 * 7 / 10 = 31.5.
    assert_eq!(fit_within(10, 45, 7, 32), (7, 32));
}

#[test]
fn fit_is_monotone_in_the_box() {
    let boxes = [(1u32, 1u32), (7, 32), (100, 100), (1080, 1920), (1920, 1080), (5000, 5000)];
    for &(sw, sh) in &[(2400u32, 3400u32), (6000, 4000), (10, 45), (3, 2)] {
        for &(a1, b1) in &boxes {
            for &(a2, b2) in &boxes {
                if a1 <= a2 && b1 <= b2 {
                    let (w1, h1) = fit_within(sw, sh, a1, b1);
                    let (w2, h2) = fit_within(sw, sh, a2, b2);
                    assert!(w1 <= w2 && h1 <= h2);
                }
            }
        }
    }
}

#[test]
fn fit_laws_on_examples() {
    for &(sw, sh) in &[(2400u32, 3400u32), (6000, 4000), (1, 1000), (999, 7), (3, 2)] {
        for &(mw, mh) in &[(1920u32, 1080u32), (100, 100), (1, 1), (5000, 2)] {
            let (w, h) = fit_within(sw, sh, mw, mh);
            assert!(w <= mw && h <= mh);
            assert!(w <= sw && h <= sh);
        }
    }
}

fn rgba(width: u32, height: u32, fill: u8) -> Bitmap {
    Bitmap {
        width,
        height,
        layout: PixelLayout::Rgba8,
        pixels: vec![fill; (width * height * 4) as usize],
    }
}

#[test]
fn resize_returns_fitting_page_unchanged() {
    let img = rgba(4, 3, 7);
    let out = resize_lanczos3(&img, 10, 10).expect("fits");
    assert_eq!(out.width, 4);
    assert_eq!(out.height, 3);
    assert_eq!(out.layout, PixelLayout::Rgba8);
    assert_eq!(out.pixels, img.pixels);
}

#[test]
fn resize_scales_to_fitted_size_as_rgb() {
    let img = rgba(40, 20, 200);
    let out = resize_lanczos3(&img, 10, 10).expect("resizes");
    assert_eq!((out.width, out.height), (10, 5));
    assert_eq!(out.layout, PixelLayout::Rgb8);
    assert_eq!(out.pixels.len(), 10 * 5 * 3);
    // A flat colour stays flat, and the alpha channel is gone.
    assert!(out.pixels.iter().all(|&p| p == 200));
}

#[test]
fn resize_scales_tall_pages_and_is_repeatable() {
    let mut img = rgba(6, 12, 0);
    for (k, p) in img.pixels.iter_mut().enumerate() {
        *p = (k * 7 % 251) as u8;
    }
    let a = resize_lanczos3(&img, 100, 4).expect("resizes");
    let b = resize_lanczos3(&img, 100, 4).expect("resizes");
    assert_eq!((a.width, a.height), (2, 4));
    assert_eq!(a.layout, PixelLayout::Rgb8);
    assert_eq!(a.pixels, b.pixels);
    // Scaling a zero-width page gives a page of the fitted size too.
    let empty = Bitmap { width: 0, height: 9, layout: PixelLayout::Rgb8, pixels: vec![] };
    let out = resize_lanczos3(&empty, 5, 3).expect("resizes");
    assert_eq!((out.width, out.height, out.pixels.len()), (1, 3, 9));
}

#[test]
fn decode_rejects_non_images() {
    match decode(b"definitely not an image") {
        Err(PageError::Decode(_)) => {}
        other => panic!("unexpected: {:?}", other.map(|b| (b.width, b.height))),
    }
    assert!(matches!(decode(&[]), Err(PageError::Decode(_))));
    // A TIFF signature names a format the decoder is not built with.
    assert!(matches!(decode(b"II*\x00\x08\x00\x00\x00"), Err(PageError::Decode(_))));
}

#[test]
fn decode_reads_a_bitmap_file() {
    // A 2 x 1 24-bit BMP: blue pixel then red pixel (stored as BGR).
    let mut bmp: Vec<u8> = Vec::new();
    bmp.extend_from_slice(b"BM");
    bmp.extend_from_slice(&(62u32).to_le_bytes());
    bmp.extend_from_slice(&[0, 0, 0, 0]);
    bmp.extend_from_slice(&(54u32).to_le_bytes());
    bmp.extend_from_slice(&(40u32).to_le_bytes());
    bmp.extend_from_slice(&(2i32).to_le_bytes());
    bmp.extend_from_slice(&(1i32).to_le_bytes());
    bmp.extend_from_slice(&(1u16).to_le_bytes());
    bmp.extend_from_slice(&(24u16).to_le_bytes());
    bmp.extend_from_slice(&(0u32).to_le_bytes());
    bmp.extend_from_slice(&(8u32).to_le_bytes());
    bmp.extend_from_slice(&[0; 16]);
    bmp.extend_from_slice(&[255, 0, 0, 0, 0, 255, 0, 0]);
    let img = decode(&bmp).expect("decodes");
    assert_eq!((img.width, img.height), (2, 1));
    assert_eq!(img.layout, PixelLayout::Rgba8);
    assert_eq!(img.pixels, vec![0, 0, 255, 255, 255, 0, 0, 255]);
}

#[test]
fn bitmap_from_decoded_cuts_to_size_and_maps_errors() {
    let b = bitmap_from_decoded(Ok((1, 1, vec![1, 2, 3, 4, 5, 6]))).expect("ok");
    assert_eq!((b.width, b.height, b.layout), (1, 1, PixelLayout::Rgba8));
    assert_eq!(b.pixels, vec![1, 2, 3, 4]);
    match bitmap_from_decoded(Err("bad".to_string())) {
        Err(PageError::Decode(m)) => assert_eq!(m, "bad"),
        _ => panic!("expected a decode error"),
    }
}

#[test]
fn bitmap_from_scaled_builds_rgb_or_maps_errors() {
    let b = bitmap_from_scaled(1, 2, Ok(vec![9, 8, 7, 6, 5, 4])).expect("ok");
    assert_eq!((b.width, b.height, b.layout), (1, 2, PixelLayout::Rgb8));
    assert_eq!(b.pixels, vec![9, 8, 7, 6, 5, 4]);
    match bitmap_from_scaled(1, 1, Err("no".to_string())) {
        Err(PageError::Resize(m)) => assert_eq!(m, "no"),
        _ => panic!("expected a resize error"),
    }
}

#[test]
fn rgb_bytes_drop_alpha() {
    let img = Bitmap {
        width: 2,
        height: 1,
        layout: PixelLayout::Rgba8,
        pixels: vec![1, 2, 3, 4, 5, 6, 7, 8],
    };
    assert_eq!(img.to_rgb_bytes(), vec![1, 2, 3, 5, 6, 7]);
    let copy = img.duplicate();
    assert_eq!((copy.width, copy.height, copy.layout), (2, 1, PixelLayout::Rgba8));
    assert_eq!(copy.pixels, img.pixels);
}
