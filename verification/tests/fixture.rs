use mangameeya_reborn::archive::ZipPageSource;
use mangameeya_reborn::decode::{decode, PageError, PixelLayout};
use mangameeya_reborn::fixture::{
    add_noise, fixture_plan, noisy_page_jpeg, EXTREME_H, EXTREME_W, NORMAL_H, NORMAL_W,
};

/// The reference XorShift32 sequence, written out independently.
fn reference_noise(seed: u32, pixels: usize) -> Vec<u8> {
    let mut rng = seed.max(1).wrapping_mul(2_654_435_761);
    let mut out = Vec::new();
    for _ in 0..pixels {
        rng ^= rng << 13;
        rng ^= rng >> 17;
        rng ^= rng << 5;
        out.push((rng & 0x1f) as u8);
    }
    out
}

#[test]
fn add_noise_matches_xorshift_and_offsets() {
    let seed = 0x0003_0201u32;
    let base: Vec<u8> = (0..30u8).collect();
    let out = add_noise(seed, &base);
    let noise = reference_noise(seed, 10);
    assert_eq!(out.len(), 30);
    for p in 0..10 {
        assert_eq!(out[3 * p], base[3 * p].wrapping_add(1).wrapping_add(noise[p]));
        assert_eq!(out[3 * p + 1], base[3 * p + 1].wrapping_add(2).wrapping_add(noise[p]));
        assert_eq!(out[3 * p + 2], base[3 * p + 2].wrapping_add(3).wrapping_add(noise[p]));
    }
}

#[test]
fn add_noise_treats_seed_zero_as_one() {
    let base = vec![250u8; 12];
    assert_eq!(add_noise(0, &base), add_noise(1, &base));
}

#[test]
fn add_noise_is_deterministic_and_seed_dependent() {
    let base = vec![100u8; 300];
    assert_eq!(add_noise(42, &base), add_noise(42, &base));
    assert_ne!(add_noise(1, &base), add_noise(2, &base));
}

#[test]
fn noisy_page_jpeg_encodes_and_decodes() {
    let (w, h) = (16u32, 8u32);
    let base = vec![128u8; (w * h * 3) as usize];
    let bytes = noisy_page_jpeg(7, w, h, &base).expect("encodes");
    assert_eq!(&bytes[..4], &[0xff, 0xd8, 0xff, 0xe0]);
    assert_eq!(&bytes[bytes.len() - 2..], &[0xff, 0xd9]);
    assert_eq!(noisy_page_jpeg(7, w, h, &base).unwrap(), bytes);
    let img = decode(&bytes).expect("decodes");
    assert_eq!((img.width, img.height), (w, h));
    assert_eq!(img.layout, PixelLayout::Rgba8);
}

#[test]
fn noisy_page_jpeg_rejects_empty_and_oversized_pages() {
    assert!(matches!(noisy_page_jpeg(1, 0, 4, &[]), Err(PageError::Encode(_))));
    let base = vec![0u8; 65536 * 3];
    assert!(matches!(noisy_page_jpeg(1, 65536, 1, &base), Err(PageError::Encode(_))));
}

#[test]
fn fixture_plan_lists_normal_then_extreme_pages() {
    let plan = fixture_plan(2, 1);
    assert_eq!(plan.len(), 3);
    assert_eq!(plan[0].name, "page_0001.jpg");
    assert_eq!(plan[1].name, "page_0002.jpg");
    assert_eq!(plan[2].name, "page_0003.jpg");
    assert_eq!((plan[0].seed, plan[1].seed, plan[2].seed), (1, 2, 3));
    assert_eq!((plan[0].width, plan[0].height), (NORMAL_W, NORMAL_H));
    assert_eq!((plan[1].width, plan[1].height), (NORMAL_W, NORMAL_H));
    assert_eq!((plan[2].width, plan[2].height), (EXTREME_W, EXTREME_H));
}

#[test]
fn fixture_plan_pads_to_four_digits_and_grows_beyond() {
    let plan = fixture_plan(10_001, 0);
    assert_eq!(plan[9].name, "page_0010.jpg");
    assert_eq!(plan[999].name, "page_1000.jpg");
    assert_eq!(plan[10_000].name, "page_10001.jpg");
    assert!(fixture_plan(0, 0).is_empty());
}

#[test]
fn generated_fixture_opens_in_plan_order() {
    let plan = fixture_plan(220, 30);
    // The archive lists entries in any order; reverse it to be sure.
    let names: Vec<String> = plan.iter().rev().map(|p| p.name.clone()).collect();
    let pages = ZipPageSource::from_names(names);
    assert_eq!(pages.page_count(), plan.len());
    for (i, page) in plan.iter().enumerate() {
        assert_eq!(pages.entry_name(i), page.name);
    }
}

/// A synthetic page as the benchmark tools build it: the colour gradient,
/// then the library's noise and JPEG encoding.
fn synthesize_page(seed: u32, w: u32, h: u32) -> Vec<u8> {
    let mut base: Vec<u8> = Vec::with_capacity((w as usize) * (h as usize) * 3);
    for y in 0..h {
        for x in 0..w {
            let nx = x as f32 / w as f32;
            let ny = y as f32 / h as f32;
            base.push((nx * 255.0) as u8);
            base.push((ny * 255.0) as u8);
            base.push(((nx + ny) * 127.0) as u8);
        }
    }
    noisy_page_jpeg(seed, w, h, &base).expect("synthesised RGB buffer is always JPEG-encodable")
}

#[test]
fn synth_is_deterministic() {
    let a = synthesize_page(42, 100, 100);
    let b = synthesize_page(42, 100, 100);
    assert_eq!(a, b);
}

#[test]
fn synth_differs_by_seed() {
    let a = synthesize_page(1, 100, 100);
    let b = synthesize_page(2, 100, 100);
    assert_ne!(a, b);
}

#[test]
fn synth_is_valid_jpeg() {
    let bytes = synthesize_page(1, 64, 64);
    decode(&bytes).expect("decodes");
}
