use mangameeya_reborn::decode::{Bitmap, PixelLayout};
use mangameeya_reborn::reader::{compose_frame, navigate, NavAction, NavKey, BACKGROUND};

#[test]
fn navigate_turns_pages_right_to_left() {
    assert_eq!(navigate(0, 5, NavKey::Next), NavAction::Show(1));
    assert_eq!(navigate(3, 5, NavKey::Previous), NavAction::Show(2));
    assert_eq!(navigate(3, 5, NavKey::First), NavAction::Show(0));
    assert_eq!(navigate(1, 5, NavKey::Last), NavAction::Show(4));
    assert_eq!(navigate(2, 5, NavKey::Quit), NavAction::Quit);
    assert_eq!(navigate(2, 5, NavKey::Other), NavAction::Stay);
}

#[test]
fn navigate_stops_at_the_ends() {
    assert_eq!(navigate(4, 5, NavKey::Next), NavAction::Stay);
    assert_eq!(navigate(0, 5, NavKey::Previous), NavAction::Stay);
    assert_eq!(navigate(0, 5, NavKey::First), NavAction::Stay);
    assert_eq!(navigate(4, 5, NavKey::Last), NavAction::Stay);
}

#[test]
fn navigate_ignores_keys_without_pages() {
    assert_eq!(navigate(0, 0, NavKey::Next), NavAction::Stay);
    assert_eq!(navigate(0, 0, NavKey::Last), NavAction::Stay);
}

#[test]
fn navigate_quits_with_or_without_pages() {
    assert_eq!(navigate(0, 0, NavKey::Quit), NavAction::Quit);
    assert_eq!(navigate(3, 7, NavKey::Quit), NavAction::Quit);
}

#[test]
fn navigate_next_then_previous_returns() {
    for count in 2..6usize {
        for page in 0..count - 1 {
            assert_eq!(navigate(page, count, NavKey::Next), NavAction::Show(page + 1));
            assert_eq!(navigate(page + 1, count, NavKey::Previous), NavAction::Show(page));
        }
    }
}

#[test]
fn compose_frame_centres_the_page() {
    // A 2 x 1 RGBA page in a 4 x 3 window: margins of 1 column and 1 row.
    let img = Bitmap {
        width: 2,
        height: 1,
        layout: PixelLayout::Rgba8,
        pixels: vec![0x11, 0x22, 0x33, 0xff, 0x44, 0x55, 0x66, 0x00],
    };
    let frame = compose_frame(&img, 4, 3);
    let bg = BACKGROUND;
    assert_eq!(
        frame,
        vec![
            bg, bg, bg, bg, //
            bg, 0x0011_2233, 0x0044_5566, bg, //
            bg, bg, bg, bg,
        ]
    );
}

#[test]
fn compose_frame_clips_large_pages() {
    // A 3 x 2 RGB page in a 2 x 1 window shows its top-left corner.
    let img = Bitmap {
        width: 3,
        height: 2,
        layout: PixelLayout::Rgb8,
        pixels: vec![1, 2, 3, 4, 5, 6, 7, 8, 9, 10, 11, 12, 13, 14, 15, 16, 17, 18],
    };
    let frame = compose_frame(&img, 2, 1);
    assert_eq!(frame, vec![0x0001_0203, 0x0004_0506]);
}

#[test]
fn compose_frame_of_empty_window_is_empty() {
    let img = Bitmap { width: 1, height: 1, layout: PixelLayout::Rgb8, pixels: vec![9, 9, 9] };
    assert!(compose_frame(&img, 0, 10).is_empty());
}
