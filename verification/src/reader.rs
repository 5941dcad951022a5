//! Decisions of the page viewer: which page a key press shows, and how a
//! fitted page is laid out in the window's frame buffer.

use vstd::prelude::*;
use crate::decode::{channels, Bitmap};

verus! {

// ---------------------------------------------------------------------------
// Page navigation (right-to-left reading)
// ---------------------------------------------------------------------------

/// What a key press asks of the viewer. Reading is right to left: the left
/// arrow and space go to the next page, the right arrow to the previous one.
#[derive(Clone, Copy, Debug, PartialEq, Eq, Structural)]
pub enum NavKey {
    Next,
    Previous,
    First,
    Last,
    Quit,
    Other,
}

/// What the viewer does in answer.
#[derive(Clone, Copy, Debug, PartialEq, Eq, Structural)]
pub enum NavAction {
    /// Nothing changes.
    Stay,
    /// Load and show this page.
    Show(usize),
    /// Close the viewer.
    Quit,
}

/// Go to page `target` unless it is already shown.
pub open spec fn go_to(current: int, target: int) -> NavAction {
    if target == current {
        NavAction::Stay
    } else {
        NavAction::Show(target as usize)
    }
}

/// The answer to `key` while page `current` of `page_count` is shown. The
/// quit key always quits; with no pages every other key is ignored.
pub open spec fn nav_answer(current: int, page_count: int, key: NavKey) -> NavAction {
    if key == NavKey::Quit {
        NavAction::Quit
    } else if page_count == 0 {
        NavAction::Stay
    } else {
        match key {
            NavKey::Next => go_to(
                current,
                if current + 1 < page_count - 1 {
                    current + 1
                } else {
                    page_count - 1
                },
            ),
            NavKey::Previous => if current == 0 {
                NavAction::Stay
            } else {
                go_to(current, current - 1)
            },
            NavKey::First => go_to(current, 0),
            NavKey::Last => go_to(current, page_count - 1),
            NavKey::Quit => NavAction::Quit,
            NavKey::Other => NavAction::Stay,
        }
    }
}

/// Decides what a key press does.
pub fn navigate(current: usize, page_count: usize, key: NavKey) -> (a: NavAction)
    ensures
        a == nav_answer(current as int, page_count as int, key),
{
    if key == NavKey::Quit {
        return NavAction::Quit;
    }
    if page_count == 0 {
        return NavAction::Stay;
    }
    let target = match key {
        NavKey::Next => {
            if current < page_count - 1 {
                Some(current + 1)
            } else {
                Some(page_count - 1)
            }
        },
        NavKey::Previous => current.checked_sub(1),
        NavKey::First => Some(0),
        NavKey::Last => Some(page_count - 1),
        NavKey::Quit => {
            return NavAction::Quit;
        },
        NavKey::Other => None,
    };
    match target {
        Some(idx) => {
            if idx != current {
                NavAction::Show(idx)
            } else {
                NavAction::Stay
            }
        },
        None => NavAction::Stay,
    }
}

/// Navigation never leaves the book: a page it shows exists.
pub proof fn lemma_navigate_stays_in_book(current: usize, page_count: usize, key: NavKey)
    requires
        current < page_count,
    ensures
        nav_answer(current as int, page_count as int, key) matches NavAction::Show(p) ==> p
            < page_count,
{
}

/// Away from the last page, turning to the next page and then back to the
/// previous one returns to the page one started from.
pub proof fn lemma_next_then_previous(current: usize, page_count: usize)
    requires
        current + 1 < page_count,
    ensures
        nav_answer(current as int, page_count as int, NavKey::Next) == NavAction::Show(
            (current + 1) as usize,
        ),
        nav_answer(current + 1, page_count as int, NavKey::Previous) == NavAction::Show(current),
{
}

/// The quit key quits whatever page is shown, and also when there are no
/// pages at all.
pub proof fn lemma_quit_always_quits(current: usize, page_count: usize)
    ensures
        nav_answer(current as int, page_count as int, NavKey::Quit) == NavAction::Quit,
{
}

/// The jump keys go straight to the ends of the book: from any other page,
/// the first-page key shows page 0 and the last-page key shows the last page.
pub proof fn lemma_jumps_reach_the_ends(current: usize, page_count: usize)
    requires
        current < page_count,
    ensures
        current > 0 ==> nav_answer(current as int, page_count as int, NavKey::First)
            == NavAction::Show(0),
        current + 1 < page_count ==> nav_answer(current as int, page_count as int, NavKey::Last)
            == NavAction::Show((page_count - 1) as usize),
{
}

/// The page keys move one page at a time: away from the ends, the next-page
/// key shows the following page and the previous-page key the one before.
pub proof fn lemma_steps_are_single_pages(current: usize, page_count: usize)
    requires
        current < page_count,
    ensures
        current + 1 < page_count ==> nav_answer(current as int, page_count as int, NavKey::Next)
            == NavAction::Show((current + 1) as usize),
        current > 0 ==> nav_answer(current as int, page_count as int, NavKey::Previous)
            == NavAction::Show((current - 1) as usize),
        nav_answer(current as int, page_count as int, NavKey::Other) == NavAction::Stay,
{
}

/// At the ends of the book the keys that would leave it change nothing.
pub proof fn lemma_ends_are_sticky(page_count: usize)
    requires
        page_count >= 1,
    ensures
        nav_answer(0, page_count as int, NavKey::Previous) == NavAction::Stay,
        nav_answer(0, page_count as int, NavKey::First) == NavAction::Stay,
        nav_answer(page_count - 1, page_count as int, NavKey::Next) == NavAction::Stay,
        nav_answer(page_count - 1, page_count as int, NavKey::Last) == NavAction::Stay,
{
}

// ---------------------------------------------------------------------------
// Frame composition
// ---------------------------------------------------------------------------

/// Colour of the window around the page, `0x00RRGGBB`.
pub const BACKGROUND: u32 = 0x000d_0d0d;

/// A colour in the frame buffer's `0x00RRGGBB` form.
pub open spec fn packed(r: u8, g: u8, b: u8) -> int {
    (r as int) * 65536 + (g as int) * 256 + (b as int)
}

/// Margin that centres a length `inner` inside `outer` (0 when it does not fit).
pub open spec fn margin(outer: int, inner: int) -> int {
    if outer > inner {
        (outer - inner) / 2
    } else {
        0
    }
}

/// Colour of window position `(x, y)` when `img` is centred in a
/// `win_w × win_h` window: the page's pixel there, or the background.
pub open spec fn frame_pixel(img: Bitmap, win_w: int, win_h: int, x: int, y: int) -> int {
    let ix = x - margin(win_w, img.width as int);
    let iy = y - margin(win_h, img.height as int);
    if 0 <= ix < img.width && 0 <= iy < img.height {
        let s = (iy * img.width + ix) * channels(img.layout);
        packed(img.pixels@[s], img.pixels@[s + 1], img.pixels@[s + 2])
    } else {
        BACKGROUND as int
    }
}

/// A page that fits the window is centred in it: page pixel `(ix, iy)`
/// lands at window column `(win_w - width) / 2 + ix` and row
/// `(win_h - height) / 2 + iy`, the horizontal margin coming from the widths
/// and the vertical one from the heights; a page as tall as the window
/// starts at row 0.
pub proof fn lemma_fitting_page_is_centred(img: Bitmap, win_w: int, win_h: int, ix: int, iy: int)
    requires
        img.width <= win_w,
        img.height <= win_h,
        0 <= ix < img.width,
        0 <= iy < img.height,
    ensures
        ({
            let s = (iy * img.width + ix) * channels(img.layout);
            frame_pixel(img, win_w, win_h, (win_w - img.width) / 2 + ix, (win_h - img.height) / 2 + iy)
                == (img.pixels@[s] as int) * 65536 + (img.pixels@[s + 1] as int) * 256 + (
            img.pixels@[s + 2] as int)
        }),
{
}

/// Around a page that fits the window only the background shows: every
/// window position left of or above the page's top-left corner, or right of
/// or below its far corner, has the background colour.
pub proof fn lemma_fitting_page_margins_are_background(
    img: Bitmap,
    win_w: int,
    win_h: int,
    x: int,
    y: int,
)
    requires
        img.width <= win_w,
        img.height <= win_h,
        x < (win_w - img.width) / 2 || x >= (win_w - img.width) / 2 + img.width || y < (win_h
            - img.height) / 2 || y >= (win_h - img.height) / 2 + img.height,
    ensures
        frame_pixel(img, win_w, win_h, x, y) == 0x000d_0d0d,
{
}

/// A page larger than the window is cut, not moved: where a side does not
/// fit, the page starts at the window's edge on that side.
pub proof fn lemma_oversized_page_starts_at_the_edge(img: Bitmap, win_w: int, win_h: int)
    requires
        img.width >= win_w,
        img.height >= win_h,
        img.width >= 1,
        img.height >= 1,
    ensures
        frame_pixel(img, win_w, win_h, 0, 0) == (img.pixels@[0] as int) * 65536 + (
        img.pixels@[1] as int) * 256 + (img.pixels@[2] as int),
{
    assert((0 * img.width + 0) * channels(img.layout) == 0);
}

proof fn lemma_pixel_in_buffer(ix: int, iy: int, w: int, h: int, ch: int)
    requires
        0 <= ix < w,
        0 <= iy < h,
        3 <= ch,
    ensures
        0 <= (iy * w + ix) * ch,
        (iy * w + ix) * ch + 2 < w * h * ch,
{
    assert(0 <= iy * w + ix < w * h) by (nonlinear_arith)
        requires
            0 <= ix < w,
            0 <= iy < h,
    ;
    assert(0 <= (iy * w + ix) * ch && (iy * w + ix) * ch + 2 < w * h * ch) by (nonlinear_arith)
        requires
            0 <= iy * w + ix < w * h,
            3 <= ch,
    ;
}

/// Draws `img` centred in a `win_w × win_h` window on the background: the
/// frame buffer, row by row, one `0x00RRGGBB` word per window pixel. Parts
/// of the page outside the window are cut off.
pub fn compose_frame(img: &Bitmap, win_w: u32, win_h: u32) -> (frame: Vec<u32>)
    requires
        img.wf(),
        (win_w as int) * (win_h as int) <= usize::MAX,
        win_w <= i32::MAX,
        win_h <= i32::MAX,
        img.width <= i32::MAX,
        img.height <= i32::MAX,
    ensures
        frame.len() == (win_w as int) * (win_h as int),
        forall|k: int|
            0 <= k < frame.len() ==> #[trigger] frame@[k] as int == frame_pixel(
                *img,
                win_w as int,
                win_h as int,
                k % (win_w as int),
                k / (win_w as int),
            ),
{
    let n = (win_w as usize) * (win_h as usize);
    let iw = img.width;
    let ih = img.height;
    let ch: usize = match img.layout {
        crate::decode::PixelLayout::Rgb8 => 3,
        crate::decode::PixelLayout::Rgba8 => 4,
    };
    let pad_x = if win_w > iw {
        (win_w - iw) / 2
    } else {
        0
    };
    let pad_y = if win_h > ih {
        (win_h - ih) / 2
    } else {
        0
    };
    let mut frame: Vec<u32> = Vec::with_capacity(n);
    for k in 0..n
        invariant
            img.wf(),
            n == (win_w as int) * (win_h as int),
            win_w > 0 || n == 0,
            iw == img.width,
            ih == img.height,
            ch == channels(img.layout),
            pad_x == margin(win_w as int, iw as int),
            pad_y == margin(win_h as int, ih as int),
            frame.len() == k,
            forall|m: int|
                0 <= m < k ==> #[trigger] frame@[m] as int == frame_pixel(
                    *img,
                    win_w as int,
                    win_h as int,
                    m % (win_w as int),
                    m / (win_w as int),
                ),
    {
        proof {
            assert((k as int) / (win_w as int) < win_h && (k as int) % (win_w as int) < win_w)
                by (nonlinear_arith)
                requires
                    0 <= k < (win_w as int) * (win_h as int),
                    win_w > 0,
            {
                vstd::arithmetic::div_mod::lemma_fundamental_div_mod(k as int, win_w as int);
            }
        }
        let x = (k % (win_w as usize)) as u32;
        let y = (k / (win_w as usize)) as u32;
        let mut px: u32 = BACKGROUND;
        if x >= pad_x && y >= pad_y && x - pad_x < iw && y - pad_y < ih {
            let ix = (x - pad_x) as usize;
            let iy = (y - pad_y) as usize;
            proof {
                lemma_pixel_in_buffer(ix as int, iy as int, iw as int, ih as int, ch as int);
            }
            let s = (iy * (iw as usize) + ix) * ch;
            let r = img.pixels[s] as u32;
            let g = img.pixels[s + 1] as u32;
            let b = img.pixels[s + 2] as u32;
            px = (r << 16) | (g << 8) | b;
            assert(px == r * 65536 + g * 256 + b) by (bit_vector)
                requires
                    r < 256,
                    g < 256,
                    b < 256,
                    px == (r << 16) | (g << 8) | b,
            ;
        }
        frame.push(px);
    }
    frame
}

} // verus!
