//! Page pixels: decoding archive entries into bitmaps and Lanczos3 scaling
//! of a bitmap to fit a display box.

use vstd::prelude::*;
use fast_image_resize::images::{Image, ImageRef};
use fast_image_resize::{FilterType, PixelType, ResizeAlg, ResizeOptions, Resizer};
use image::ImageReader;
use std::io::Cursor;

verus! {

// ---------------------------------------------------------------------------
// Fit-to-box geometry
// ---------------------------------------------------------------------------

/// `n / d` rounded to the nearest integer, halves rounded up.
pub open spec fn round_div(n: int, d: int) -> int {
    (2 * n + d) / (2 * d)
}

/// `v`, raised to 1 when it is 0.
pub open spec fn at_least_one(v: int) -> int {
    if v < 1 {
        1
    } else {
        v
    }
}

/// Whether the width bound is the tighter one when a `sw × sh` image is
/// scaled into a `max_w × max_h` box (`max_w / sw <= max_h / sh`).
pub open spec fn width_bound_tighter(sw: int, sh: int, max_w: int, max_h: int) -> bool {
    sw > 0 && max_w * sh <= max_h * sw
}

/// The size a `sw × sh` image takes in a `max_w × max_h` box: unchanged when
/// it already fits, otherwise scaled by the tighter of `max_w / sw` and
/// `max_h / sh`, each side rounded to the nearest pixel and kept at least 1.
pub open spec fn fitted_size(sw: int, sh: int, max_w: int, max_h: int) -> (int, int) {
    if sw <= max_w && sh <= max_h {
        (sw, sh)
    } else if width_bound_tighter(sw, sh, max_w, max_h) {
        (at_least_one(max_w), at_least_one(round_div(sh * max_w, sw)))
    } else {
        (at_least_one(round_div(sw * max_h, sh)), at_least_one(max_h))
    }
}

proof fn lemma_round_div(n: int, d: int, q: int, r: int)
    requires
        d > 0,
        n >= 0,
        q == n / d,
        r == n % d,
    ensures
        round_div(n, d) == if 2 * r >= d {
            q + 1
        } else {
            q
        },
        q >= 0,
        0 <= r < d,
        n == q * d + r,
{
    vstd::arithmetic::div_mod::lemma_fundamental_div_mod(n, d);
    let k = if 2 * r >= d {
        q + 1
    } else {
        q
    };
    let m = 2 * n + d - 2 * d * k;
    assert(2 * n + d == k * (2 * d) + m) by (nonlinear_arith)
        requires
            m == 2 * n + d - 2 * d * k,
    ;
    assert(0 <= m < 2 * d) by (nonlinear_arith)
        requires
            n == q * d + r,
            0 <= r < d,
            m == 2 * n + d - 2 * d * k,
            k == if 2 * r >= d {
                q + 1
            } else {
                q
            },
    ;
    vstd::arithmetic::div_mod::lemma_fundamental_div_mod_converse_div(2 * n + d, 2 * d, k, m);
    vstd::arithmetic::div_mod::lemma_div_pos_is_pos(n, d);
}

/// A value at most `bound * d / d` rounds to at most `bound`.
proof fn lemma_round_div_le(n: int, d: int, bound: int)
    requires
        d > 0,
        n >= 0,
        bound >= 0,
        n <= bound * d,
    ensures
        round_div(n, d) <= bound,
        round_div(n, d) >= 0,
{
    let q = n / d;
    let r = n % d;
    lemma_round_div(n, d, q, r);
    assert(q <= bound) by (nonlinear_arith)
        requires
            n == q * d + r,
            0 <= r,
            n <= bound * d,
            d > 0,
    ;
    if q == bound {
        assert(r == 0) by (nonlinear_arith)
            requires
                n == q * d + r,
                n <= bound * d,
                q == bound,
                0 <= r,
        ;
    }
}

/// `n / d` rounded to nearest, halves up.
fn rounded_quotient(n: u64, d: u64) -> (r: u64)
    requires
        d > 0,
        d <= u32::MAX,
    ensures
        r == round_div(n as int, d as int),
{
    let q = n / d;
    let rem = n % d;
    proof {
        lemma_round_div(n as int, d as int, q as int, rem as int);
    }
    if 2 * rem >= d {
        assert(q + 1 <= u64::MAX) by (nonlinear_arith)
            requires
                n == q * d + rem,
                2 * rem >= d,
                rem < d,
                rem >= 0,
                q >= 0,
                n <= u64::MAX,
        ;
        q + 1
    } else {
        q
    }
}

/// Largest `(w, h)` that fits inside `max_w × max_h` and preserves aspect.
///
/// The scaled side is the exact ratio rounded to the nearest pixel, halves
/// up, in integer arithmetic. A floating-point evaluation of the same ratio
/// can land just below a half and round down instead: `(10, 45)` in a
/// `7 × 32` box gives `(7, 32)` here, where `45 × (7 / 10)` in `f64` is
/// `31.499999999999996` and rounds to 31.
pub fn fit_within(sw: u32, sh: u32, max_w: u32, max_h: u32) -> (r: (u32, u32))
    ensures
        (r.0 as int, r.1 as int) == fitted_size(sw as int, sh as int, max_w as int, max_h as int),
{
    if sw <= max_w && sh <= max_h {
        return (sw, sh);
    }
    let sw64 = sw as u64;
    let sh64 = sh as u64;
    let mw64 = max_w as u64;
    let mh64 = max_h as u64;
    assert(mw64 * sh64 <= u64::MAX && mh64 * sw64 <= u64::MAX) by (nonlinear_arith)
        requires
            sw64 <= u32::MAX,
            sh64 <= u32::MAX,
            mw64 <= u32::MAX,
            mh64 <= u32::MAX,
    ;
    if sw > 0 && mw64 * sh64 <= mh64 * sw64 {
        let th = rounded_quotient(sh64 * mw64, sw64);
        proof {
            lemma_round_div_le(sh64 * mw64, sw64 as int, mh64 as int);
        }
        let tw = if max_w < 1 {
            1
        } else {
            max_w
        };
        let th = if th < 1 {
            1
        } else {
            th as u32
        };
        (tw, th)
    } else {
        assert(sh > 0) by (nonlinear_arith)
            requires
                !(sw64 > 0 && mw64 * sh64 <= mh64 * sw64),
                !(sw <= max_w && sh <= max_h),
                sw64 == sw,
                sh64 == sh,
        ;
        assert(mh64 * sw64 < mw64 * sh64 || sw == 0);
        let tw = rounded_quotient(sw64 * mh64, sh64);
        proof {
            if sw > 0 {
                assert(sw64 * mh64 <= mw64 * sh64) by (nonlinear_arith)
                    requires
                        mh64 * sw64 < mw64 * sh64,
                ;
            } else {
                assert(sw64 * mh64 <= mw64 * sh64) by (nonlinear_arith)
                    requires
                        sw64 == 0,
                        mw64 >= 0,
                        sh64 >= 0,
                ;
            }
            lemma_round_div_le(sw64 * mh64, sh64 as int, mw64 as int);
        }
        let tw = if tw < 1 {
            1
        } else {
            tw as u32
        };
        let th = if max_h < 1 {
            1
        } else {
            max_h
        };
        (tw, th)
    }
}

/// Rounding is monotone in the numerator.
proof fn lemma_round_div_monotone(n1: int, n2: int, d: int)
    requires
        d > 0,
        n1 <= n2,
    ensures
        round_div(n1, d) <= round_div(n2, d),
{
    vstd::arithmetic::div_mod::lemma_div_is_ordered(2 * n1 + d, 2 * n2 + d, 2 * d);
}

/// A value of at least `k * d` rounds to at least `k`.
proof fn lemma_round_div_ge(n: int, d: int, k: int)
    requires
        d > 0,
        k >= 0,
        n >= k * d,
    ensures
        round_div(n, d) >= k,
{
    let q = n / d;
    let r = n % d;
    lemma_round_div(n, d, q, r);
    assert(q >= k) by (nonlinear_arith)
        requires
            n == q * d + r,
            r < d,
            n >= k * d,
            d > 0,
    ;
}

/// A larger box never gives a smaller page: fitting is monotone in both
/// sides of the box.
pub proof fn lemma_fit_within_monotone(sw: u32, sh: u32, mw1: u32, mh1: u32, mw2: u32, mh2: u32)
    requires
        sw >= 1,
        sh >= 1,
        1 <= mw1 <= mw2,
        1 <= mh1 <= mh2,
    ensures
        fitted_size(sw as int, sh as int, mw1 as int, mh1 as int).0 <= fitted_size(
            sw as int,
            sh as int,
            mw2 as int,
            mh2 as int,
        ).0,
        fitted_size(sw as int, sh as int, mw1 as int, mh1 as int).1 <= fitted_size(
            sw as int,
            sh as int,
            mw2 as int,
            mh2 as int,
        ).1,
{
    let (w, h) = (sw as int, sh as int);
    let (a1, b1, a2, b2) = (mw1 as int, mh1 as int, mw2 as int, mh2 as int);
    if w <= a1 && h <= b1 {
    } else if w <= a2 && h <= b2 {
        lemma_fit_within_never_enlarges(sw, sh, mw1, mh1);
    } else {
        let t1 = width_bound_tighter(w, h, a1, b1);
        let t2 = width_bound_tighter(w, h, a2, b2);
        if t1 && t2 {
            assert(h * a1 <= h * a2 && h * a1 >= 0) by (nonlinear_arith)
                requires
                    a1 <= a2,
                    h >= 1,
                    a1 >= 1,
            ;
            lemma_round_div_monotone(h * a1, h * a2, w);
        } else if !t1 && !t2 {
            assert(w * b1 <= w * b2 && w * b1 >= 0) by (nonlinear_arith)
                requires
                    b1 <= b2,
                    w >= 1,
                    b1 >= 1,
            ;
            lemma_round_div_monotone(w * b1, w * b2, h);
        } else if t1 && !t2 {
            // Box 1 is width-bound, box 2 height-bound.
            assert(w * b2 >= a1 * h) by (nonlinear_arith)
                requires
                    a1 * h <= b1 * w,
                    b1 <= b2,
                    w >= 1,
            ;
            lemma_round_div_ge(w * b2, h, a1);
            assert(h * a1 <= b1 * w && h * a1 >= 0) by (nonlinear_arith)
                requires
                    a1 * h <= b1 * w,
                    h >= 1,
                    a1 >= 1,
            ;
            lemma_round_div_le(h * a1, w, b1);
        } else {
            // Box 1 is height-bound, box 2 width-bound.
            assert(w * b1 <= a1 * h && w * b1 >= 0) by (nonlinear_arith)
                requires
                    a1 * h > b1 * w,
                    w >= 1,
                    b1 >= 1,
            ;
            lemma_round_div_le(w * b1, h, a1);
            assert(h * a2 >= b1 * w) by (nonlinear_arith)
                requires
                    a1 * h > b1 * w,
                    a1 <= a2,
                    h >= 1,
            ;
            lemma_round_div_ge(h * a2, w, b1);
        }
    }
}

/// A fitted page never leaves the box it was fitted to.
pub proof fn lemma_fit_within_fits(sw: u32, sh: u32, max_w: u32, max_h: u32)
    requires
        max_w >= 1,
        max_h >= 1,
    ensures
        fitted_size(sw as int, sh as int, max_w as int, max_h as int).0 <= max_w,
        fitted_size(sw as int, sh as int, max_w as int, max_h as int).1 <= max_h,
{
    let (sw, sh, mw, mh) = (sw as int, sh as int, max_w as int, max_h as int);
    if !(sw <= mw && sh <= mh) {
        if width_bound_tighter(sw, sh, mw, mh) {
            assert(sh * mw <= mh * sw) by (nonlinear_arith)
                requires
                    mw * sh <= mh * sw,
            ;
            assert(sh * mw >= 0) by (nonlinear_arith)
                requires
                    sh >= 0,
                    mw >= 0,
            ;
            lemma_round_div_le(sh * mw, sw, mh);
        } else {
            assert(sh > 0) by (nonlinear_arith)
                requires
                    !(sw > 0 && mw * sh <= mh * sw),
                    !(sw <= mw && sh <= mh),
                    sw >= 0,
                    sh >= 0,
                    mw >= 0,
                    mh >= 0,
            ;
            assert(sw * mh <= mw * sh) by (nonlinear_arith)
                requires
                    !(sw > 0 && mw * sh <= mh * sw),
                    sw >= 0,
                    sh >= 0,
                    mw >= 0,
                    mh >= 0,
            ;
            assert(sw * mh >= 0) by (nonlinear_arith)
                requires
                    sw >= 0,
                    mh >= 0,
            ;
            lemma_round_div_le(sw * mh, sh, mw);
        }
    }
}

/// Fitting only ever shrinks a page: neither side grows.
pub proof fn lemma_fit_within_never_enlarges(sw: u32, sh: u32, max_w: u32, max_h: u32)
    requires
        sw >= 1,
        sh >= 1,
    ensures
        fitted_size(sw as int, sh as int, max_w as int, max_h as int).0 <= sw,
        fitted_size(sw as int, sh as int, max_w as int, max_h as int).1 <= sh,
{
    let (sw, sh, mw, mh) = (sw as int, sh as int, max_w as int, max_h as int);
    if !(sw <= mw && sh <= mh) {
        if width_bound_tighter(sw, sh, mw, mh) {
            assert(mw < sw) by (nonlinear_arith)
                requires
                    mw * sh <= mh * sw,
                    !(sw <= mw && sh <= mh),
                    sw >= 1,
                    sh >= 1,
                    mw >= 0,
                    mh >= 0,
            ;
            assert(sh * mw <= sh * sw && sh * mw >= 0) by (nonlinear_arith)
                requires
                    mw < sw,
                    sh >= 1,
                    mw >= 0,
            ;
            lemma_round_div_le(sh * mw, sw, sh);
        } else {
            assert(mh < sh) by (nonlinear_arith)
                requires
                    mw * sh > mh * sw,
                    !(sw <= mw && sh <= mh),
                    sw >= 1,
                    sh >= 1,
                    mw >= 0,
                    mh >= 0,
            ;
            assert(sw * mh <= sw * sh && sw * mh >= 0) by (nonlinear_arith)
                requires
                    mh < sh,
                    sw >= 1,
                    mh >= 0,
            ;
            lemma_round_div_le(sw * mh, sh, sw);
        }
    }
}

/// A page that does not fit is scaled until one side meets the box, and the
/// other side is the proportional length rounded to the nearest pixel: the
/// aspect ratio is kept to within half a pixel.
pub proof fn lemma_fit_within_keeps_aspect(sw: u32, sh: u32, max_w: u32, max_h: u32)
    requires
        !(sw <= max_w && sh <= max_h),
        max_w >= 1,
        max_h >= 1,
        2 * (sh as int) * (max_w as int) >= sw,
        2 * (sw as int) * (max_h as int) >= sh,
    ensures
        ({
            let (w, h) = fitted_size(sw as int, sh as int, max_w as int, max_h as int);
            &&& w == max_w || h == max_h
            &&& -(sw as int) <= 2 * (h * sw - w * sh) <= sw || -(sh as int) <= 2 * (w * sh - h
                * sw) <= sh
        }),
{
    let (sw, sh, mw, mh) = (sw as int, sh as int, max_w as int, max_h as int);
    let (w, h) = fitted_size(sw, sh, mw, mh);
    if width_bound_tighter(sw, sh, mw, mh) {
        let n = sh * mw;
        assert(n >= 0 && 2 * n >= sw) by (nonlinear_arith)
            requires
                sh >= 0,
                mw >= 0,
                n == sh * mw,
                2 * sh * mw >= sw,
        ;
        let q = n / sw;
        let r = n % sw;
        lemma_round_div(n, sw, q, r);
        let k = round_div(n, sw);
        assert(k >= 1) by (nonlinear_arith)
            requires
                n == q * sw + r,
                0 <= r < sw,
                2 * n >= sw,
                k == if 2 * r >= sw {
                    q + 1
                } else {
                    q
                },
                q >= 0,
        ;
        assert(h == k);
        assert(-sw <= 2 * (k * sw - mw * sh) <= sw) by (nonlinear_arith)
            requires
                n == sh * mw,
                n == q * sw + r,
                0 <= r < sw,
                k == if 2 * r >= sw {
                    q + 1
                } else {
                    q
                },
        ;
    } else {
        assert(sh > 0) by (nonlinear_arith)
            requires
                !(sw > 0 && mw * sh <= mh * sw),
                !(sw <= mw && sh <= mh),
                sw >= 0,
                sh >= 0,
                mw >= 0,
                mh >= 0,
        ;
        let n = sw * mh;
        assert(n >= 0 && 2 * n >= sh) by (nonlinear_arith)
            requires
                sw >= 0,
                mh >= 0,
                n == sw * mh,
                2 * sw * mh >= sh,
        ;
        let q = n / sh;
        let r = n % sh;
        lemma_round_div(n, sh, q, r);
        let k = round_div(n, sh);
        assert(k >= 1) by (nonlinear_arith)
            requires
                n == q * sh + r,
                0 <= r < sh,
                2 * n >= sh,
                k == if 2 * r >= sh {
                    q + 1
                } else {
                    q
                },
                q >= 0,
        ;
        assert(w == k);
        assert(-sh <= 2 * (k * sh - mh * sw) <= sh) by (nonlinear_arith)
            requires
                n == sw * mh,
                n == q * sh + r,
                0 <= r < sh,
                k == if 2 * r >= sh {
                    q + 1
                } else {
                    q
                },
        ;
    }
}

// ---------------------------------------------------------------------------
// Bitmaps
// ---------------------------------------------------------------------------

/// How the bytes of a pixel are laid out.
#[derive(Clone, Copy, Debug, PartialEq, Eq, Structural)]
pub enum PixelLayout {
    /// Three bytes per pixel: red, green, blue.
    Rgb8,
    /// Four bytes per pixel: red, green, blue, alpha.
    Rgba8,
}

/// Bytes per pixel of a layout.
pub open spec fn channels(layout: PixelLayout) -> int {
    match layout {
        PixelLayout::Rgb8 => 3,
        PixelLayout::Rgba8 => 4,
    }
}

/// A decoded page: `width × height` pixels stored row by row, top row
/// first, each pixel `channels(layout)` bytes.
#[derive(Debug)]
pub struct Bitmap {
    pub width: u32,
    pub height: u32,
    pub layout: PixelLayout,
    pub pixels: Vec<u8>,
}

impl Bitmap {
    /// The pixel buffer holds exactly one pixel for every position.
    pub open spec fn wf(&self) -> bool {
        self.pixels.len() == (self.width as int) * (self.height as int) * channels(self.layout)
    }

    /// The colour bytes of the bitmap without alpha, three per pixel.
    pub open spec fn rgb_bytes(&self) -> Seq<u8> {
        match self.layout {
            PixelLayout::Rgb8 => self.pixels@,
            PixelLayout::Rgba8 => Seq::new(
                (self.pixels.len() / 4 * 3) as nat,
                |i: int| self.pixels@[(i / 3) * 4 + i % 3],
            ),
        }
    }

    /// Same size, layout and pixels.
    pub open spec fn same_as(&self, other: &Bitmap) -> bool {
        &&& self.width == other.width
        &&& self.height == other.height
        &&& self.layout == other.layout
        &&& self.pixels@ == other.pixels@
    }

    /// A copy of the bitmap.
    pub fn duplicate(&self) -> (r: Bitmap)
        ensures
            r.same_as(self),
    {
        let mut pixels: Vec<u8> = Vec::with_capacity(self.pixels.len());
        for k in 0..self.pixels.len()
            invariant
                pixels@ == self.pixels@.take(k as int),
        {
            pixels.push(self.pixels[k]);
            assert(pixels@ =~= self.pixels@.take(k + 1));
        }
        assert(pixels@ =~= self.pixels@);
        Bitmap { width: self.width, height: self.height, layout: self.layout, pixels }
    }

    /// The colour bytes without alpha, three per pixel (alpha is dropped,
    /// not blended).
    pub fn to_rgb_bytes(&self) -> (r: Vec<u8>)
        requires
            self.wf(),
        ensures
            r@ == self.rgb_bytes(),
    {
        match self.layout {
            PixelLayout::Rgb8 => {
                let mut out: Vec<u8> = Vec::with_capacity(self.pixels.len());
                for k in 0..self.pixels.len()
                    invariant
                        out@ == self.pixels@.take(k as int),
                {
                    out.push(self.pixels[k]);
                    assert(out@ =~= self.pixels@.take(k + 1));
                }
                assert(out@ =~= self.pixels@);
                out
            },
            PixelLayout::Rgba8 => {
                let n = self.pixels.len() / 4;
                let ghost want = self.rgb_bytes();
                let mut out: Vec<u8> = Vec::new();
                for p in 0..n
                    invariant
                        n == self.pixels.len() / 4,
                        self.layout == PixelLayout::Rgba8,
                        want == self.rgb_bytes(),
                        out@ == want.take(3 * p),
                {
                    let ghost before = out@;
                    out.push(self.pixels[4 * p]);
                    out.push(self.pixels[4 * p + 1]);
                    out.push(self.pixels[4 * p + 2]);
                    assert forall|i: int| 0 <= i < 3 * p + 3 implies #[trigger] out@[i] == want[i] by {
                        if i < 3 * p {
                            assert(before[i] == want.take(3 * p)[i]);
                        } else {
                            assert((i / 3) * 4 + i % 3 == 4 * p + (i - 3 * p));
                        }
                    }
                    assert(out@ =~= want.take(3 * p + 3));
                }
                assert(out@ =~= want);
                out
            },
        }
    }
}

/// Why a page could not be turned into pixels.
#[derive(Debug)]
pub enum PageError {
    /// The bytes are not an image in a supported format; the decoder's message.
    Decode(String),
    /// The scaler rejected the request; the scaler's message.
    Resize(String),
    /// The encoder rejected the page; the encoder's message.
    Encode(String),
}

/// `b` begins with `sig`.
pub open spec fn starts_with(b: Seq<u8>, sig: Seq<u8>) -> bool {
    b.len() >= sig.len() && b.take(sig.len() as int) == sig
}

/// `b` begins with the signature of one of the page formats the decoder is
/// built with: PNG, JPEG, GIF (87a or 89a), WebP (`RIFF`, four size bytes,
/// `WEBP`) or BMP (`BM`).
pub open spec fn has_image_signature(b: Seq<u8>) -> bool {
    ||| starts_with(b, seq![0x89u8, 0x50, 0x4e, 0x47, 0x0d, 0x0a, 0x1a, 0x0a])
    ||| starts_with(b, seq![0xffu8, 0xd8, 0xff])
    ||| starts_with(b, seq![0x47u8, 0x49, 0x46, 0x38, 0x39, 0x61])
    ||| starts_with(b, seq![0x47u8, 0x49, 0x46, 0x38, 0x37, 0x61])
    ||| (starts_with(b, seq![0x52u8, 0x49, 0x46, 0x46]) && b.len() >= 12 && b.subrange(8, 12)
        == seq![0x57u8, 0x45, 0x42, 0x50])
    ||| starts_with(b, seq![0x42u8, 0x4d])
}

/// What the `image` crate makes of `bytes`: the width, height and 8-bit RGBA
/// pixels of the decoded image, or nothing when it cannot decode them.
pub uninterp spec fn rgba8_decoding(bytes: Seq<u8>) -> Option<(u32, u32, Seq<u8>)>;

/// Decodes an encoded image with the `image` crate, the format guessed from
/// the leading bytes, and converts it to 8-bit RGBA.
///
/// Calls `image::ImageReader::new`, `with_guessed_format`,
/// `ImageReader::decode` and `DynamicImage::to_rgba8`. The contract claims:
/// - whether it succeeds, and the size and pixels it gives, are
///   `rgba8_decoding` of the bytes. The reader's limits are the fixed
///   defaults; PNG, GIF and BMP decode losslessly, the WebP decoder has no
///   SIMD code, and the JPEG decoder's SIMD paths compute the same integers as
///   its scalar code, so the answer depends on the bytes alone;
/// - a successful result's buffer holds at least four bytes for each of the
///   `width × height` pixels, which `ImageBuffer`'s constructors check;
/// - only bytes that begin with the signature of a format the crate is built
///   with can decode: `ImageReader::new` starts with no format,
///   `with_guessed_format` sets one only from the table of signatures (this
///   crate registers no format hooks), and `decode` fails without a format
///   or with one whose decoder is not built.
///
/// Which bytes decode, and to which pixels, is left to the name.
#[verifier::external_body]
fn decode_rgba8(bytes: &[u8]) -> (r: Result<(u32, u32, Vec<u8>), String>)
    ensures
        r is Ok <==> rgba8_decoding(bytes@) is Some,
        r matches Ok((w, h, px)) ==> rgba8_decoding(bytes@) == Some((w, h, px@)),
        r matches Ok((w, h, px)) ==> px.len() >= (w as int) * (h as int) * 4,
        r is Ok ==> has_image_signature(bytes@),
{
    let reader = match ImageReader::new(Cursor::new(bytes)).with_guessed_format() {
        Ok(reader) => reader,
        Err(e) => return Err(e.to_string()),
    };
    match reader.decode() {
        Ok(img) => {
            let rgba = img.to_rgba8();
            Ok((rgba.width(), rgba.height(), rgba.into_raw()))
        },
        Err(e) => Err(e.to_string()),
    }
}

/// The bitmap of a decoder's answer: the RGBA buffer cut to exactly
/// `width × height` pixels, or the decoder's message as a decode error.
pub fn bitmap_from_decoded(decoded: Result<(u32, u32, Vec<u8>), String>) -> (r: Result<
    Bitmap,
    PageError,
>)
    requires
        decoded matches Ok((w, h, px)) ==> px.len() >= (w as int) * (h as int) * 4,
    ensures
        match decoded {
            Ok((w, h, px)) => r matches Ok(b) && b.width == w && b.height == h && b.layout
                == PixelLayout::Rgba8 && b.pixels@ == px@.take((w as int) * (h as int) * 4),
            Err(msg) => r == Err::<Bitmap, PageError>(PageError::Decode(msg)),
        },
        r matches Ok(b) ==> b.wf(),
{
    match decoded {
        Ok((w, h, mut px)) => {
            let len = (w as usize) * (h as usize) * 4;
            px.truncate(len);
            Ok(Bitmap { width: w, height: h, layout: PixelLayout::Rgba8, pixels: px })
        },
        Err(msg) => Err(PageError::Decode(msg)),
    }
}

/// Decode arbitrary image bytes into an RGBA bitmap.
///
/// The format is auto-detected from the byte signature; the file extension
/// is not consulted, which matches how archives may rename entries. The
/// bitmap is the decoder's answer, `rgba8_decoding` of the bytes.
pub fn decode(bytes: &[u8]) -> (r: Result<Bitmap, PageError>)
    ensures
        r is Ok <==> rgba8_decoding(bytes@) is Some,
        match rgba8_decoding(bytes@) {
            Some((w, h, px)) => r matches Ok(b) && b.width == w && b.height == h && b.layout
                == PixelLayout::Rgba8 && b.pixels@ == px.take((w as int) * (h as int) * 4),
            None => r is Err,
        },
        r matches Ok(b) ==> b.wf() && b.layout == PixelLayout::Rgba8,
        r is Ok ==> has_image_signature(bytes@),
        r matches Err(e) ==> e is Decode,
{
    bitmap_from_decoded(decode_rgba8(bytes))
}

/// The `tw × th` RGB8 bytes that `fast_image_resize`'s Lanczos3 convolution
/// makes of the `sw × sh` RGB8 buffer `src`.
pub uninterp spec fn lanczos3_scaled(src: Seq<u8>, sw: u32, sh: u32, tw: u32, th: u32) -> Seq<u8>;

/// Scales a `sw × sh` RGB8 buffer to `tw × th` with `fast_image_resize`'s
/// Lanczos3 convolution.
///
/// Calls `ImageRef::new`, `Image::new`, `Resizer::resize` and
/// `Image::into_vec` of `fast_image_resize`. The contract claims that the
/// call succeeds and hands back three bytes for each of the `tw × th`
/// pixels, named `lanczos3_scaled` of the arguments. `ImageRef::new` fails
/// only on a short buffer or a misaligned one, and three-byte pixels need no
/// alignment; `Resizer::resize` with the default crop box has only
/// successful paths (it does nothing when a side is 0); `Image::new`
/// allocates exactly `tw × th × 3` bytes and `into_vec` hands them back. The
/// convolution is fixed-point code whose result the crate's own tests hold
/// to one checksum under every CPU extension, so the bytes are a function
/// of the arguments.
#[verifier::external_body]
fn lanczos3_rgb8(src: &[u8], sw: u32, sh: u32, tw: u32, th: u32) -> (r: Result<Vec<u8>, String>)
    requires
        src.len() >= (sw as int) * (sh as int) * 3,
        (tw as int) * (th as int) * 3 <= usize::MAX,
    ensures
        r is Ok,
        r matches Ok(px) ==> px.len() == (tw as int) * (th as int) * 3 && px@ == lanczos3_scaled(
            src@,
            sw,
            sh,
            tw,
            th,
        ),
{
    let src_image = match ImageRef::new(sw, sh, src, PixelType::U8x3) {
        Ok(image) => image,
        Err(e) => return Err(e.to_string()),
    };
    let mut dst = Image::new(tw, th, PixelType::U8x3);
    let opts = ResizeOptions::new().resize_alg(ResizeAlg::Convolution(FilterType::Lanczos3));
    match Resizer::new().resize(&src_image, &mut dst, &opts) {
        Ok(()) => Ok(dst.into_vec()),
        Err(e) => Err(e.to_string()),
    }
}

/// Resize to fit within `max_w × max_h` using Lanczos3, preserving aspect.
///
/// A page that already has the fitted size comes back unchanged; any other
/// comes back as an RGB8 bitmap of the fitted size (alpha is dropped),
/// scaled from the page's colour bytes.
pub fn resize_lanczos3(img: &Bitmap, max_w: u32, max_h: u32) -> (r: Result<Bitmap, PageError>)
    requires
        img.wf(),
        ({
            let (tw, th) = fitted_size(img.width as int, img.height as int, max_w as int, max_h as int);
            tw * th * 3 <= usize::MAX
        }),
    ensures
        ({
            let (tw, th) = fitted_size(img.width as int, img.height as int, max_w as int, max_h as int);
            let unchanged = tw == img.width && th == img.height;
            &&& r is Ok
            &&& unchanged ==> (r matches Ok(out) && out.same_as(img))
            &&& r matches Ok(out) ==> out.wf() && out.width == tw && out.height == th
            &&& !unchanged ==> (r matches Ok(out) && out.layout == PixelLayout::Rgb8 && out.pixels@
                == lanczos3_scaled(img.rgb_bytes(), img.width, img.height, tw as u32, th as u32))
        }),
{
    let (sw, sh) = (img.width, img.height);
    let (tw, th) = fit_within(sw, sh, max_w, max_h);
    if tw == sw && th == sh {
        return Ok(img.duplicate());
    }
    let ghost (w, h) = (sw as int, sh as int);
    proof {
        assert(w * h * 3 <= w * h * channels(img.layout)) by (nonlinear_arith)
            requires
                channels(img.layout) >= 3,
                w >= 0,
                h >= 0,
        ;
        assert(img.rgb_bytes().len() == w * h * 3) by (nonlinear_arith)
            requires
                img.pixels.len() == w * h * channels(img.layout),
                img.rgb_bytes().len() == if img.layout == PixelLayout::Rgb8 {
                    img.pixels.len() as int
                } else {
                    img.pixels.len() / 4 * 3
                },
                channels(img.layout) == if img.layout == PixelLayout::Rgb8 {
                    3int
                } else {
                    4int
                },
        ;
    }
    let rgb = img.to_rgb_bytes();
    bitmap_from_scaled(tw, th, lanczos3_rgb8(rgb.as_slice(), sw, sh, tw, th))
}

/// The bitmap of a scaler's answer for a `tw × th` target: an RGB8 bitmap
/// of the scaled bytes, or the scaler's message as a resize error.
pub fn bitmap_from_scaled(tw: u32, th: u32, scaled: Result<Vec<u8>, String>) -> (r: Result<
    Bitmap,
    PageError,
>)
    requires
        scaled matches Ok(px) ==> px.len() == (tw as int) * (th as int) * 3,
    ensures
        match scaled {
            Ok(px) => r matches Ok(b) && b.width == tw && b.height == th && b.layout
                == PixelLayout::Rgb8 && b.pixels@ == px@,
            Err(msg) => r == Err::<Bitmap, PageError>(PageError::Resize(msg)),
        },
        r matches Ok(b) ==> b.wf(),
{
    match scaled {
        Ok(px) => Ok(Bitmap { width: tw, height: th, layout: PixelLayout::Rgb8, pixels: px }),
        Err(msg) => Err(PageError::Resize(msg)),
    }
}

} // verus!
