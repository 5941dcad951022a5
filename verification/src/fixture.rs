//! Synthetic benchmark pages: per-page noise from a XorShift generator over a
//! colour gradient, JPEG-encoded, and the plan of a whole fixture archive.

use vstd::prelude::*;
use crate::archive::{
    after_last_slash, extension, file_name, image_entries, is_image_name, is_natural_sort_of,
    last_dot, lemma_natural_sort_is_unique, lower_name, stably_sorted_by,
};
use crate::decode::{has_image_signature, starts_with, PageError};
use image::codecs::jpeg::JpegEncoder;
use image::{ExtendedColorType, ImageEncoder};
use crate::natural::{
    decimal_value, digit_value, is_digit, lemma_numbers_compare_by_value, lemma_shared_prefix,
    natural_order,
};

verus! {

// ---------------------------------------------------------------------------
// Noise
// ---------------------------------------------------------------------------

/// Multiplier that spreads a page seed over the generator's state.
pub const SEED_SPREAD: u32 = 2_654_435_761;

/// JPEG quality of synthetic pages, close to real manga scans.
pub const JPEG_QUALITY: u8 = 85;

/// One step of the 32-bit XorShift generator (shifts 13, 17, 5).
pub open spec fn xorshift(x: u32) -> u32 {
    let a = x ^ (x << 13u32);
    let b = a ^ (a >> 17u32);
    b ^ (b << 5u32)
}

/// The seed the generator starts from: the page seed, raised to 1 when it
/// is 0, times `SEED_SPREAD`, wrapping.
pub open spec fn start_state(seed: u32) -> u32 {
    let s: int = if seed == 0 {
        1
    } else {
        seed as int
    };
    ((s * (SEED_SPREAD as int)) % 0x1_0000_0000) as u32
}

/// Generator state after `steps` steps.
pub open spec fn noise_state(seed: u32, steps: nat) -> u32
    decreases steps,
{
    if steps == 0 {
        start_state(seed)
    } else {
        xorshift(noise_state(seed, (steps - 1) as nat))
    }
}

/// Noise added to pixel `p`: the low five bits of the state after `p + 1`
/// steps.
pub open spec fn pixel_noise(seed: u32, p: nat) -> int {
    (noise_state(seed, p + 1) & 0x1fu32) as int
}

/// Per-channel colour offsets of a page: the low three bytes of the seed
/// (raised to 1 when 0).
pub open spec fn channel_offset(seed: u32, c: int) -> int {
    let s: int = if seed == 0 {
        1
    } else {
        seed as int
    };
    if c == 0 {
        s % 256
    } else if c == 1 {
        (s / 256) % 256
    } else {
        (s / 65536) % 256
    }
}

/// The page's RGB bytes: each byte of the base gradient plus its channel's
/// offset plus the pixel's noise, wrapping at 256.
pub open spec fn noisy_bytes(seed: u32, base: Seq<u8>) -> Seq<u8> {
    Seq::new(
        base.len(),
        |i: int| ((base[i] + channel_offset(seed, i % 3) + pixel_noise(seed, (i / 3) as nat)) % 256) as u8,
    )
}

proof fn lemma_wrapping_sum(a: u8, b: u8, c: u8)
    ensures
        a.wrapping_add(b).wrapping_add(c) == ((a + b + c) % 256) as u8,
{
}

/// One generator step.
fn xorshift_step(x: u32) -> (r: u32)
    ensures
        r == xorshift(x),
{
    let mut r = x;
    r ^= r << 13;
    r ^= r >> 17;
    r ^= r << 5;
    r
}

/// Adds a page's colour offsets and per-pixel noise to a base gradient of
/// RGB bytes (three per pixel).
pub fn add_noise(seed: u32, base: &[u8]) -> (out: Vec<u8>)
    requires
        base.len() % 3 == 0,
    ensures
        out@ == noisy_bytes(seed, base@),
{
    let s = if seed < 1 {
        1
    } else {
        seed
    };
    let r_off = (s & 0xff) as u8;
    let g_off = ((s >> 8) & 0xff) as u8;
    let b_off = ((s >> 16) & 0xff) as u8;
    proof {
        assert(r_off == s % 256 && g_off == (s / 256) % 256 && b_off == (s / 65536) % 256)
            by (bit_vector)
            requires
                r_off == (s & 0xff) as u8,
                g_off == ((s >> 8) & 0xff) as u8,
                b_off == ((s >> 16) & 0xff) as u8,
        ;
    }
    let mut rng = s.wrapping_mul(SEED_SPREAD);
    let n = base.len() / 3;
    let ghost want = noisy_bytes(seed, base@);
    let mut out: Vec<u8> = Vec::with_capacity(base.len());
    for p in 0..n
        invariant
            n == base.len() / 3,
            base.len() % 3 == 0,
            want == noisy_bytes(seed, base@),
            r_off == channel_offset(seed, 0),
            g_off == channel_offset(seed, 1),
            b_off == channel_offset(seed, 2),
            rng == noise_state(seed, p as nat),
            out@ == want.take(3 * p),
    {
        rng = xorshift_step(rng);
        let noise = (rng & 0x1f) as u8;
        assert(noise == (rng & 0x1fu32)) by (bit_vector)
            requires
                noise == (rng & 0x1f) as u8,
        ;
        let ghost before = out@;
        proof {
            assert(noise == pixel_noise(seed, p as nat));
            lemma_wrapping_sum(base[3 * p as int], r_off, noise);
            lemma_wrapping_sum(base[3 * p + 1], g_off, noise);
            lemma_wrapping_sum(base[3 * p + 2], b_off, noise);
        }
        out.push(base[3 * p].wrapping_add(r_off).wrapping_add(noise));
        out.push(base[3 * p + 1].wrapping_add(g_off).wrapping_add(noise));
        out.push(base[3 * p + 2].wrapping_add(b_off).wrapping_add(noise));
        assert forall|i: int| 0 <= i < 3 * p + 3 implies #[trigger] out@[i] == want[i] by {
            if i < 3 * p {
                assert(before[i] == want.take(3 * p)[i]);
            } else {
                assert(i / 3 == p && i % 3 == i - 3 * p);
            }
        }
        assert(out@ =~= want.take(3 * p + 3));
    }
    assert(out@ =~= want);
    out
}

/// Every page's generator starts away from 0, the state XorShift can never
/// leave.
pub proof fn lemma_start_state_nonzero(seed: u32)
    ensures
        start_state(seed) != 0,
{
    let s: u64 = if seed == 0 {
        1
    } else {
        seed as u64
    };
    assert(1 <= s <= 0xffff_ffff ==> (s * 2_654_435_761) % 0x1_0000_0000 != 0) by (bit_vector);
}

/// A XorShift step maps every non-zero state to a non-zero state.
pub proof fn lemma_xorshift_nonzero(x: u32)
    requires
        x != 0,
    ensures
        xorshift(x) != 0,
{
    let a = x ^ (x << 13u32);
    let b = a ^ (a >> 17u32);
    assert(x != 0 ==> (x ^ (x << 13u32)) != 0) by (bit_vector);
    assert(a != 0 ==> (a ^ (a >> 17u32)) != 0) by (bit_vector);
    assert(b != 0 ==> (b ^ (b << 5u32)) != 0) by (bit_vector);
}

/// The noise of a page never stalls: its generator never reaches the
/// all-zero state, whatever the seed (a seed of 0 is raised to 1).
pub proof fn lemma_noise_state_nonzero(seed: u32, steps: nat)
    ensures
        noise_state(seed, steps) != 0,
    decreases steps,
{
    if steps == 0 {
        lemma_start_state_nonzero(seed);
    } else {
        lemma_noise_state_nonzero(seed, (steps - 1) as nat);
        lemma_xorshift_nonzero(noise_state(seed, (steps - 1) as nat));
    }
}

/// The three channel offsets of a page are the low three bytes of its seed,
/// red the lowest (a seed of 0 counts as 1), and each pixel's noise is below
/// 32.
pub proof fn lemma_offsets_are_seed_bytes(seed: u32, p: nat)
    ensures
        channel_offset(seed, 0) + 256 * channel_offset(seed, 1) + 65536 * channel_offset(seed, 2)
            == (if seed == 0 {
            1
        } else {
            seed as int
        }) % 0x100_0000,
        0 <= pixel_noise(seed, p) < 32,
{
    let s: u32 = if seed == 0 {
        1
    } else {
        seed
    };
    assert(s % 256 + 256 * ((s / 256) % 256) + 65536 * ((s / 65536) % 256) == s % 0x100_0000)
        by (bit_vector);
    let x = noise_state(seed, p + 1);
    assert(x & 0x1fu32 < 32) by (bit_vector);
}

/// Byte `i` of a noisy page is its base byte plus the channel offset and
/// the pixel's noise, less a multiple of 256.
proof fn lemma_noisy_byte_decomposed(seed: u32, base: Seq<u8>, i: int)
    requires
        0 <= i < base.len(),
    ensures
        ({
            let k = channel_offset(seed, i % 3) + pixel_noise(seed, (i / 3) as nat);
            let t = base[i] + k;
            noisy_bytes(seed, base)[i] == t - 256 * (t / 256)
        }),
{
    let k = channel_offset(seed, i % 3) + pixel_noise(seed, (i / 3) as nat);
    let t = base[i] + k;
    vstd::arithmetic::div_mod::lemma_fundamental_div_mod(t, 256);
    assert(k >= 0);
    assert(0 <= t % 256 < 256);
}

/// Adding noise wraps around: every output byte is its input byte shifted
/// by the channel's offset plus the pixel's noise, modulo 256, whatever the
/// input byte is (a bright byte wraps to a dark one, it is not clamped).
pub proof fn lemma_noise_is_a_shift_mod_256(seed: u32, base: Seq<u8>)
    ensures
        noisy_bytes(seed, base).len() == base.len(),
        forall|i: int|
            0 <= i < base.len() ==> ((#[trigger] noisy_bytes(seed, base)[i]) - base[i]) % 256 == (
            channel_offset(seed, i % 3) + pixel_noise(seed, (i / 3) as nat)) % 256,
{
    assert forall|i: int| 0 <= i < base.len() implies ((#[trigger] noisy_bytes(seed, base)[i])
        - base[i]) % 256 == (channel_offset(seed, i % 3) + pixel_noise(seed, (i / 3) as nat))
        % 256 by {
        let k = channel_offset(seed, i % 3) + pixel_noise(seed, (i / 3) as nat);
        let t = base[i] + k;
        lemma_noisy_byte_decomposed(seed, base, i);
        assert(noisy_bytes(seed, base)[i] - base[i] == 256 * (-(t / 256)) + k);
        vstd::arithmetic::div_mod::lemma_mod_multiples_vanish(-(t / 256), k, 256);
    }
}

/// Two pages made with one seed differ, byte by byte, exactly as their bases
/// do, modulo 256: raising a base byte by one raises its output byte by one,
/// wrapping from 255 to 0.
pub proof fn lemma_noise_keeps_differences(seed: u32, b1: Seq<u8>, b2: Seq<u8>)
    requires
        b1.len() == b2.len(),
    ensures
        forall|i: int|
            0 <= i < b1.len() ==> ((#[trigger] noisy_bytes(seed, b1)[i]) - noisy_bytes(seed, b2)[i])
                % 256 == (b1[i] - b2[i]) % 256,
{
    assert forall|i: int| 0 <= i < b1.len() implies ((#[trigger] noisy_bytes(seed, b1)[i])
        - noisy_bytes(seed, b2)[i]) % 256 == (b1[i] - b2[i]) % 256 by {
        let k = channel_offset(seed, i % 3) + pixel_noise(seed, (i / 3) as nat);
        let (t1, t2) = (b1[i] + k, b2[i] + k);
        lemma_noisy_byte_decomposed(seed, b1, i);
        lemma_noisy_byte_decomposed(seed, b2, i);
        assert(noisy_bytes(seed, b1)[i] - noisy_bytes(seed, b2)[i] == 256 * (t2 / 256 - t1 / 256) + (
        b1[i] - b2[i]));
        vstd::arithmetic::div_mod::lemma_mod_multiples_vanish(t2 / 256 - t1 / 256, b1[i] - b2[i], 256);
    }
}

// ---------------------------------------------------------------------------
// JPEG encoding
// ---------------------------------------------------------------------------

/// The bytes `image`'s baseline JPEG encoder writes for a `width × height`
/// RGB8 buffer at the given quality.
pub uninterp spec fn jpeg_encoding(rgb: Seq<u8>, width: u32, height: u32, quality: u8) -> Seq<u8>;

/// `b` is framed as the JPEG encoder frames its output: start-of-image
/// followed by the marker of a JFIF header segment, and end-of-image last.
pub open spec fn jpeg_framed(b: Seq<u8>) -> bool {
    &&& b.len() >= 6
    &&& b[0] == 0xffu8 && b[1] == 0xd8u8 && b[2] == 0xffu8 && b[3] == 0xe0u8
    &&& b[b.len() - 2] == 0xffu8 && b[b.len() - 1] == 0xd9u8
}

/// Encodes an RGB8 buffer as JPEG with `image::codecs::jpeg::JpegEncoder`
/// (`new_with_quality`, then `ImageEncoder::write_image` into a `Vec`).
///
/// The contract claims what the encoder's source shows: with a buffer of
/// exactly three bytes per pixel it fails only when a side is 0 or above
/// 65535, and writing into a `Vec` cannot fail; the output starts with the
/// start-of-image marker and the JFIF header segment's marker and ends with
/// the end-of-image marker, each written straight to the `Vec`. The bytes
/// written are named
/// `jpeg_encoding` of the arguments: the encoder is plain integer and `f32`
/// code with no CPU-dependent paths.
#[verifier::external_body]
fn encode_jpeg_rgb8(rgb: &[u8], width: u32, height: u32, quality: u8) -> (r: Result<
    Vec<u8>,
    String,
>)
    requires
        rgb.len() == (width as int) * (height as int) * 3,
    ensures
        r is Ok <==> (1 <= width <= 65535 && 1 <= height <= 65535),
        r matches Ok(bytes) ==> bytes@ == jpeg_encoding(rgb@, width, height, quality) && jpeg_framed(
            bytes@,
        ),
{
    let mut out: Vec<u8> = Vec::new();
    let encoder = JpegEncoder::new_with_quality(&mut out, quality);
    match encoder.write_image(rgb, width, height, ExtendedColorType::Rgb8) {
        Ok(()) => Ok(out),
        Err(e) => Err(e.to_string()),
    }
}

/// Adds a page's noise to its base gradient and JPEG-encodes the result at
/// quality `JPEG_QUALITY`. Fails when a side is 0 or above 65535, the
/// limits of the JPEG format. The bytes are framed as a JPEG file and so
/// carry a signature that `decode` accepts.
pub fn noisy_page_jpeg(seed: u32, width: u32, height: u32, base: &[u8]) -> (r: Result<
    Vec<u8>,
    PageError,
>)
    requires
        base.len() == (width as int) * (height as int) * 3,
    ensures
        r is Ok <==> (1 <= width <= 65535 && 1 <= height <= 65535),
        r matches Ok(bytes) ==> bytes@ == jpeg_encoding(
            noisy_bytes(seed, base@),
            width,
            height,
            JPEG_QUALITY,
        ),
        r matches Ok(bytes) ==> jpeg_framed(bytes@) && has_image_signature(bytes@),
        r matches Err(e) ==> e is Encode,
{
    assert(base.len() % 3 == 0) by (nonlinear_arith)
        requires
            base.len() == (width as int) * (height as int) * 3,
    ;
    let rgb = add_noise(seed, base);
    match encode_jpeg_rgb8(rgb.as_slice(), width, height, JPEG_QUALITY) {
        Ok(bytes) => {
            assert(starts_with(bytes@, seq![0xffu8, 0xd8, 0xff])) by {
                assert(bytes@.take(3) =~= seq![0xffu8, 0xd8, 0xff]);
            }
            Ok(bytes)
        },
        Err(msg) => Err(PageError::Encode(msg)),
    }
}

// ---------------------------------------------------------------------------
// Fixture plan
// ---------------------------------------------------------------------------

/// Size of an ordinary page.
pub const NORMAL_W: u32 = 2400;
pub const NORMAL_H: u32 = 3400;
/// Size of an extreme (spread) page.
pub const EXTREME_W: u32 = 6000;
pub const EXTREME_H: u32 = 4000;

/// The character of a decimal digit.
pub open spec fn digit_char(d: nat) -> char {
    (('0' as int) + d) as char
}

/// Decimal digits of `n`, most significant first, without leading zeros
/// (`0` is the single digit `0`).
pub open spec fn decimal_digits(n: nat) -> Seq<char>
    decreases n,
{
    if n < 10 {
        seq![digit_char(n)]
    } else {
        decimal_digits(n / 10).push(digit_char(n % 10))
    }
}

/// `n` in decimal, padded with leading zeros to at least four digits.
pub open spec fn four_digits(n: nat) -> Seq<char> {
    let d = decimal_digits(n);
    Seq::new(if d.len() < 4 {
        (4 - d.len()) as nat
    } else {
        0
    }, |i: int| '0') + d
}

/// Archive entry name of page number `n`: `page_` and at least four digits,
/// then `.jpg`.
pub open spec fn page_name(n: nat) -> Seq<char> {
    seq!['p', 'a', 'g', 'e', '_'] + four_digits(n) + seq!['.', 'j', 'p', 'g']
}

/// One page of a fixture archive: its generator seed, size and entry name.
#[derive(Debug)]
pub struct PlannedPage {
    pub seed: u32,
    pub width: u32,
    pub height: u32,
    pub name: String,
}

/// The page planned at position `i` of a fixture with `n_normal` ordinary
/// pages followed by extreme ones: seed and number `i + 1`.
pub open spec fn planned_as(page: PlannedPage, i: int, n_normal: int) -> bool {
    &&& page.seed == i + 1
    &&& (page.width, page.height) == if i < n_normal {
        (NORMAL_W, NORMAL_H)
    } else {
        (EXTREME_W, EXTREME_H)
    }
    &&& page.name@ == page_name((i + 1) as nat)
}

/// The string holding one decimal digit.
fn digit_str(d: u32) -> (s: &'static str)
    requires
        d < 10,
    ensures
        s@ == seq![digit_char(d as nat)],
{
    proof {
        reveal_strlit("0");
        reveal_strlit("1");
        reveal_strlit("2");
        reveal_strlit("3");
        reveal_strlit("4");
        reveal_strlit("5");
        reveal_strlit("6");
        reveal_strlit("7");
        reveal_strlit("8");
        reveal_strlit("9");
    }
    if d == 0 {
        "0"
    } else if d == 1 {
        "1"
    } else if d == 2 {
        "2"
    } else if d == 3 {
        "3"
    } else if d == 4 {
        "4"
    } else if d == 5 {
        "5"
    } else if d == 6 {
        "6"
    } else if d == 7 {
        "7"
    } else if d == 8 {
        "8"
    } else {
        "9"
    }
}

/// Decimal digits of `n`, least significant first.
fn digits_reversed(n: u32) -> (v: Vec<u32>)
    ensures
        v.len() == decimal_digits(n as nat).len(),
        forall|k: int|
            0 <= k < v.len() ==> #[trigger] v@[k] < 10 && digit_char(v@[k] as nat)
                == decimal_digits(n as nat)[v.len() - 1 - k],
    decreases n,
{
    if n < 10 {
        let mut v: Vec<u32> = Vec::new();
        v.push(n);
        v
    } else {
        let mut v = digits_reversed(n / 10);
        let ghost high = decimal_digits((n / 10) as nat);
        let ghost old_v = v@;
        v.insert(0, n % 10);
        proof {
            let all = decimal_digits(n as nat);
            assert(all == high.push(digit_char((n % 10) as nat)));
            assert forall|k: int| 0 <= k < v.len() implies #[trigger] v@[k] < 10 && digit_char(
                v@[k] as nat,
            ) == all[v.len() - 1 - k] by {
                if k > 0 {
                    assert(v@[k] == old_v[k - 1]);
                }
            }
        }
        v
    }
}

/// Entry name of page number `n`.
fn page_name_of(n: u32) -> (name: String)
    ensures
        name@ == page_name(n as nat),
{
    proof {
        reveal_strlit("page_");
        reveal_strlit(".jpg");
    }
    let mut name = String::from_str("page_");
    let digits = digits_reversed(n);
    let ghost d = decimal_digits(n as nat);
    let ghost pad_len: nat = if d.len() < 4 {
        (4 - d.len()) as nat
    } else {
        0
    };
    let ghost zeros = Seq::new(pad_len, |i: int| '0');
    let mut k = digits.len();
    while k < 4
        invariant
            digits.len() == d.len(),
            d.len() <= k <= 4 || (k == d.len() && k > 4),
            name@ == seq!['p', 'a', 'g', 'e', '_'] + zeros.take(k - d.len()),
            pad_len == (if d.len() < 4 {
                (4 - d.len()) as nat
            } else {
                0
            }),
            zeros == Seq::new(pad_len, |i: int| '0'),
        decreases 4 - k,
    {
        let ghost before = name@;
        proof {
            reveal_strlit("0");
        }
        name.append("0");
        assert(name@ =~= seq!['p', 'a', 'g', 'e', '_'] + zeros.take(k + 1 - d.len()));
        k = k + 1;
    }
    assert(zeros.take(pad_len as int) =~= zeros);
    let mut j = digits.len();
    while j > 0
        invariant
            digits.len() == d.len(),
            j <= digits.len(),
            forall|m: int|
                0 <= m < digits.len() ==> #[trigger] digits@[m] < 10 && digit_char(
                    digits@[m] as nat,
                ) == d[digits.len() - 1 - m],
            name@ == seq!['p', 'a', 'g', 'e', '_'] + zeros + d.take(digits.len() - j),
        decreases j,
    {
        let ghost before = name@;
        name.append(digit_str(digits[j - 1]));
        assert(d.take(digits.len() - j + 1) =~= d.take(digits.len() - j).push(
            d[digits.len() - j],
        ));
        assert(name@ =~= seq!['p', 'a', 'g', 'e', '_'] + zeros + d.take(digits.len() - (j - 1)));
        j = j - 1;
    }
    assert(d.take(d.len() as int) =~= d);
    name.append(".jpg");
    assert(name@ =~= page_name(n as nat));
    name
}

/// The pages of a fixture archive: `n_normal` ordinary pages, then
/// `n_extreme` extreme ones, numbered and seeded from 1 in that order.
pub fn fixture_plan(n_normal: u32, n_extreme: u32) -> (plan: Vec<PlannedPage>)
    requires
        n_normal + n_extreme <= u32::MAX,
    ensures
        plan.len() == n_normal + n_extreme,
        forall|i: int| 0 <= i < plan.len() ==> planned_as(#[trigger] plan@[i], i, n_normal as int),
{
    let total = n_normal + n_extreme;
    let mut plan: Vec<PlannedPage> = Vec::new();
    let mut i: u32 = 0;
    while i < total
        invariant
            total == n_normal + n_extreme,
            i <= total,
            plan.len() == i,
            forall|k: int| 0 <= k < i ==> planned_as(#[trigger] plan@[k], k, n_normal as int),
        decreases total - i,
    {
        let (width, height) = if i < n_normal {
            (NORMAL_W, NORMAL_H)
        } else {
            (EXTREME_W, EXTREME_H)
        };
        plan.push(PlannedPage { seed: i + 1, width, height, name: page_name_of(i + 1) });
        i = i + 1;
    }
    plan
}

// ---------------------------------------------------------------------------
// Opening a generated fixture
// ---------------------------------------------------------------------------

/// Entry names of a fixture with `count` pages, in plan order.
pub open spec fn plan_names(count: nat) -> Seq<Seq<char>> {
    Seq::new(count, |i: int| page_name((i + 1) as nat))
}

proof fn lemma_decimal_digits(n: nat)
    ensures
        decimal_digits(n).len() >= 1,
        forall|k: int| 0 <= k < decimal_digits(n).len() ==> is_digit(#[trigger] decimal_digits(n)[k]),
        decimal_value(decimal_digits(n)) == n,
    decreases n,
{
    let d = decimal_digits(n);
    if n < 10 {
        assert(d.drop_last() =~= Seq::<char>::empty());
        assert(digit_value(digit_char(n)) == n);
        assert(decimal_value(d) == decimal_value(d.drop_last()) * 10 + digit_value(d.last()));
    } else {
        lemma_decimal_digits(n / 10);
        assert(d.drop_last() =~= decimal_digits(n / 10));
        assert(digit_value(digit_char(n % 10)) == n % 10);
        assert(d.last() == digit_char(n % 10));
        assert(decimal_value(d) == decimal_value(d.drop_last()) * 10 + digit_value(d.last()));
        assert((n / 10) * 10 + n % 10 == n);
    }
}

proof fn lemma_leading_zeros(z: Seq<char>, d: Seq<char>)
    requires
        forall|k: int| 0 <= k < z.len() ==> #[trigger] z[k] == '0',
    ensures
        decimal_value(z + d) == decimal_value(d),
    decreases z.len() + d.len(),
{
    if d.len() == 0 {
        assert(z + d =~= z);
        if z.len() > 0 {
            lemma_leading_zeros(z.drop_last(), d);
            assert(z.drop_last() + d =~= z.drop_last());
        }
    } else {
        assert((z + d).drop_last() =~= z + d.drop_last());
        lemma_leading_zeros(z, d.drop_last());
    }
}

proof fn lemma_four_digits(n: nat)
    ensures
        four_digits(n).len() >= 4,
        forall|k: int| 0 <= k < four_digits(n).len() ==> is_digit(#[trigger] four_digits(n)[k]),
        decimal_value(four_digits(n)) == n,
{
    let d = decimal_digits(n);
    lemma_decimal_digits(n);
    let z = Seq::new(if d.len() < 4 {
        (4 - d.len()) as nat
    } else {
        0
    }, |i: int| '0');
    assert(four_digits(n) == z + d);
    lemma_leading_zeros(z, d);
    assert forall|k: int| 0 <= k < four_digits(n).len() implies is_digit(#[trigger] four_digits(n)[k]) by {
        if k >= z.len() {
            assert(four_digits(n)[k] == d[k - z.len()]);
        }
    }
}

/// Page names sort in the order of their numbers.
pub proof fn lemma_page_names_in_number_order(a: nat, b: nat)
    requires
        a < b <= u64::MAX,
    ensures
        natural_order(page_name(a), page_name(b)) < 0,
{
    let p = seq!['p', 'a', 'g', 'e', '_'];
    let t = seq!['.', 'j', 'p', 'g'];
    assert(page_name(a) =~= p + (four_digits(a) + t));
    assert(page_name(b) =~= p + (four_digits(b) + t));
    lemma_shared_prefix(p, four_digits(a) + t, four_digits(b) + t);
    lemma_four_digits(a);
    lemma_four_digits(b);
    lemma_numbers_compare_by_value(four_digits(a), four_digits(b), t, t);
}

proof fn lemma_no_slash(s: Seq<char>)
    requires
        forall|k: int| 0 <= k < s.len() ==> #[trigger] s[k] != '/',
    ensures
        after_last_slash(s) == 0,
    decreases s.len(),
{
    if s.len() > 0 {
        lemma_no_slash(s.drop_last());
    }
}

/// Every planned page is recognised as an image.
pub proof fn lemma_page_name_is_image(n: nat)
    ensures
        is_image_name(page_name(n)),
{
    let s = page_name(n);
    let d = four_digits(n);
    lemma_four_digits(n);
    let head = seq!['p', 'a', 'g', 'e', '_'] + d;
    assert(s =~= head + seq!['.', 'j', 'p', 'g']);
    assert forall|k: int| 0 <= k < s.len() implies #[trigger] s[k] != '/' && !('A' <= s[k] <= 'Z')
        && (k < s.len() - 4 ==> s[k] != '.') by {
        if 5 <= k < 5 + d.len() {
            assert(s[k] == d[k - 5]);
        }
    }
    assert(lower_name(s) =~= s);
    lemma_no_slash(s);
    assert(s.skip(0) =~= s);
    assert(s.len() >= 13);
    assert(s != seq!['.']);
    assert(s != seq!['.', '.']);
    assert(file_name(s) == Some(s));
    let s1 = s.drop_last();
    let s2 = s1.drop_last();
    let s3 = s2.drop_last();
    assert(s.last() == 'g' && s1.last() == 'p' && s2.last() == 'j' && s3.last() == '.');
    assert(last_dot(s3) == s.len() - 4);
    assert(last_dot(s2) == s.len() - 4);
    assert(last_dot(s1) == s.len() - 4);
    assert(last_dot(s) == s.len() - 4);
    assert(s.skip(s.len() - 3) =~= seq!['j', 'p', 'g']);
    assert(extension(s) == Some(seq!['j', 'p', 'g']));
}

proof fn lemma_filter_keeps_all(s: Seq<Seq<char>>)
    requires
        forall|k: int| 0 <= k < s.len() ==> is_image_name(#[trigger] s[k]),
    ensures
        image_entries(s) == s,
    decreases s.len(),
{
    reveal_with_fuel(Seq::<_>::filter, 1);
    if s.len() > 0 {
        lemma_filter_keeps_all(s.drop_last());
        assert(s.drop_last().push(s.last()) =~= s);
    }
}

/// Opening an archive written from a fixture plan lists its pages in the
/// order they were planned: every planned name is a page, the plan order is
/// the natural order, and it is the only stable natural sort of the names.
pub proof fn lemma_fixture_opens_in_plan_order(count: nat, out: Seq<Seq<char>>)
    requires
        count <= u32::MAX,
    ensures
        image_entries(plan_names(count)) == plan_names(count),
        is_natural_sort_of(image_entries(plan_names(count)), plan_names(count)),
        is_natural_sort_of(image_entries(plan_names(count)), out) ==> out == plan_names(count),
{
    let names = plan_names(count);
    assert forall|k: int| 0 <= k < names.len() implies is_image_name(#[trigger] names[k]) by {
        lemma_page_name_is_image((k + 1) as nat);
    }
    lemma_filter_keeps_all(names);
    assert forall|k1: int, k2: int| 0 <= k1 < k2 < names.len() implies natural_order(
        #[trigger] names[k1],
        #[trigger] names[k2],
    ) < 0 by {
        lemma_page_names_in_number_order((k1 + 1) as nat, (k2 + 1) as nat);
    }
    let id = Seq::new(count, |i: int| i);
    assert(stably_sorted_by(names, names, id));
    if is_natural_sort_of(names, out) {
        lemma_natural_sort_is_unique(names, out, names);
    }
}

} // verus!
