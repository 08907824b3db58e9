//! The accent color of an add-on: the alpha-weighted mean of the RGB
//! channels of its `thumbnail.png`, written `#RRGGBB`.
//!
//! Invalid, oversized, missing and fully transparent thumbnails have no
//! color.  Reading the file is the caller's part; decoding goes through the
//! `png` crate; everything else is verified here.
use vstd::prelude::*;
use crate::text::string_push;
use png::{BitDepth, ColorType, Decoder, Transformations};
use std::io::Cursor;

verus! {

/// The thumbnail's file name inside an add-on's source root.
pub const THUMBNAIL_FILE: &'static str = "thumbnail.png";

/// Larger thumbnail files are not read.
pub const MAX_THUMBNAIL_BYTES: u64 = 8 * 1024 * 1024;

/// Wider or taller thumbnails have no color.
pub const MAX_THUMBNAIL_DIMENSION: u32 = 4096;

/// Thumbnails whose decoded pixels would take more bytes have no color.
pub const MAX_DECODED_BYTES: usize = 64 * 1024 * 1024;

/// The sample layout of decoded pixels.
#[derive(Debug, Clone, Copy, PartialEq, Eq, Structural)]
pub enum PixelLayout {
    Grayscale,
    Rgb,
    Indexed,
    GrayscaleAlpha,
    Rgba,
}

/// What the PNG header says once palette and low-bit samples are expanded
/// and 16-bit samples stripped to 8 bits.
#[derive(Debug, Clone, Copy, PartialEq, Eq, Structural)]
pub struct PngHeader {
    pub width: u32,
    pub height: u32,
    pub output_buffer_size: usize,
}

/// The first decoded frame: whether its samples have eight bits, its
/// layout and its pixel bytes.
#[derive(Debug, Clone, PartialEq, Eq)]
pub struct PngFrame {
    pub eight_bit: bool,
    pub layout: PixelLayout,
    pub data: Vec<u8>,
}

/// The header that `png::Decoder::read_info` reads from the bytes (with
/// `EXPAND | STRIP_16`): width, height and output buffer size.
pub uninterp spec fn png_header_of(bytes: Seq<u8>) -> Option<(u32, u32, usize)>;

/// The first frame that `png::Reader::next_frame` decodes from the bytes
/// (with `EXPAND | STRIP_16`): whether its samples have eight bits, its
/// layout and the frame's bytes.
pub uninterp spec fn png_frame_of(bytes: Seq<u8>) -> Option<(bool, PixelLayout, Seq<u8>)>;

/// `png::Decoder::read_info` on the bytes, with palette and low-bit
/// expansion and 16-bit stripping.  Claimed: the result is `png_header_of`
/// of the bytes (a header when, and only when, the decoder accepts them).
#[verifier::external_body]
fn png_read_info(bytes: &[u8]) -> (r: Option<PngHeader>)
    ensures
        match r {
            Some(h) => png_header_of(bytes@) == Some((h.width, h.height, h.output_buffer_size)),
            None => png_header_of(bytes@) is None,
        },
{
    let mut decoder = Decoder::new(Cursor::new(bytes));
    decoder.set_transformations(Transformations::EXPAND | Transformations::STRIP_16);
    let reader = decoder.read_info().ok()?;
    let info = reader.info();
    Some(PngHeader { width: info.width, height: info.height, output_buffer_size: reader.output_buffer_size() })
}

/// `png::Reader::next_frame` on the bytes (same transformations), into a
/// buffer of the reader's output size, cut to the frame's size; the bit
/// depth and color type are told apart variant by variant.  Claimed: the
/// result is `png_frame_of` of the bytes.
#[verifier::external_body]
fn png_next_frame(bytes: &[u8]) -> (r: Option<PngFrame>)
    ensures
        match r {
            Some(f) => png_frame_of(bytes@) == Some((f.eight_bit, f.layout, f.data@)),
            None => png_frame_of(bytes@) is None,
        },
{
    let mut decoder = Decoder::new(Cursor::new(bytes));
    decoder.set_transformations(Transformations::EXPAND | Transformations::STRIP_16);
    let mut reader = decoder.read_info().ok()?;
    let mut data = vec![0; reader.output_buffer_size()];
    let frame = reader.next_frame(&mut data).ok()?;
    data.truncate(frame.buffer_size());
    let layout = match frame.color_type {
        ColorType::Grayscale => PixelLayout::Grayscale,
        ColorType::Rgb => PixelLayout::Rgb,
        ColorType::Indexed => PixelLayout::Indexed,
        ColorType::GrayscaleAlpha => PixelLayout::GrayscaleAlpha,
        ColorType::Rgba => PixelLayout::Rgba,
    };
    Some(PngFrame { eight_bit: matches!(frame.bit_depth, BitDepth::Eight), layout, data })
}


// ---------------------------------------------------------------------------
// The mean color

/// Bytes per pixel of a layout.
pub open spec fn samples_per_pixel(layout: PixelLayout) -> nat {
    match layout {
        PixelLayout::Grayscale => 1,
        PixelLayout::GrayscaleAlpha => 2,
        PixelLayout::Rgb => 3,
        PixelLayout::Rgba => 4,
        PixelLayout::Indexed => 1,
    }
}

/// The number of whole pixels in `data`.
pub open spec fn pixel_count(layout: PixelLayout, data: Seq<u8>) -> nat {
    data.len() / samples_per_pixel(layout)
}

/// Red, green, blue and alpha of pixel `i`: gray samples stand for all
/// three channels, and a layout without alpha is opaque.
pub open spec fn pixel_at(layout: PixelLayout, data: Seq<u8>, i: int) -> (int, int, int, int) {
    let b = i * samples_per_pixel(layout);
    match layout {
        PixelLayout::Grayscale => (data[b] as int, data[b] as int, data[b] as int, 255),
        PixelLayout::GrayscaleAlpha => (data[b] as int, data[b] as int, data[b] as int, data[b + 1] as int),
        PixelLayout::Rgb => (data[b] as int, data[b + 1] as int, data[b + 2] as int, 255),
        PixelLayout::Rgba => (data[b] as int, data[b + 1] as int, data[b + 2] as int, data[b + 3] as int),
        PixelLayout::Indexed => (0, 0, 0, 0),
    }
}

/// The alpha-weighted sums of red, green and blue over the first `n`
/// pixels, and the sum of their alphas.
pub open spec fn weighted_sums(layout: PixelLayout, data: Seq<u8>, n: nat) -> (int, int, int, int)
    decreases n,
{
    if n == 0 {
        (0, 0, 0, 0)
    } else {
        let s = weighted_sums(layout, data, (n - 1) as nat);
        let p = pixel_at(layout, data, n - 1);
        (s.0 + p.0 * p.3, s.1 + p.1 * p.3, s.2 + p.2 * p.3, s.3 + p.3)
    }
}

/// `sum / alpha`, rounded half up.
pub open spec fn rounded_mean(sum: int, alpha: int) -> int {
    (sum + alpha / 2) / alpha
}

pub open spec fn hex_digits() -> Seq<char> {
    seq!['0', '1', '2', '3', '4', '5', '6', '7', '8', '9', 'A', 'B', 'C', 'D', 'E', 'F']
}

/// Two upper-case hexadecimal digits of a byte.
pub open spec fn hex_byte(v: int) -> Seq<char> {
    seq![hex_digits()[v / 16], hex_digits()[v % 16]]
}

/// `#RRGGBB`.
pub open spec fn color_text(r: int, g: int, b: int) -> Seq<char> {
    seq!['#'] + hex_byte(r) + hex_byte(g) + hex_byte(b)
}

/// The alpha-weighted mean color of the pixels, written `#RRGGBB`; none for
/// palette pixels or when every pixel is transparent.
pub open spec fn spec_average_color(layout: PixelLayout, data: Seq<u8>) -> Option<Seq<char>> {
    if layout == PixelLayout::Indexed {
        None
    } else {
        let s = weighted_sums(layout, data, pixel_count(layout, data));
        if s.3 == 0 {
            None
        } else {
            Some(color_text(rounded_mean(s.0, s.3), rounded_mean(s.1, s.3), rounded_mean(s.2, s.3)))
        }
    }
}

/// The thumbnail's color: the header must show a non-empty image of at most
/// `MAX_THUMBNAIL_DIMENSION` pixels each way whose decoded pixels fit in
/// `MAX_DECODED_BYTES`, and the frame must hold 8-bit samples.
pub open spec fn spec_thumbnail_color(bytes: Seq<u8>) -> Option<Seq<char>> {
    match png_header_of(bytes) {
        None => None,
        Some((w, h, size)) => if w == 0 || h == 0 || w > MAX_THUMBNAIL_DIMENSION || h > MAX_THUMBNAIL_DIMENSION
            || size > MAX_DECODED_BYTES {
            None
        } else {
            match png_frame_of(bytes) {
                None => None,
                Some((eight_bit, layout, data)) => if !eight_bit {
                    None
                } else {
                    spec_average_color(layout, data)
                },
            }
        },
    }
}

pub open spec fn opt_text(o: Option<String>) -> Option<Seq<char>> {
    match o {
        Some(s) => Some(s@),
        None => None,
    }
}

/// The sums over the first `n` pixels depend on their bytes alone.
proof fn lemma_sums_prefix(layout: PixelLayout, d1: Seq<u8>, d2: Seq<u8>, n: nat)
    requires
        n * samples_per_pixel(layout) <= d1.len(),
        n * samples_per_pixel(layout) <= d2.len(),
        forall|j: int| 0 <= j < n * samples_per_pixel(layout) ==> d1[j] == d2[j],
    ensures
        weighted_sums(layout, d1, n) == weighted_sums(layout, d2, n),
    decreases n,
{
    if n > 0 {
        let k = samples_per_pixel(layout);
        assert((n - 1) * k + k == n * k) by (nonlinear_arith);
        assert((n - 1) * k >= 0) by (nonlinear_arith)
            requires
                n >= 1,
                k >= 0,
        ;
        assert((n - 1) * k <= n * k) by (nonlinear_arith)
            requires
                n >= 1,
                k >= 0,
        ;
        lemma_sums_prefix(layout, d1, d2, (n - 1) as nat);
        let b: int = (n - 1) * k;
        assert(k <= 4);
        if k >= 1 {
            assert(d1[b] == d2[b]);
        }
        if k >= 2 {
            assert(d1[b + 1] == d2[b + 1]);
        }
        if k >= 3 {
            assert(d1[b + 2] == d2[b + 2]);
        }
        if k >= 4 {
            assert(d1[b + 3] == d2[b + 3]);
        }
    }
}

/// The pixel appended to `data` (whole pixels of `layout`) is the last one
/// counted, and the pixels before it keep their sums.
proof fn lemma_append_pixel(layout: PixelLayout, data: Seq<u8>, px: Seq<u8>)
    requires
        layout != PixelLayout::Indexed,
        data.len() % samples_per_pixel(layout) == 0,
        px.len() == samples_per_pixel(layout),
    ensures
        ({
            let k = samples_per_pixel(layout);
            let n = data.len() / k;
            let longer = data + px;
            &&& pixel_count(layout, longer) == n + 1
            &&& weighted_sums(layout, longer, n) == weighted_sums(layout, data, n)
            &&& n * k == data.len()
            &&& forall|j: int| 0 <= j < k ==> longer[n * k + j] == px[j]
        }),
{
    let k = samples_per_pixel(layout);
    let n = data.len() / k;
    let longer = data + px;
    assert(n * k == data.len()) by (nonlinear_arith)
        requires
            k > 0,
            data.len() % k == 0,
            n == data.len() / k,
    ;
    assert(longer.len() / k == n + 1) by (nonlinear_arith)
        requires
            k > 0,
            longer.len() == n * k + k,
    ;
    lemma_sums_prefix(layout, longer, data, n);
}

/// Each RGBA pixel counts with the weight of its own alpha byte, whatever
/// that byte is: appending the pixel `(r, g, b, a)` adds `r * a`, `g * a`
/// and `b * a` to the weighted channel sums and `a` to the total weight.
pub proof fn lemma_rgba_pixel_weighted_by_its_alpha(data: Seq<u8>, r: u8, g: u8, b: u8, a: u8)
    requires
        data.len() % 4 == 0,
    ensures
        ({
            let n = data.len() / 4;
            let longer = data + seq![r, g, b, a];
            let s = weighted_sums(PixelLayout::Rgba, data, n);
            &&& pixel_count(PixelLayout::Rgba, longer) == n + 1
            &&& weighted_sums(PixelLayout::Rgba, longer, n + 1) == (
                s.0 + r as int * a as int,
                s.1 + g as int * a as int,
                s.2 + b as int * a as int,
                s.3 + a as int,
            )
        }),
{
    let px = seq![r, g, b, a];
    lemma_append_pixel(PixelLayout::Rgba, data, px);
    let m: int = data.len() as int;
    let longer = data + px;
    assert(longer[m] == px[0] && longer[m + 1] == px[1] && longer[m + 2] == px[2] && longer[m + 3] == px[3]);
}

/// A gray pixel with alpha counts its gray value in all three channels
/// with the weight of its own alpha byte.
pub proof fn lemma_gray_alpha_pixel_weighted_by_its_alpha(data: Seq<u8>, v: u8, a: u8)
    requires
        data.len() % 2 == 0,
    ensures
        ({
            let n = data.len() / 2;
            let longer = data + seq![v, a];
            let s = weighted_sums(PixelLayout::GrayscaleAlpha, data, n);
            &&& pixel_count(PixelLayout::GrayscaleAlpha, longer) == n + 1
            &&& weighted_sums(PixelLayout::GrayscaleAlpha, longer, n + 1) == (
                s.0 + v as int * a as int,
                s.1 + v as int * a as int,
                s.2 + v as int * a as int,
                s.3 + a as int,
            )
        }),
{
    let px = seq![v, a];
    lemma_append_pixel(PixelLayout::GrayscaleAlpha, data, px);
    let m: int = data.len() as int;
    let longer = data + px;
    assert(longer[m] == px[0] && longer[m + 1] == px[1]);
}

/// Pixels without alpha are opaque: an RGB pixel adds `255` times each
/// channel and a weight of `255`; a gray pixel does so with its gray value
/// in every channel.
pub proof fn lemma_opaque_pixels_weigh_fully(data3: Seq<u8>, r: u8, g: u8, b: u8, data1: Seq<u8>, v: u8)
    requires
        data3.len() % 3 == 0,
    ensures
        ({
            let n = data3.len() / 3;
            let s = weighted_sums(PixelLayout::Rgb, data3, n);
            weighted_sums(PixelLayout::Rgb, data3 + seq![r, g, b], n + 1) == (
                s.0 + r as int * 255,
                s.1 + g as int * 255,
                s.2 + b as int * 255,
                s.3 + 255,
            )
        }),
        ({
            let n = data1.len();
            let s = weighted_sums(PixelLayout::Grayscale, data1, n);
            weighted_sums(PixelLayout::Grayscale, data1 + seq![v], n + 1) == (
                s.0 + v as int * 255,
                s.1 + v as int * 255,
                s.2 + v as int * 255,
                s.3 + 255,
            )
        }),
{
    let px = seq![r, g, b];
    lemma_append_pixel(PixelLayout::Rgb, data3, px);
    let m: int = data3.len() as int;
    let longer = data3 + px;
    assert(longer[m] == px[0] && longer[m + 1] == px[1] && longer[m + 2] == px[2]);
    let gx = seq![v];
    lemma_append_pixel(PixelLayout::Grayscale, data1, gx);
    let m1: int = data1.len() as int;
    assert((data1 + gx)[m1] == v);
}

/// Two RGBA pixels give the mean of their channels weighted by their own
/// alphas, rounded half up; nothing when both are fully transparent.
pub proof fn lemma_rgba_two_pixel_color(r1: u8, g1: u8, b1: u8, a1: u8, r2: u8, g2: u8, b2: u8, a2: u8)
    ensures
        ({
            let w = a1 as int + a2 as int;
            spec_average_color(PixelLayout::Rgba, seq![r1, g1, b1, a1, r2, g2, b2, a2]) == if w == 0 {
                None
            } else {
                Some(
                    color_text(
                        (r1 as int * a1 as int + r2 as int * a2 as int + w / 2) / w,
                        (g1 as int * a1 as int + g2 as int * a2 as int + w / 2) / w,
                        (b1 as int * a1 as int + b2 as int * a2 as int + w / 2) / w,
                    ),
                )
            }
        }),
{
    let first = seq![r1, g1, b1, a1];
    let both = seq![r1, g1, b1, a1, r2, g2, b2, a2];
    assert(Seq::<u8>::empty() + first =~= first);
    assert(first + seq![r2, g2, b2, a2] =~= both);
    assert(weighted_sums(PixelLayout::Rgba, Seq::<u8>::empty(), 0) == (0int, 0int, 0int, 0int));
    lemma_rgba_pixel_weighted_by_its_alpha(Seq::<u8>::empty(), r1, g1, b1, a1);
    lemma_rgba_pixel_weighted_by_its_alpha(first, r2, g2, b2, a2);
    assert(pixel_count(PixelLayout::Rgba, both) == 2);
}

pub proof fn lemma_pixel_in_bounds(k: int, n: int, len: int, i: int)
    by (nonlinear_arith)
    requires
        k > 0,
        n == len / k,
        0 <= i < n,
        len >= 0,
    ensures
        i * k + k <= len,
        0 <= i * k,
{
}

pub proof fn lemma_mean_is_byte(sum: int, alpha: int)
    by (nonlinear_arith)
    requires
        0 <= sum <= 255 * alpha,
        alpha > 0,
    ensures
        0 <= rounded_mean(sum, alpha) <= 255,
{
}

pub proof fn lemma_weighted_step(sum: int, alpha: int, c: int, a: int)
    by (nonlinear_arith)
    requires
        0 <= sum <= 255 * alpha,
        0 <= c <= 255,
        0 <= a <= 255,
    ensures
        0 <= sum + c * a <= 255 * (alpha + a),
        0 <= c * a <= 65025,
{
}

/// The value of an upper-case hexadecimal digit.
pub open spec fn upper_hex_value(c: char) -> int {
    if '0' <= c <= '9' {
        c as int - '0' as int
    } else if 'A' <= c <= 'F' {
        c as int - 'A' as int + 10
    } else {
        -1
    }
}

/// The color text is `#` and then red, green and blue, each as two
/// upper-case hexadecimal digits that read back as the channel's value.
pub proof fn lemma_color_text_reads_back(r: int, g: int, b: int)
    requires
        0 <= r <= 255,
        0 <= g <= 255,
        0 <= b <= 255,
    ensures
        ({
            let t = color_text(r, g, b);
            &&& t.len() == 7
            &&& t[0] == '#'
            &&& upper_hex_value(t[1]) * 16 + upper_hex_value(t[2]) == r
            &&& upper_hex_value(t[3]) * 16 + upper_hex_value(t[4]) == g
            &&& upper_hex_value(t[5]) * 16 + upper_hex_value(t[6]) == b
            &&& forall|i: int| 1 <= i < 7 ==> 0 <= #[trigger] upper_hex_value(t[i]) < 16
        }),
{
    assert forall|d: int| 0 <= d < 16 implies upper_hex_value(#[trigger] hex_digits()[d]) == d by {
        assert(hex_digits()[d] == seq!['0', '1', '2', '3', '4', '5', '6', '7', '8', '9', 'A', 'B', 'C', 'D', 'E', 'F'][d]);
        if d == 0 { assert(hex_digits()[d] == '0'); }
        else if d == 1 { assert(hex_digits()[d] == '1'); }
        else if d == 2 { assert(hex_digits()[d] == '2'); }
        else if d == 3 { assert(hex_digits()[d] == '3'); }
        else if d == 4 { assert(hex_digits()[d] == '4'); }
        else if d == 5 { assert(hex_digits()[d] == '5'); }
        else if d == 6 { assert(hex_digits()[d] == '6'); }
        else if d == 7 { assert(hex_digits()[d] == '7'); }
        else if d == 8 { assert(hex_digits()[d] == '8'); }
        else if d == 9 { assert(hex_digits()[d] == '9'); }
        else if d == 10 { assert(hex_digits()[d] == 'A'); }
        else if d == 11 { assert(hex_digits()[d] == 'B'); }
        else if d == 12 { assert(hex_digits()[d] == 'C'); }
        else if d == 13 { assert(hex_digits()[d] == 'D'); }
        else if d == 14 { assert(hex_digits()[d] == 'E'); }
        else { assert(hex_digits()[d] == 'F'); }
    }
    let t = color_text(r, g, b);
    assert(t =~= seq!['#', hex_digits()[r / 16], hex_digits()[r % 16], hex_digits()[g / 16], hex_digits()[g % 16],
        hex_digits()[b / 16], hex_digits()[b % 16]]);
    assert(upper_hex_value(hex_digits()[r / 16]) == r / 16);
    assert(upper_hex_value(hex_digits()[r % 16]) == r % 16);
    assert(upper_hex_value(hex_digits()[g / 16]) == g / 16);
    assert(upper_hex_value(hex_digits()[g % 16]) == g % 16);
    assert(upper_hex_value(hex_digits()[b / 16]) == b / 16);
    assert(upper_hex_value(hex_digits()[b % 16]) == b % 16);
}

fn push_hex_byte(out: &mut String, v: u8)
    ensures
        final(out)@ == old(out)@ + hex_byte(v as int),
{
    let digits = ['0', '1', '2', '3', '4', '5', '6', '7', '8', '9', 'A', 'B', 'C', 'D', 'E', 'F'];
    assert(digits@ == hex_digits());
    let hi = digits[(v / 16) as usize];
    let lo = digits[(v % 16) as usize];
    string_push(out, hi);
    string_push(out, lo);
    assert(final(out)@ =~= old(out)@ + hex_byte(v as int)) by {
        assert(hex_byte(v as int) =~= seq![hi, lo]);
    }
}

/// The alpha-weighted mean color of decoded pixels (see
/// `spec_average_color`).
pub fn average_color(layout: PixelLayout, data: &[u8]) -> (r: Option<String>)
    ensures
        opt_text(r) == spec_average_color(layout, data@),
{
    let k: usize = match layout {
        PixelLayout::Grayscale => 1,
        PixelLayout::GrayscaleAlpha => 2,
        PixelLayout::Rgb => 3,
        PixelLayout::Rgba => 4,
        PixelLayout::Indexed => return None,
    };
    let n = data.len() / k;
    let mut red: u128 = 0;
    let mut green: u128 = 0;
    let mut blue: u128 = 0;
    let mut alpha: u128 = 0;
    let mut i: usize = 0;
    while i < n
        invariant
            k as nat == samples_per_pixel(layout),
            layout != PixelLayout::Indexed,
            n as int == (data@.len() as int) / (k as int),
            i <= n,
            (red as int, green as int, blue as int, alpha as int) == weighted_sums(layout, data@, i as nat),
            red <= 255 * alpha,
            green <= 255 * alpha,
            blue <= 255 * alpha,
            alpha <= 255 * i,
        decreases n - i,
    {
        proof {
            lemma_pixel_in_bounds(k as int, n as int, data@.len() as int, i as int);
            assert((i as int) * (k as int) <= data@.len());
            assert(data@.len() == data.len());
            assert((i as int) * (k as int) <= usize::MAX);
        }
        let b = i * k;
        let (r, g, bl, a): (u8, u8, u8, u8) = match layout {
            PixelLayout::Grayscale => (data[b], data[b], data[b], 255),
            PixelLayout::GrayscaleAlpha => (data[b], data[b], data[b], data[b + 1]),
            PixelLayout::Rgb => (data[b], data[b + 1], data[b + 2], 255),
            _ => (data[b], data[b + 1], data[b + 2], data[b + 3]),
        };
        assert(pixel_at(layout, data@, i as int) == (r as int, g as int, bl as int, a as int));
        proof {
            lemma_weighted_step(red as int, alpha as int, r as int, a as int);
            lemma_weighted_step(green as int, alpha as int, g as int, a as int);
            lemma_weighted_step(blue as int, alpha as int, bl as int, a as int);
        }
        red = red + (r as u128) * (a as u128);
        green = green + (g as u128) * (a as u128);
        blue = blue + (bl as u128) * (a as u128);
        alpha = alpha + a as u128;
        i = i + 1;
    }
    if alpha == 0 {
        return None;
    }
    proof {
        lemma_mean_is_byte(red as int, alpha as int);
        lemma_mean_is_byte(green as int, alpha as int);
        lemma_mean_is_byte(blue as int, alpha as int);
    }
    let r = ((red + alpha / 2) / alpha) as u8;
    let g = ((green + alpha / 2) / alpha) as u8;
    let b = ((blue + alpha / 2) / alpha) as u8;
    let mut out = String::new();
    string_push(&mut out, '#');
    push_hex_byte(&mut out, r);
    push_hex_byte(&mut out, g);
    push_hex_byte(&mut out, b);
    assert(out@ =~= color_text(r as int, g as int, b as int));
    Some(out)
}

/// Whether a thumbnail file of `file_len` bytes is small enough to read.
pub fn thumbnail_size_acceptable(file_len: u64) -> (r: bool)
    ensures
        r == (file_len <= MAX_THUMBNAIL_BYTES),
{
    file_len <= MAX_THUMBNAIL_BYTES
}

/// The accent color of a thumbnail from its PNG bytes (see
/// `spec_thumbnail_color`).
pub fn thumbnail_color_from_png(bytes: &[u8]) -> (r: Option<String>)
    ensures
        opt_text(r) == spec_thumbnail_color(bytes@),
{
    let header = match png_read_info(bytes) {
        Some(h) => h,
        None => return None,
    };
    if header.width == 0 || header.height == 0 || header.width > MAX_THUMBNAIL_DIMENSION
        || header.height > MAX_THUMBNAIL_DIMENSION || header.output_buffer_size > MAX_DECODED_BYTES {
        return None;
    }
    let frame = match png_next_frame(bytes) {
        Some(f) => f,
        None => return None,
    };
    if !frame.eight_bit {
        return None;
    }
    average_color(frame.layout, frame.data.as_slice())
}

} // verus!
