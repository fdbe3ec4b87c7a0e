use vstd::prelude::*;

use super::decode::{
    decode_row, decode_rows, gamma_colour, grey8_pixel, grey8_row, packed_byte, packed_row, palette8_row, rgb_bytes,
    rgb_filtered, rgb_raw, rgb_row, sample_at, scale_sample,
};
use super::image::{colourRGBA, ImageView, opaque_black};
use super::interlace::{adam7_pass, adam7_passes, on_pass, pass_col, pass_extent, pass_row, place_pass};
use super::png::{read_chunks, read_png, zlib_inflated};
use super::scanlines::{data_of, header_of};
use vstd::arithmetic::div_mod::{
    lemma_div_pos_is_pos, lemma_fundamental_div_mod, lemma_fundamental_div_mod_converse, lemma_mod_pos_bound,
};

verus! {

/// The colour types and depths whose rows decode to exactly `width`
/// pixels: truecolour with or without alpha, and eight-bit greyscale and
/// palette images.
pub open spec fn whole_rows(img: ImageView) -> bool {
    ||| img.colourType == 2
    ||| img.colourType == 6
    ||| (img.colourType == 0 || img.colourType == 3) && img.depth == 8
}

proof fn lemma_grey8_row_len(bytes: Seq<u8>, pos: int, width: int, filter: u8, j: int, px: Seq<colourRGBA>)
    requires
        j <= width,
        grey8_row(bytes, pos, width, filter, j, px) is Some,
    ensures
        grey8_row(bytes, pos, width, filter, j, px).unwrap().1.len() == px.len() + width - j,
    decreases width - j,
{
    if j < width {
        lemma_grey8_row_len(bytes, pos + 1, width, filter, j + 1, px.push(grey8_pixel(filter, bytes[pos], j, width, px)));
    }
}

proof fn lemma_palette8_row_len(img: ImageView, bytes: Seq<u8>, pos: int, width: int, j: int, px: Seq<colourRGBA>)
    requires
        j <= width,
        palette8_row(img, bytes, pos, width, j, px) is Some,
    ensures
        palette8_row(img, bytes, pos, width, j, px).unwrap().1.len() == px.len() + width - j,
    decreases width - j,
{
    if j < width {
        lemma_palette8_row_len(img, bytes, pos + 1, width, j + 1, px.push(img.colourPalette[bytes[pos] as int]));
    }
}

proof fn lemma_rgb_row_len(
    img: ImageView,
    curve: Seq<u8>,
    bytes: Seq<u8>,
    pos: int,
    width: int,
    filter: u8,
    j: int,
    px: Seq<colourRGBA>,
)
    requires
        j <= width,
        rgb_row(img, curve, bytes, pos, width, filter, j, px) is Some,
    ensures
        rgb_row(img, curve, bytes, pos, width, filter, j, px).unwrap().1.len() == px.len() + width - j,
    decreases width - j,
{
    if j < width {
        let c = rgb_filtered(filter, rgb_raw(img, bytes, pos), j, width, px).unwrap();
        lemma_rgb_row_len(
            img,
            curve,
            bytes,
            pos + rgb_bytes(img),
            width,
            filter,
            j + 1,
            px.push(gamma_colour(img, curve, c)),
        );
    }
}

proof fn lemma_decode_rows_len(
    img: ImageView,
    curve: Seq<u8>,
    bytes: Seq<u8>,
    pos: int,
    width: u32,
    rows: int,
    px: Seq<colourRGBA>,
)
    requires
        whole_rows(img),
        rows >= 0,
        decode_rows(img, curve, bytes, pos, width, rows, px) is Some,
    ensures
        decode_rows(img, curve, bytes, pos, width, rows, px).unwrap().1.len() == px.len() + rows * width,
    decreases rows,
{
    if rows > 0 {
        let (next, px2) = decode_row(img, curve, bytes, pos + 1, width, bytes[pos], px).unwrap();
        if img.colourType == 0 {
            lemma_grey8_row_len(bytes, pos + 1, width as int, bytes[pos], 0, px);
        } else if img.colourType == 3 {
            lemma_palette8_row_len(img, bytes, pos + 1, width as int, 0, px);
        } else {
            lemma_rgb_row_len(img, curve, bytes, pos + 1, width as int, bytes[pos], 0, px);
        }
        lemma_decode_rows_len(img, curve, bytes, next, width, rows - 1, px2);
        assert(px.len() + width + (rows - 1) * width == px.len() + rows * width) by (nonlinear_arith);
    } else {
        assert(rows * width == 0) by (nonlinear_arith)
            requires
                rows == 0,
        ;
    }
}

proof fn lemma_adam7_passes_len(
    img: ImageView,
    curve: Seq<u8>,
    bytes: Seq<u8>,
    pos: int,
    pass: int,
    canvas: Seq<colourRGBA>,
)
    requires
        adam7_passes(img, curve, bytes, pos, pass, canvas) is Some,
    ensures
        adam7_passes(img, curve, bytes, pos, pass, canvas).unwrap().len() == canvas.len(),
    decreases 7 - pass,
{
    if pass < 7 {
        let (xs, ys, xstep, ystep) = adam7_pass(pass);
        let pw = pass_extent(img.width, xs, xstep).unwrap();
        let ph = pass_extent(img.height, ys, ystep).unwrap();
        if pw == 0 || ph == 0 {
            lemma_adam7_passes_len(img, curve, bytes, pos, pass + 1, canvas);
        } else {
            let (next, pass_px) = decode_rows(img, curve, bytes, pos, pw, ph as int, Seq::empty()).unwrap();
            lemma_adam7_passes_len(
                img,
                curve,
                bytes,
                next,
                pass + 1,
                place_pass(canvas, img.width, pass_px, pw, ph, xs, ys, xstep, ystep),
            );
        }
    }
}

/// A decoded image has `width * height` pixels when it is interlaced, and
/// when its rows decode to whole rows (truecolour, or eight-bit greyscale
/// or palette).
pub proof fn decoded_image_is_full(bytes: Seq<u8>, curve: Seq<u8>)
    requires
        read_png(bytes, curve) is Ok,
        read_png(bytes, curve)->Ok_0.interlace == 1 || whole_rows(read_png(bytes, curve)->Ok_0),
    ensures
        read_png(bytes, curve)->Ok_0.pixels.len() == read_png(bytes, curve)->Ok_0.width * read_png(
            bytes,
            curve,
        )->Ok_0.height,
{
    let (img, idat) = read_chunks(bytes).unwrap();
    let data = zlib_inflated(idat).unwrap();
    if img.interlace == 1 {
        lemma_adam7_passes_len(
            img,
            curve,
            data,
            0,
            0,
            Seq::new((img.width * img.height) as nat, |k: int| opaque_black()),
        );
    } else {
        lemma_decode_rows_len(img, curve, data, 0, img.width, img.height as int, Seq::empty());
        assert(img.height * img.width == img.width * img.height) by (nonlinear_arith);
    }
}


/// The bytes per pixel of an image with whole rows: one for eight-bit
/// greyscale and palette images, three or four for truecolour.
pub open spec fn pixel_bytes(img: ImageView) -> int {
    if img.colourType == 0 || img.colourType == 3 { 1 } else { rgb_bytes(img) }
}

proof fn lemma_grey8_row_pos(bytes: Seq<u8>, pos: int, width: int, filter: u8, j: int, px: Seq<colourRGBA>)
    requires
        j <= width,
        grey8_row(bytes, pos, width, filter, j, px) is Some,
    ensures
        grey8_row(bytes, pos, width, filter, j, px).unwrap().0 == pos + width - j,
    decreases width - j,
{
    if j < width {
        lemma_grey8_row_pos(bytes, pos + 1, width, filter, j + 1, px.push(grey8_pixel(filter, bytes[pos], j, width, px)));
    }
}

proof fn lemma_palette8_row_pos(img: ImageView, bytes: Seq<u8>, pos: int, width: int, j: int, px: Seq<colourRGBA>)
    requires
        j <= width,
        palette8_row(img, bytes, pos, width, j, px) is Some,
    ensures
        palette8_row(img, bytes, pos, width, j, px).unwrap().0 == pos + width - j,
    decreases width - j,
{
    if j < width {
        lemma_palette8_row_pos(img, bytes, pos + 1, width, j + 1, px.push(img.colourPalette[bytes[pos] as int]));
    }
}

proof fn lemma_rgb_row_pos(
    img: ImageView,
    curve: Seq<u8>,
    bytes: Seq<u8>,
    pos: int,
    width: int,
    filter: u8,
    j: int,
    px: Seq<colourRGBA>,
)
    requires
        j <= width,
        rgb_row(img, curve, bytes, pos, width, filter, j, px) is Some,
    ensures
        rgb_row(img, curve, bytes, pos, width, filter, j, px).unwrap().0 == pos + (width - j) * rgb_bytes(img),
    decreases width - j,
{
    if j < width {
        let c = rgb_filtered(filter, rgb_raw(img, bytes, pos), j, width, px).unwrap();
        lemma_rgb_row_pos(
            img,
            curve,
            bytes,
            pos + rgb_bytes(img),
            width,
            filter,
            j + 1,
            px.push(gamma_colour(img, curve, c)),
        );
        assert(pos + rgb_bytes(img) + (width - (j + 1)) * rgb_bytes(img) == pos + (width - j) * rgb_bytes(img))
            by (nonlinear_arith);
    } else {
        assert((width - j) * rgb_bytes(img) == 0) by (nonlinear_arith)
            requires
                j == width,
        ;
    }
}

/// Rows of whole pixels take one filter byte and `width` pixels' bytes
/// each: decoding `rows` rows from `pos` ends at
/// `pos + rows * (1 + width * pixel_bytes)`.
pub proof fn whole_rows_consume_scanlines(
    img: ImageView,
    curve: Seq<u8>,
    bytes: Seq<u8>,
    pos: int,
    width: u32,
    rows: int,
    px: Seq<colourRGBA>,
)
    requires
        whole_rows(img),
        rows >= 0,
        decode_rows(img, curve, bytes, pos, width, rows, px) is Some,
    ensures
        decode_rows(img, curve, bytes, pos, width, rows, px).unwrap().0 == pos + rows * (1 + width * pixel_bytes(
            img,
        )),
    decreases rows,
{
    if rows > 0 {
        let (next, px2) = decode_row(img, curve, bytes, pos + 1, width, bytes[pos], px).unwrap();
        if img.colourType == 0 {
            lemma_grey8_row_pos(bytes, pos + 1, width as int, bytes[pos], 0, px);
            assert(width * pixel_bytes(img) == width);
        } else if img.colourType == 3 {
            lemma_palette8_row_pos(img, bytes, pos + 1, width as int, 0, px);
            assert(width * pixel_bytes(img) == width);
        } else {
            lemma_rgb_row_pos(img, curve, bytes, pos + 1, width as int, bytes[pos], 0, px);
            assert(width * pixel_bytes(img) == (width - 0) * rgb_bytes(img));
        }
        assert(next == pos + 1 + width * pixel_bytes(img));
        whole_rows_consume_scanlines(img, curve, bytes, next, width, rows - 1, px2);
        assert(next + (rows - 1) * (1 + width * pixel_bytes(img)) == pos + rows * (1 + width * pixel_bytes(img)))
            by (nonlinear_arith)
            requires
                next == pos + 1 + width * pixel_bytes(img),
        ;
    } else {
        assert(rows * (1 + width * pixel_bytes(img)) == 0) by (nonlinear_arith)
            requires
                rows == 0,
        ;
    }
}

/// Images whose pixels do not go through gamma correction: those without a
/// gamma, and those that are not truecolour.
pub open spec fn gamma_free(img: ImageView) -> bool {
    img.gamma is None || (img.colourType != 2 && img.colourType != 6)
}

proof fn lemma_rgb_row_curve(
    img: ImageView,
    c1: Seq<u8>,
    c2: Seq<u8>,
    bytes: Seq<u8>,
    pos: int,
    width: int,
    filter: u8,
    j: int,
    px: Seq<colourRGBA>,
)
    requires
        img.gamma is None,
    ensures
        rgb_row(img, c1, bytes, pos, width, filter, j, px) == rgb_row(img, c2, bytes, pos, width, filter, j, px),
    decreases width - j,
{
    if j < width && pos >= 0 && pos + rgb_bytes(img) <= bytes.len() {
        if let Some(c) = rgb_filtered(filter, rgb_raw(img, bytes, pos), j, width, px) {
            assert(gamma_colour(img, c1, c) == gamma_colour(img, c2, c));
            lemma_rgb_row_curve(
                img,
                c1,
                c2,
                bytes,
                pos + rgb_bytes(img),
                width,
                filter,
                j + 1,
                px.push(gamma_colour(img, c1, c)),
            );
        }
    }
}

proof fn lemma_decode_rows_curve(
    img: ImageView,
    c1: Seq<u8>,
    c2: Seq<u8>,
    bytes: Seq<u8>,
    pos: int,
    width: u32,
    rows: int,
    px: Seq<colourRGBA>,
)
    requires
        gamma_free(img),
    ensures
        decode_rows(img, c1, bytes, pos, width, rows, px) == decode_rows(img, c2, bytes, pos, width, rows, px),
    decreases rows,
{
    if rows > 0 && pos >= 0 && pos < bytes.len() {
        if img.colourType == 2 || img.colourType == 6 {
            lemma_rgb_row_curve(img, c1, c2, bytes, pos + 1, width as int, bytes[pos], 0, px);
        }
        assert(decode_row(img, c1, bytes, pos + 1, width, bytes[pos], px) == decode_row(
            img,
            c2,
            bytes,
            pos + 1,
            width,
            bytes[pos],
            px,
        ));
        if let Some((next, px2)) = decode_row(img, c1, bytes, pos + 1, width, bytes[pos], px) {
            lemma_decode_rows_curve(img, c1, c2, bytes, next, width, rows - 1, px2);
        }
    }
}

proof fn lemma_adam7_passes_curve(
    img: ImageView,
    c1: Seq<u8>,
    c2: Seq<u8>,
    bytes: Seq<u8>,
    pos: int,
    pass: int,
    canvas: Seq<colourRGBA>,
)
    requires
        gamma_free(img),
    ensures
        adam7_passes(img, c1, bytes, pos, pass, canvas) == adam7_passes(img, c2, bytes, pos, pass, canvas),
    decreases 7 - pass,
{
    if pass < 7 {
        let (xs, ys, xstep, ystep) = adam7_pass(pass);
        match (
            pass_extent(img.width, xs, xstep),
            pass_extent(img.height, ys, ystep),
        ) {
            (Some(pw), Some(ph)) => {
                if pw == 0 || ph == 0 {
                    lemma_adam7_passes_curve(img, c1, c2, bytes, pos, pass + 1, canvas);
                } else {
                    lemma_decode_rows_curve(img, c1, c2, bytes, pos, pw, ph as int, Seq::empty());
                    if let Some((next, pass_px)) = decode_rows(img, c1, bytes, pos, pw, ph as int, Seq::empty()) {
                        lemma_adam7_passes_curve(
                            img,
                            c1,
                            c2,
                            bytes,
                            next,
                            pass + 1,
                            place_pass(canvas, img.width, pass_px, pw, ph, xs, ys, xstep, ystep),
                        );
                    }
                }
            },
            _ => {},
        }
    }
}

/// The gamma curve given to the decoder matters only for truecolour images
/// with a gamma: for any other file, any two curves give the same result.
pub proof fn gamma_curve_unused_without_gamma(bytes: Seq<u8>, c1: Seq<u8>, c2: Seq<u8>)
    requires
        read_chunks(bytes) matches Some((img, _)) ==> gamma_free(img),
    ensures
        read_png(bytes, c1) == read_png(bytes, c2),
{
    if let Some((img, idat)) = read_chunks(bytes) {
        if let Some(data) = zlib_inflated(idat) {
            if img.interlace == 1 {
                lemma_adam7_passes_curve(
                    img,
                    c1,
                    c2,
                    data,
                    0,
                    0,
                    Seq::new((img.width * img.height) as nat, |k: int| opaque_black()),
                );
            } else {
                lemma_decode_rows_curve(img, c1, c2, data, 0, img.width, img.height as int, Seq::empty());
            }
        }
    }
}


/// Whether the pixel at column `x` and row `y` belongs to Adam7 pass `pass`.
pub open spec fn in_adam7_pass(pass: int, x: int, y: int) -> bool {
    let (xs, ys, xstep, ystep) = adam7_pass(pass);
    x >= xs && (x - xs) % (xstep as int) == 0 && y >= ys && (y - ys) % (ystep as int) == 0
}

proof fn lemma_axis_2(x: int, start: int)
    requires
        x >= 0,
        0 <= start < 2,
    ensures
        (x >= start && (x - start) % 2 == 0) <==> (x % 8) % 2 == start,
{
}

proof fn lemma_axis_4(x: int, start: int)
    requires
        x >= 0,
        0 <= start < 4,
    ensures
        (x >= start && (x - start) % 4 == 0) <==> (x % 8) % 4 == start,
{
}

proof fn lemma_axis_8(x: int, start: int)
    requires
        x >= 0,
        0 <= start < 8,
    ensures
        (x >= start && (x - start) % 8 == 0) <==> (x % 8) % 8 == start,
{
}

/// Membership of a coordinate in a pass's columns (rows) depends on the
/// coordinate modulo 8 only.
proof fn lemma_axis(x: int, start: int, step: int)
    requires
        x >= 0,
        0 <= start < step,
        step == 1 || step == 2 || step == 4 || step == 8,
    ensures
        (x >= start && (x - start) % step == 0) <==> (x % 8) % step == start,
{
    if step == 1 {
        assert((x - start) % 1 == 0);
        assert((x % 8) % 1 == 0);
    } else if step == 2 {
        lemma_axis_2(x, start);
    } else if step == 4 {
        lemma_axis_4(x, start);
    } else {
        lemma_axis_8(x, start);
    }
}

proof fn lemma_in_pass_mod(pass: int, x: int, y: int)
    requires
        x >= 0,
        y >= 0,
        0 <= pass < 7,
    ensures
        in_adam7_pass(pass, x, y) <==> {
            let (xs, ys, xstep, ystep) = adam7_pass(pass);
            (x % 8) % (xstep as int) == xs && (y % 8) % (ystep as int) == ys
        },
{
    let (xs, ys, xstep, ystep) = adam7_pass(pass);
    lemma_axis(x, xs as int, xstep as int);
    lemma_axis(y, ys as int, ystep as int);
}

/// The seven Adam7 passes partition the pixels: each pixel position belongs
/// to exactly one pass.
pub proof fn adam7_passes_partition(x: int, y: int)
    requires
        x >= 0,
        y >= 0,
    ensures
        exists|p: int| 0 <= p < 7 && #[trigger] in_adam7_pass(p, x, y),
        forall|p: int, q: int|
            0 <= p < 7 && 0 <= q < 7 && #[trigger] in_adam7_pass(p, x, y) && #[trigger] in_adam7_pass(q, x, y)
                ==> p == q,
{
    lemma_in_pass_mod(0, x, y);
    lemma_in_pass_mod(1, x, y);
    lemma_in_pass_mod(2, x, y);
    lemma_in_pass_mod(3, x, y);
    lemma_in_pass_mod(4, x, y);
    lemma_in_pass_mod(5, x, y);
    lemma_in_pass_mod(6, x, y);
    let a = x % 8;
    let b = y % 8;
    assert(0 <= a < 8 && 0 <= b < 8);
    if a == 0 && b == 0 {
        assert(in_adam7_pass(0, x, y));
    } else if a == 4 && b == 0 {
        assert(in_adam7_pass(1, x, y));
    } else if a % 4 == 0 && b == 4 {
        assert(in_adam7_pass(2, x, y));
    } else if a % 4 == 2 && b % 4 == 0 {
        assert(in_adam7_pass(3, x, y));
    } else if a % 2 == 0 && b % 4 == 2 {
        assert(in_adam7_pass(4, x, y));
    } else if a % 2 == 1 && b % 2 == 0 {
        assert(in_adam7_pass(5, x, y));
    } else {
        assert(in_adam7_pass(6, x, y));
    }
}


/// A pixel that a greyscale or palette image can decode to: a grey (equal
/// colour channels, opaque) for colour type 0, an entry of the palette for
/// colour type 3.
pub open spec fn index_pixel(img: ImageView, c: colourRGBA) -> bool {
    if img.colourType == 0 {
        c.R == c.G && c.G == c.B && c.A == 255
    } else {
        img.colourPalette.contains(c)
    }
}

/// Every pixel is one that the image can decode to.
pub open spec fn all_index_pixels(img: ImageView, px: Seq<colourRGBA>) -> bool {
    forall|k: int| 0 <= k < px.len() ==> index_pixel(img, #[trigger] px[k])
}

proof fn lemma_grey8_row_grey(
    img: ImageView,
    bytes: Seq<u8>,
    pos: int,
    width: int,
    filter: u8,
    j: int,
    px: Seq<colourRGBA>,
)
    requires
        img.colourType == 0,
        all_index_pixels(img, px),
        grey8_row(bytes, pos, width, filter, j, px) is Some,
    ensures
        all_index_pixels(img, grey8_row(bytes, pos, width, filter, j, px).unwrap().1),
    decreases width - j,
{
    if j < width {
        let px2 = px.push(grey8_pixel(filter, bytes[pos], j, width, px));
        assert(all_index_pixels(img, px2)) by {
            assert forall|k: int| 0 <= k < px2.len() implies index_pixel(img, #[trigger] px2[k]) by {
                if k < px.len() {
                    assert(px2[k] == px[k]);
                }
            }
        }
        lemma_grey8_row_grey(img, bytes, pos + 1, width, filter, j + 1, px2);
    }
}

proof fn lemma_palette8_row_entries(
    img: ImageView,
    bytes: Seq<u8>,
    pos: int,
    width: int,
    j: int,
    px: Seq<colourRGBA>,
)
    requires
        img.colourType == 3,
        all_index_pixels(img, px),
        palette8_row(img, bytes, pos, width, j, px) is Some,
    ensures
        all_index_pixels(img, palette8_row(img, bytes, pos, width, j, px).unwrap().1),
    decreases width - j,
{
    if j < width {
        let c = img.colourPalette[bytes[pos] as int];
        let px2 = px.push(c);
        assert(img.colourPalette.contains(c));
        assert(all_index_pixels(img, px2)) by {
            assert forall|k: int| 0 <= k < px2.len() implies index_pixel(img, #[trigger] px2[k]) by {
                if k < px.len() {
                    assert(px2[k] == px[k]);
                }
            }
        }
        lemma_palette8_row_entries(img, bytes, pos + 1, width, j + 1, px2);
    }
}

proof fn lemma_packed_byte_entries(img: ImageView, byte: u8, j: int, limit: int, px: Seq<colourRGBA>)
    requires
        img.colourType == 0 || img.colourType == 3,
        all_index_pixels(img, px),
        packed_byte(img, byte, j, limit, px) is Some,
    ensures
        all_index_pixels(img, packed_byte(img, byte, j, limit, px).unwrap()),
    decreases (if j >= 8 { 0 } else { 8 - j }),
{
    if img.depth != 0 && j < 8 {
        if j < limit {
            let sample = sample_at(byte, img.depth, j);
            let c = if img.colourType == 0 {
                let level = scale_sample(sample, img.depth);
                colourRGBA { R: level, G: level, B: level, A: 255 }
            } else {
                img.colourPalette[sample as int]
            };
            let px2 = px.push(c);
            if img.colourType == 3 {
                assert(img.colourPalette.contains(c));
            }
            assert(all_index_pixels(img, px2)) by {
                assert forall|k: int| 0 <= k < px2.len() implies index_pixel(img, #[trigger] px2[k]) by {
                    if k < px.len() {
                        assert(px2[k] == px[k]);
                    }
                }
            }
            lemma_packed_byte_entries(img, byte, j + img.depth, limit, px2);
        } else {
            lemma_packed_byte_entries(img, byte, j + img.depth, limit, px);
        }
    }
}

proof fn lemma_packed_row_entries(
    img: ImageView,
    bytes: Seq<u8>,
    pos: int,
    nbytes: int,
    k: int,
    limit: int,
    px: Seq<colourRGBA>,
)
    requires
        img.colourType == 0 || img.colourType == 3,
        all_index_pixels(img, px),
        packed_row(img, bytes, pos, nbytes, k, limit, px) is Some,
    ensures
        all_index_pixels(img, packed_row(img, bytes, pos, nbytes, k, limit, px).unwrap().1),
    decreases nbytes - k,
{
    if k < nbytes {
        lemma_packed_byte_entries(img, bytes[pos], 0, limit, px);
        let px2 = packed_byte(img, bytes[pos], 0, limit, px).unwrap();
        lemma_packed_row_entries(img, bytes, pos + 1, nbytes, k + 1, limit, px2);
    }
}

proof fn lemma_decode_rows_entries(
    img: ImageView,
    curve: Seq<u8>,
    bytes: Seq<u8>,
    pos: int,
    width: u32,
    rows: int,
    px: Seq<colourRGBA>,
)
    requires
        img.colourType == 0 || img.colourType == 3,
        all_index_pixels(img, px),
        decode_rows(img, curve, bytes, pos, width, rows, px) is Some,
    ensures
        all_index_pixels(img, decode_rows(img, curve, bytes, pos, width, rows, px).unwrap().1),
    decreases rows,
{
    if rows > 0 {
        let filter = bytes[pos];
        if img.depth != 8 {
            lemma_packed_row_entries(
                img,
                bytes,
                pos + 1,
                (width * img.depth + 7) / 8,
                0,
                width * img.depth,
                px,
            );
        } else if img.colourType == 0 {
            lemma_grey8_row_grey(img, bytes, pos + 1, width as int, filter, 0, px);
        } else {
            lemma_palette8_row_entries(img, bytes, pos + 1, width as int, 0, px);
        }
        let (next, px2) = decode_row(img, curve, bytes, pos + 1, width, filter, px).unwrap();
        lemma_decode_rows_entries(img, curve, bytes, next, width, rows - 1, px2);
    }
}

/// Whether the pixel at column `x` and row `y` belongs to one of the first
/// `n` Adam7 passes.
pub open spec fn covered(n: int, x: int, y: int) -> bool
    decreases n,
{
    if n <= 0 {
        false
    } else {
        covered(n - 1, x, y) || in_adam7_pass(n - 1, x, y)
    }
}

/// A coordinate of a pass inside the image has a pass index below the
/// pass's extent.
proof fn lemma_coord_in_extent(size: int, start: int, step: int, x: int)
    requires
        0 <= start < step,
        start <= x < size,
        (x - start) % step == 0,
    ensures
        0 <= (x - start) / step < (size + step - 1 - start) / step,
{
    let c = (x - start) / step;
    let n = size + step - 1 - start;
    lemma_fundamental_div_mod(x - start, step);
    lemma_fundamental_div_mod(n, step);
    lemma_mod_pos_bound(n, step);
    lemma_div_pos_is_pos(x - start, step);
    let q = n / step;
    assert(c < q) by (nonlinear_arith)
        requires
            x - start == step * c,
            n == step * q + n % step,
            0 <= n % step < step,
            x < size,
            n == size + step - 1 - start,
            step > 0,
    ;
}

/// Within the image, a pixel lies on pass `pass` (with its extents) exactly
/// when its column and row belong to the pass.
proof fn lemma_on_pass_iff(img: ImageView, k: int, pass: int)
    requires
        0 <= pass < 7,
        0 <= k < img.width * img.height,
        pass_extent(img.width, adam7_pass(pass).0, adam7_pass(pass).2) is Some,
        pass_extent(img.height, adam7_pass(pass).1, adam7_pass(pass).3) is Some,
    ensures
        ({
            let (xs, ys, xstep, ystep) = adam7_pass(pass);
            let pw = pass_extent(img.width, xs, xstep).unwrap();
            let ph = pass_extent(img.height, ys, ystep).unwrap();
            let w = img.width as int;
            on_pass(k, w, xs as int, ys as int, xstep as int, ystep as int, pw as int, ph as int) <==> in_adam7_pass(
                pass,
                k % w,
                k / w,
            )
        }),
{
    let (xs, ys, xstep, ystep) = adam7_pass(pass);
    let w = img.width as int;
    let h = img.height as int;
    assert(w > 0) by (nonlinear_arith)
        requires
            0 <= k < w * h,
            h >= 0,
    ;
    lemma_fundamental_div_mod(k, w);
    lemma_mod_pos_bound(k, w);
    lemma_div_pos_is_pos(k, w);
    let x = k % w;
    let y = k / w;
    assert(y < h) by (nonlinear_arith)
        requires
            k == w * y + x,
            0 <= x < w,
            k < w * h,
    ;
    if in_adam7_pass(pass, x, y) {
        lemma_coord_in_extent(w, xs as int, xstep as int, x);
        lemma_coord_in_extent(h, ys as int, ystep as int, y);
    }
}

proof fn lemma_adam7_passes_cover(
    img: ImageView,
    curve: Seq<u8>,
    bytes: Seq<u8>,
    pos: int,
    pass: int,
    canvas: Seq<colourRGBA>,
)
    requires
        img.colourType == 0 || img.colourType == 3,
        0 <= pass <= 7,
        canvas.len() == img.width * img.height,
        forall|k: int|
            0 <= k < canvas.len() && covered(pass, k % (img.width as int), k / (img.width as int)) ==> index_pixel(
                img,
                #[trigger] canvas[k],
            ),
        adam7_passes(img, curve, bytes, pos, pass, canvas) is Some,
    ensures
        ({
            let done = adam7_passes(img, curve, bytes, pos, pass, canvas).unwrap();
            forall|k: int|
                0 <= k < done.len() && covered(7, k % (img.width as int), k / (img.width as int)) ==> index_pixel(
                    img,
                    #[trigger] done[k],
                )
        }),
    decreases 7 - pass,
{
    let w = img.width as int;
    if pass < 7 {
        let (xs, ys, xstep, ystep) = adam7_pass(pass);
        let pw = pass_extent(img.width, xs, xstep).unwrap();
        let ph = pass_extent(img.height, ys, ystep).unwrap();
        if pw == 0 || ph == 0 {
            assert forall|k: int|
                0 <= k < canvas.len() && covered(pass + 1, k % w, k / w) implies index_pixel(
                img,
                #[trigger] canvas[k],
            ) by {
                lemma_on_pass_iff(img, k, pass);
                assert(!on_pass(k, w, xs as int, ys as int, xstep as int, ystep as int, pw as int, ph as int));
            }
            lemma_adam7_passes_cover(img, curve, bytes, pos, pass + 1, canvas);
        } else {
            let (next, pass_px) = decode_rows(img, curve, bytes, pos, pw, ph as int, Seq::empty()).unwrap();
            lemma_decode_rows_entries(img, curve, bytes, pos, pw, ph as int, Seq::empty());
            let placed = place_pass(canvas, img.width, pass_px, pw, ph, xs, ys, xstep, ystep);
            assert forall|k: int|
                0 <= k < placed.len() && covered(pass + 1, k % w, k / w) implies index_pixel(
                img,
                #[trigger] placed[k],
            ) by {
                lemma_on_pass_iff(img, k, pass);
                if on_pass(k, w, xs as int, ys as int, xstep as int, ystep as int, pw as int, ph as int) {
                    let r = pass_row(k, w, ys as int, ystep as int);
                    let c = pass_col(k, w, xs as int, xstep as int);
                    assert(w > 0) by {
                        assert(pw > 0);
                    }
                    assert(r >= 0 && c >= 0) by {
                        lemma_div_pos_is_pos(k % w - xs, xstep as int);
                        lemma_div_pos_is_pos(k / w - ys, ystep as int);
                    }
                    assert(r * pw + c < pw * ph) by (nonlinear_arith)
                        requires
                            0 <= r < ph,
                            0 <= c < pw,
                    ;
                    assert(index_pixel(img, pass_px[r * pw + c]));
                }
            }
            lemma_adam7_passes_cover(img, curve, bytes, next, pass + 1, placed);
        }
    }
}

/// Greyscale images decode to greys and palette images to entries of their
/// palette, interlaced or not.
pub proof fn index_images_decode_to_their_colours(bytes: Seq<u8>, curve: Seq<u8>)
    requires
        read_png(bytes, curve) is Ok,
        read_png(bytes, curve)->Ok_0.colourType == 0 || read_png(bytes, curve)->Ok_0.colourType == 3,
    ensures
        ({
            let img = read_png(bytes, curve)->Ok_0;
            forall|k: int| 0 <= k < img.pixels.len() ==> index_pixel(img, #[trigger] img.pixels[k])
        }),
{
    let (img, idat) = read_chunks(bytes).unwrap();
    let data = zlib_inflated(idat).unwrap();
    let done = read_png(bytes, curve)->Ok_0;
    assert(done.colourPalette == img.colourPalette && done.colourType == img.colourType);
    if img.interlace == 1 {
        let w = img.width as int;
        let canvas = Seq::new((img.width * img.height) as nat, |k: int| opaque_black());
        lemma_adam7_passes_cover(img, curve, data, 0, 0, canvas);
        lemma_adam7_passes_len(img, curve, data, 0, 0, canvas);
        assert forall|k: int| 0 <= k < done.pixels.len() implies index_pixel(done, #[trigger] done.pixels[k]) by {
            assert(w > 0) by (nonlinear_arith)
                requires
                    0 <= k < w * img.height,
            ;
            lemma_mod_pos_bound(k, w);
            lemma_div_pos_is_pos(k, w);
            let x = k % w;
            let y = k / w;
            adam7_passes_partition(x, y);
            let p = choose|p: int| 0 <= p < 7 && #[trigger] in_adam7_pass(p, x, y);
            reveal_with_fuel(covered, 8);
            assert(covered(7, x, y));
            assert(index_pixel(img, done.pixels[k]));
        }
    } else {
        lemma_decode_rows_entries(img, curve, data, 0, img.width, img.height as int, Seq::empty());
        assert forall|k: int| 0 <= k < done.pixels.len() implies index_pixel(done, #[trigger] done.pixels[k]) by {
            assert(index_pixel(img, done.pixels[k]));
        }
    }
}

/// Where the scanlines of Adam7 pass `p` start in the decompressed data of
/// an interlaced image: the passes follow one another from pass 0 on, each
/// as `ph` rows of `pw` pixels, and a pass without columns or rows takes
/// no bytes.
pub open spec fn pass_start(img: ImageView, curve: Seq<u8>, data: Seq<u8>, p: int) -> int
    decreases p,
{
    if p <= 0 {
        0
    } else {
        let prev = pass_start(img, curve, data, p - 1);
        let (xs, ys, xstep, ystep) = adam7_pass(p - 1);
        let pw = pass_extent(img.width, xs, xstep)->Some_0;
        let ph = pass_extent(img.height, ys, ystep)->Some_0;
        if pw == 0 || ph == 0 {
            prev
        } else {
            decode_rows(img, curve, data, prev, pw, ph as int, Seq::empty())->Some_0.0
        }
    }
}

/// The pixels of Adam7 pass `p`: its scanlines decoded as an image of `ph`
/// rows of `pw` pixels.
pub open spec fn pass_pixels(img: ImageView, curve: Seq<u8>, data: Seq<u8>, p: int) -> Seq<colourRGBA> {
    let (xs, ys, xstep, ystep) = adam7_pass(p);
    let pw = pass_extent(img.width, xs, xstep)->Some_0;
    let ph = pass_extent(img.height, ys, ystep)->Some_0;
    decode_rows(img, curve, data, pass_start(img, curve, data, p), pw, ph as int, Seq::empty())->Some_0.1
}

/// The pixel that pass `q` puts at position `k` of the image.
spec fn pass_value(img: ImageView, curve: Seq<u8>, data: Seq<u8>, q: int, k: int) -> colourRGBA {
    let (xs, ys, xstep, ystep) = adam7_pass(q);
    let w = img.width as int;
    let pw = pass_extent(img.width, xs, xstep)->Some_0;
    pass_pixels(img, curve, data, q)[pass_row(k, w, ys as int, ystep as int) * pw + pass_col(
        k,
        w,
        xs as int,
        xstep as int,
    )]
}

proof fn lemma_adam7_placement(img: ImageView, curve: Seq<u8>, data: Seq<u8>, pass: int, canvas: Seq<colourRGBA>)
    requires
        0 <= pass <= 7,
        canvas.len() == img.width * img.height,
        adam7_passes(img, curve, data, pass_start(img, curve, data, pass), pass, canvas) is Some,
        forall|k: int, q: int|
            0 <= k < canvas.len() && 0 <= q < pass && in_adam7_pass(q, k % (img.width as int), k / (
            img.width as int)) ==> #[trigger] canvas[k] == #[trigger] pass_value(img, curve, data, q, k),
    ensures
        ({
            let done = adam7_passes(img, curve, data, pass_start(img, curve, data, pass), pass, canvas).unwrap();
            forall|k: int, q: int|
                0 <= k < done.len() && 0 <= q < 7 && in_adam7_pass(q, k % (img.width as int), k / (
                img.width as int)) ==> #[trigger] done[k] == #[trigger] pass_value(img, curve, data, q, k)
        }),
    decreases 7 - pass,
{
    let w = img.width as int;
    let pos = pass_start(img, curve, data, pass);
    if pass < 7 {
        let (xs, ys, xstep, ystep) = adam7_pass(pass);
        let pw = pass_extent(img.width, xs, xstep).unwrap();
        let ph = pass_extent(img.height, ys, ystep).unwrap();
        assert(pass_start(img, curve, data, pass + 1) == if pw == 0 || ph == 0 {
            pos
        } else {
            decode_rows(img, curve, data, pos, pw, ph as int, Seq::empty())->Some_0.0
        });
        if pw == 0 || ph == 0 {
            assert forall|k: int, q: int|
                0 <= k < canvas.len() && 0 <= q < pass + 1 && in_adam7_pass(q, k % w, k / w) implies #[trigger] canvas[k]
                == #[trigger] pass_value(img, curve, data, q, k) by {
                if q == pass {
                    lemma_on_pass_iff(img, k, pass);
                    assert(w > 0) by (nonlinear_arith)
                        requires
                            0 <= k < w * img.height,
                    ;
                    lemma_mod_pos_bound(k, w);
                    lemma_div_pos_is_pos(k, w);
                    lemma_div_pos_is_pos(k % w - xs, xstep as int);
                    lemma_div_pos_is_pos(k / w - ys, ystep as int);
                    assert(false);
                }
            }
            lemma_adam7_placement(img, curve, data, pass + 1, canvas);
        } else {
            let (next, pass_px) = decode_rows(img, curve, data, pos, pw, ph as int, Seq::empty()).unwrap();
            assert(pass_pixels(img, curve, data, pass) == pass_px);
            let placed = place_pass(canvas, img.width, pass_px, pw, ph, xs, ys, xstep, ystep);
            assert forall|k: int, q: int|
                0 <= k < placed.len() && 0 <= q < pass + 1 && in_adam7_pass(q, k % w, k / w) implies #[trigger] placed[k]
                == #[trigger] pass_value(img, curve, data, q, k) by {
                lemma_on_pass_iff(img, k, pass);
                assert(w > 0) by (nonlinear_arith)
                    requires
                        0 <= k < w * img.height,
                ;
                lemma_mod_pos_bound(k, w);
                lemma_div_pos_is_pos(k, w);
                if q < pass {
                    adam7_passes_partition(k % w, k / w);
                    assert(!in_adam7_pass(pass, k % w, k / w));
                    assert(canvas[k] == pass_value(img, curve, data, q, k));
                }
            }
            lemma_adam7_placement(img, curve, data, pass + 1, placed);
        }
    }
}

/// In an interlaced image, the pixel at column `x` and row `y` comes from
/// the Adam7 pass `p` that holds it: it is the pixel of that pass's row
/// `(y - ys) / ystep` and column `(x - xs) / xstep`, where `(xs, ys)` is the
/// pass's first pixel and `xstep`, `ystep` its steps, and the pass's rows
/// of `pw` pixels are decoded from where the previous pass ended.
pub proof fn interlaced_pixels_come_from_their_pass(bytes: Seq<u8>, curve: Seq<u8>, p: int, x: int, y: int)
    requires
        read_png(bytes, curve) is Ok,
        read_png(bytes, curve)->Ok_0.interlace == 1,
        0 <= x < read_png(bytes, curve)->Ok_0.width,
        0 <= y < read_png(bytes, curve)->Ok_0.height,
        0 <= p < 7,
        in_adam7_pass(p, x, y),
    ensures
        ({
            let img = read_png(bytes, curve)->Ok_0;
            let (xs, ys, xstep, ystep) = adam7_pass(p);
            let w = img.width as int;
            let pw = (w + xstep - 1 - xs) / (xstep as int);
            &&& img.pixels.len() == img.width * img.height
            &&& img.pixels[y * w + x] == pass_pixels(header_of(bytes), curve, data_of(bytes), p)[((y - ys) / (
            ystep as int)) * pw + (x - xs) / (xstep as int)]
        }),
{
    let hdr = header_of(bytes);
    let data = data_of(bytes);
    let img = read_png(bytes, curve)->Ok_0;
    let w = hdr.width as int;
    let canvas = Seq::new((hdr.width * hdr.height) as nat, |k: int| opaque_black());
    assert(pass_start(hdr, curve, data, 0) == 0);
    lemma_adam7_placement(hdr, curve, data, 0, canvas);
    lemma_adam7_passes_len(hdr, curve, data, 0, 0, canvas);
    let k = y * w + x;
    assert(0 <= k < w * hdr.height) by (nonlinear_arith)
        requires
            0 <= x < w,
            0 <= y < hdr.height,
            k == y * w + x,
    ;
    lemma_fundamental_div_mod_converse(k, w, y, x);
    assert(img.pixels[k] == pass_value(hdr, curve, data, p, k));
}

/// The Adam7 pattern of the PNG specification: the pass (numbered from 1)
/// of each pixel of an 8 by 8 block, row by row.
pub open spec fn adam7_pattern() -> Seq<Seq<int>> {
    seq![
        seq![1int, 6, 4, 6, 2, 6, 4, 6],
        seq![7int, 7, 7, 7, 7, 7, 7, 7],
        seq![5int, 6, 5, 6, 5, 6, 5, 6],
        seq![7int, 7, 7, 7, 7, 7, 7, 7],
        seq![3int, 6, 4, 6, 3, 6, 4, 6],
        seq![7int, 7, 7, 7, 7, 7, 7, 7],
        seq![5int, 6, 5, 6, 5, 6, 5, 6],
        seq![7int, 7, 7, 7, 7, 7, 7, 7],
    ]
}

proof fn lemma_pattern_cell(a: int, b: int, p: int)
    requires
        0 <= a < 8,
        0 <= b < 8,
        0 <= p < 7,
    ensures
        ({
            let (xs, ys, xstep, ystep) = adam7_pass(p);
            (a % (xstep as int) == xs && b % (ystep as int) == ys) <==> adam7_pattern()[b][a] == p + 1
        }),
{
    let (xs, ys, xstep, ystep) = adam7_pass(p);
    if p == 0 {
        assert(xs == 0 && ys == 0 && xstep == 8 && ystep == 8);
        assert(a % (xstep as int) == a % 8 && b % (ystep as int) == b % 8);
    } else if p == 1 {
        assert(xs == 4 && ys == 0 && xstep == 8 && ystep == 8);
        assert(a % (xstep as int) == a % 8 && b % (ystep as int) == b % 8);
    } else if p == 2 {
        assert(xs == 0 && ys == 4 && xstep == 4 && ystep == 8);
        assert(a % (xstep as int) == a % 4 && b % (ystep as int) == b % 8);
    } else if p == 3 {
        assert(xs == 2 && ys == 0 && xstep == 4 && ystep == 4);
        assert(a % (xstep as int) == a % 4 && b % (ystep as int) == b % 4);
    } else if p == 4 {
        assert(xs == 0 && ys == 2 && xstep == 2 && ystep == 4);
        assert(a % (xstep as int) == a % 2 && b % (ystep as int) == b % 4);
    } else if p == 5 {
        assert(xs == 1 && ys == 0 && xstep == 2 && ystep == 2);
        assert(a % (xstep as int) == a % 2 && b % (ystep as int) == b % 2);
    } else if p == 6 {
        assert(xs == 0 && ys == 1 && xstep == 1 && ystep == 2);
        assert(a % (xstep as int) == a % 1 && b % (ystep as int) == b % 2);
    }
    let row = adam7_pattern()[b];
    if b == 0 {
        assert(row == seq![1int, 6, 4, 6, 2, 6, 4, 6]);
        if a == 0 {
            assert(row[a] == 1);
        } else if a == 1 {
            assert(row[a] == 6);
        } else if a == 2 {
            assert(row[a] == 4);
        } else if a == 3 {
            assert(row[a] == 6);
        } else if a == 4 {
            assert(row[a] == 2);
        } else if a == 5 {
            assert(row[a] == 6);
        } else if a == 6 {
            assert(row[a] == 4);
        } else if a == 7 {
            assert(row[a] == 6);
        }
    } else if b == 1 {
        assert(row == seq![7int, 7, 7, 7, 7, 7, 7, 7]);
        if a == 0 {
            assert(row[a] == 7);
        } else if a == 1 {
            assert(row[a] == 7);
        } else if a == 2 {
            assert(row[a] == 7);
        } else if a == 3 {
            assert(row[a] == 7);
        } else if a == 4 {
            assert(row[a] == 7);
        } else if a == 5 {
            assert(row[a] == 7);
        } else if a == 6 {
            assert(row[a] == 7);
        } else if a == 7 {
            assert(row[a] == 7);
        }
    } else if b == 2 {
        assert(row == seq![5int, 6, 5, 6, 5, 6, 5, 6]);
        if a == 0 {
            assert(row[a] == 5);
        } else if a == 1 {
            assert(row[a] == 6);
        } else if a == 2 {
            assert(row[a] == 5);
        } else if a == 3 {
            assert(row[a] == 6);
        } else if a == 4 {
            assert(row[a] == 5);
        } else if a == 5 {
            assert(row[a] == 6);
        } else if a == 6 {
            assert(row[a] == 5);
        } else if a == 7 {
            assert(row[a] == 6);
        }
    } else if b == 3 {
        assert(row == seq![7int, 7, 7, 7, 7, 7, 7, 7]);
        if a == 0 {
            assert(row[a] == 7);
        } else if a == 1 {
            assert(row[a] == 7);
        } else if a == 2 {
            assert(row[a] == 7);
        } else if a == 3 {
            assert(row[a] == 7);
        } else if a == 4 {
            assert(row[a] == 7);
        } else if a == 5 {
            assert(row[a] == 7);
        } else if a == 6 {
            assert(row[a] == 7);
        } else if a == 7 {
            assert(row[a] == 7);
        }
    } else if b == 4 {
        assert(row == seq![3int, 6, 4, 6, 3, 6, 4, 6]);
        if a == 0 {
            assert(row[a] == 3);
        } else if a == 1 {
            assert(row[a] == 6);
        } else if a == 2 {
            assert(row[a] == 4);
        } else if a == 3 {
            assert(row[a] == 6);
        } else if a == 4 {
            assert(row[a] == 3);
        } else if a == 5 {
            assert(row[a] == 6);
        } else if a == 6 {
            assert(row[a] == 4);
        } else if a == 7 {
            assert(row[a] == 6);
        }
    } else if b == 5 {
        assert(row == seq![7int, 7, 7, 7, 7, 7, 7, 7]);
        if a == 0 {
            assert(row[a] == 7);
        } else if a == 1 {
            assert(row[a] == 7);
        } else if a == 2 {
            assert(row[a] == 7);
        } else if a == 3 {
            assert(row[a] == 7);
        } else if a == 4 {
            assert(row[a] == 7);
        } else if a == 5 {
            assert(row[a] == 7);
        } else if a == 6 {
            assert(row[a] == 7);
        } else if a == 7 {
            assert(row[a] == 7);
        }
    } else if b == 6 {
        assert(row == seq![5int, 6, 5, 6, 5, 6, 5, 6]);
        if a == 0 {
            assert(row[a] == 5);
        } else if a == 1 {
            assert(row[a] == 6);
        } else if a == 2 {
            assert(row[a] == 5);
        } else if a == 3 {
            assert(row[a] == 6);
        } else if a == 4 {
            assert(row[a] == 5);
        } else if a == 5 {
            assert(row[a] == 6);
        } else if a == 6 {
            assert(row[a] == 5);
        } else if a == 7 {
            assert(row[a] == 6);
        }
    } else if b == 7 {
        assert(row == seq![7int, 7, 7, 7, 7, 7, 7, 7]);
        if a == 0 {
            assert(row[a] == 7);
        } else if a == 1 {
            assert(row[a] == 7);
        } else if a == 2 {
            assert(row[a] == 7);
        } else if a == 3 {
            assert(row[a] == 7);
        } else if a == 4 {
            assert(row[a] == 7);
        } else if a == 5 {
            assert(row[a] == 7);
        } else if a == 6 {
            assert(row[a] == 7);
        } else if a == 7 {
            assert(row[a] == 7);
        }
    }
}

/// The Adam7 passes are those of the PNG specification's pattern: the pixel
/// at column `x` and row `y` belongs to pass `p` (numbered from 0) exactly
/// when the pattern holds `p + 1` at column `x % 8` and row `y % 8`.
pub proof fn adam7_passes_follow_the_pattern(p: int, x: int, y: int)
    requires
        0 <= p < 7,
        x >= 0,
        y >= 0,
    ensures
        in_adam7_pass(p, x, y) <==> adam7_pattern()[y % 8][x % 8] == p + 1,
{
    lemma_in_pass_mod(p, x, y);
    lemma_pattern_cell(x % 8, y % 8, p);
}

} // verus!
