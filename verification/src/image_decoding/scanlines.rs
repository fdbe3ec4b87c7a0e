use vstd::prelude::*;

use super::decode::{
    decode_row, decode_rows, gamma_colour, grey8_pixel, grey8_row, palette8_row, rgb_bytes, rgb_filtered, rgb_raw,
    rgb_row,
};
use super::image::{colourRGBA, ImageView};
use super::laws::{pixel_bytes, whole_rows};
use super::png::{read_chunks, read_png, zlib_inflated};

verus! {

/// The pixel that the decoder makes of column `t` of the row whose samples
/// start at `p`, after the pixels `prefix`.
spec fn cell(
    img: ImageView,
    curve: Seq<u8>,
    bytes: Seq<u8>,
    p: int,
    f: u8,
    t: int,
    w: int,
    prefix: Seq<colourRGBA>,
) -> colourRGBA {
    if img.colourType == 0 {
        grey8_pixel(f, bytes[p + t], t, w, prefix)
    } else if img.colourType == 3 {
        img.colourPalette[bytes[p + t] as int]
    } else {
        gamma_colour(img, curve, rgb_filtered(f, rgb_raw(img, bytes, p + t * rgb_bytes(img)), t, w, prefix)->Some_0)
    }
}

/// Pixel `base + t` of `out` is the decoder's pixel for column `t` of the
/// row whose samples start at `p`, after the pixels before it.
spec fn cell_ok(
    img: ImageView,
    curve: Seq<u8>,
    bytes: Seq<u8>,
    p: int,
    f: u8,
    w: int,
    base: int,
    out: Seq<colourRGBA>,
    t: int,
) -> bool {
    &&& out[base + t] == cell(img, curve, bytes, p, f, t, w, out.subrange(0, base + t))
    &&& (img.colourType == 2 || img.colourType == 6) ==> rgb_filtered(
        f,
        rgb_raw(img, bytes, p + t * rgb_bytes(img)),
        t,
        w,
        out.subrange(0, base + t),
    ) is Some
}

proof fn lemma_grey8_cells(
    img: ImageView,
    curve: Seq<u8>,
    bytes: Seq<u8>,
    p: int,
    w: int,
    f: u8,
    j: int,
    base: int,
    px: Seq<colourRGBA>,
)
    requires
        img.colourType == 0,
        0 <= j <= w,
        base >= 0,
        px.len() == base + j,
        grey8_row(bytes, p + j, w, f, j, px) is Some,
    ensures
        ({
            let (q, out) = grey8_row(bytes, p + j, w, f, j, px).unwrap();
            &&& q == p + w
            &&& out.len() == base + w
            &&& out.subrange(0, base + j) == px
            &&& forall|t: int| j <= t < w ==> #[trigger] cell_ok(img, curve, bytes, p, f, w, base, out, t)
        }),
    decreases w - j,
{
    let out = grey8_row(bytes, p + j, w, f, j, px).unwrap().1;
    if j < w {
        let px2 = px.push(grey8_pixel(f, bytes[p + j], j, w, px));
        lemma_grey8_cells(img, curve, bytes, p, w, f, j + 1, base, px2);
        assert(out.subrange(0, base + j) =~= out.subrange(0, base + j + 1).subrange(0, base + j));
        assert(px2.subrange(0, base + j) =~= px);
        assert(out[base + j] == out.subrange(0, base + j + 1)[base + j]);
        assert(cell_ok(img, curve, bytes, p, f, w, base, out, j));
    } else {
        assert(out.subrange(0, base + j) =~= out);
    }
}

proof fn lemma_palette8_cells(
    img: ImageView,
    curve: Seq<u8>,
    bytes: Seq<u8>,
    p: int,
    w: int,
    j: int,
    base: int,
    f: u8,
    px: Seq<colourRGBA>,
)
    requires
        img.colourType == 3,
        0 <= j <= w,
        base >= 0,
        px.len() == base + j,
        palette8_row(img, bytes, p + j, w, j, px) is Some,
    ensures
        ({
            let (q, out) = palette8_row(img, bytes, p + j, w, j, px).unwrap();
            &&& q == p + w
            &&& out.len() == base + w
            &&& out.subrange(0, base + j) == px
            &&& forall|t: int| j <= t < w ==> #[trigger] cell_ok(img, curve, bytes, p, f, w, base, out, t)
        }),
    decreases w - j,
{
    let out = palette8_row(img, bytes, p + j, w, j, px).unwrap().1;
    if j < w {
        let px2 = px.push(img.colourPalette[bytes[p + j] as int]);
        lemma_palette8_cells(img, curve, bytes, p, w, j + 1, base, f, px2);
        assert(out.subrange(0, base + j) =~= out.subrange(0, base + j + 1).subrange(0, base + j));
        assert(px2.subrange(0, base + j) =~= px);
        assert(out[base + j] == out.subrange(0, base + j + 1)[base + j]);
        assert(cell_ok(img, curve, bytes, p, f, w, base, out, j));
    } else {
        assert(out.subrange(0, base + j) =~= out);
    }
}

proof fn lemma_rgb_cells(
    img: ImageView,
    curve: Seq<u8>,
    bytes: Seq<u8>,
    p: int,
    w: int,
    f: u8,
    j: int,
    base: int,
    px: Seq<colourRGBA>,
)
    requires
        img.colourType == 2 || img.colourType == 6,
        0 <= j <= w,
        base >= 0,
        px.len() == base + j,
        rgb_row(img, curve, bytes, p + j * rgb_bytes(img), w, f, j, px) is Some,
    ensures
        ({
            let (q, out) = rgb_row(img, curve, bytes, p + j * rgb_bytes(img), w, f, j, px).unwrap();
            &&& q == p + w * rgb_bytes(img)
            &&& out.len() == base + w
            &&& out.subrange(0, base + j) == px
            &&& forall|t: int| j <= t < w ==> #[trigger] cell_ok(img, curve, bytes, p, f, w, base, out, t)
        }),
    decreases w - j,
{
    let out = rgb_row(img, curve, bytes, p + j * rgb_bytes(img), w, f, j, px).unwrap().1;
    let bpp = rgb_bytes(img);
    if j < w {
        let raw = rgb_raw(img, bytes, p + j * bpp);
        let c = rgb_filtered(f, raw, j, w, px)->Some_0;
        let px2 = px.push(gamma_colour(img, curve, c));
        assert(p + j * bpp + bpp == p + (j + 1) * bpp) by (nonlinear_arith);
        lemma_rgb_cells(img, curve, bytes, p, w, f, j + 1, base, px2);
        assert(out.subrange(0, base + j) =~= out.subrange(0, base + j + 1).subrange(0, base + j));
        assert(px2.subrange(0, base + j) =~= px);
        assert(out[base + j] == out.subrange(0, base + j + 1)[base + j]);
        assert(cell_ok(img, curve, bytes, p, f, w, base, out, j));
    } else {
        assert(out.subrange(0, base + j) =~= out);
        assert(p + j * bpp == p + w * bpp);
    }
}

/// What one whole row decodes to, pixel by pixel.
proof fn lemma_row_cells(img: ImageView, curve: Seq<u8>, bytes: Seq<u8>, s: int, w: u32, px: Seq<colourRGBA>)
    requires
        whole_rows(img),
        0 <= s < bytes.len(),
        decode_row(img, curve, bytes, s + 1, w, bytes[s], px) is Some,
    ensures
        ({
            let (q, out) = decode_row(img, curve, bytes, s + 1, w, bytes[s], px).unwrap();
            &&& q == s + 1 + w * pixel_bytes(img)
            &&& out.len() == px.len() + w
            &&& out.subrange(0, px.len() as int) == px
            &&& forall|t: int|
                0 <= t < w ==> #[trigger] cell_ok(img, curve, bytes, s + 1, bytes[s], w as int, px.len() as int, out, t)
        }),
{
    let f = bytes[s];
    let base = px.len() as int;
    if img.colourType == 0 {
        lemma_grey8_cells(img, curve, bytes, s + 1, w as int, f, 0, base, px);
    } else if img.colourType == 3 {
        lemma_palette8_cells(img, curve, bytes, s + 1, w as int, 0, base, f, px);
    } else {
        assert(s + 1 + 0 * rgb_bytes(img) == s + 1);
        lemma_rgb_cells(img, curve, bytes, s + 1, w as int, f, 0, base, px);
    }
    assert(px.subrange(0, base) =~= px);
}

/// Where row `r` starts, from `pos`.
spec fn row_start(pos: int, r: int, w: int, pb: int) -> int {
    pos + r * (1 + w * pb)
}

/// Pixel `base + r * w + j` of `out` is the decoder's pixel for column `j`
/// of row `r`.
spec fn grid_ok(
    img: ImageView,
    curve: Seq<u8>,
    bytes: Seq<u8>,
    pos: int,
    w: int,
    base: int,
    out: Seq<colourRGBA>,
    r: int,
    j: int,
) -> bool {
    let s = row_start(pos, r, w, pixel_bytes(img));
    cell_ok(img, curve, bytes, s + 1, bytes[s], w, base + r * w, out, j)
}

proof fn lemma_rows_cells(
    img: ImageView,
    curve: Seq<u8>,
    bytes: Seq<u8>,
    pos: int,
    w: u32,
    rows: int,
    px: Seq<colourRGBA>,
)
    requires
        whole_rows(img),
        rows >= 0,
        decode_rows(img, curve, bytes, pos, w, rows, px) is Some,
    ensures
        ({
            let out = decode_rows(img, curve, bytes, pos, w, rows, px).unwrap().1;
            &&& out.len() == px.len() + rows * w
            &&& out.subrange(0, px.len() as int) == px
            &&& forall|r: int, j: int|
                0 <= r < rows && 0 <= j < w ==> #[trigger] grid_ok(
                    img,
                    curve,
                    bytes,
                    pos,
                    w as int,
                    px.len() as int,
                    out,
                    r,
                    j,
                )
        }),
    decreases rows,
{
    let base = px.len() as int;
    let pb = pixel_bytes(img);
    let out = decode_rows(img, curve, bytes, pos, w, rows, px).unwrap().1;
    if rows > 0 {
        lemma_row_cells(img, curve, bytes, pos, w, px);
        let (next, px2) = decode_row(img, curve, bytes, pos + 1, w, bytes[pos], px).unwrap();
        lemma_rows_cells(img, curve, bytes, next, w, rows - 1, px2);
        assert(out.subrange(0, base) =~= out.subrange(0, base + w).subrange(0, base));
        assert(px2.subrange(0, base) =~= px);
        assert(out.len() == base + rows * w) by (nonlinear_arith)
            requires
                out.len() == base + w + (rows - 1) * w,
        ;
        assert forall|r: int, j: int| 0 <= r < rows && 0 <= j < w implies #[trigger] grid_ok(
            img,
            curve,
            bytes,
            pos,
            w as int,
            base,
            out,
            r,
            j,
        ) by {
            if r == 0 {
                assert(row_start(pos, 0, w as int, pb) == pos);
                assert(cell_ok(img, curve, bytes, pos + 1, bytes[pos], w as int, base, px2, j));
                assert(out.subrange(0, base + j) =~= px2.subrange(0, base + j)) by {
                    assert(out.subrange(0, base + w) == px2);
                    assert(out.subrange(0, base + j) =~= out.subrange(0, base + w).subrange(0, base + j));
                }
                assert(out[base + j] == px2[base + j]) by {
                    assert(out.subrange(0, base + w)[base + j] == out[base + j]);
                }
                assert(base + 0 * w == base);
            } else {
                assert(grid_ok(img, curve, bytes, next, w as int, base + w, out, r - 1, j));
                assert(row_start(next, r - 1, w as int, pb) == row_start(pos, r, w as int, pb)) by (nonlinear_arith)
                    requires
                        next == pos + 1 + w * pb,
                ;
                assert(base + w + (r - 1) * w == base + r * w) by (nonlinear_arith);
            }
        }
    } else {
        assert(out.subrange(0, base) =~= px);
        assert(rows * w == 0) by (nonlinear_arith)
            requires
                rows == 0,
        ;
    }
}


/// The image fields that the chunks of a file give.
pub open spec fn header_of(bytes: Seq<u8>) -> ImageView {
    read_chunks(bytes)->Some_0.0
}

/// The decompressed image data of a file.
pub open spec fn data_of(bytes: Seq<u8>) -> Seq<u8> {
    zlib_inflated(read_chunks(bytes)->Some_0.1)->Some_0
}

/// The Paeth predictor as the PNG specification defines it: with
/// `p = a + b - c`, the one of `a`, `b`, `c` nearest to `p`, ties going to
/// `a`, then to `b`.
pub open spec fn png_paeth(a: int, b: int, c: int) -> int {
    let p = a + b - c;
    let pa = if p >= a { p - a } else { a - p };
    let pb = if p >= b { p - b } else { b - p };
    let pc = if p >= c { p - c } else { c - p };
    if pa <= pb && pa <= pc {
        a
    } else if pb <= pc {
        b
    } else {
        c
    }
}

/// What the PNG row filter `f` adds to a raw sample, given the sample to
/// the left `l`, above `a` and above-left `c`: nothing (0 and unknown
/// filters), the left sample (1, sub), the one above (2, up), the mean of
/// the two rounded down (3, average) or the Paeth predictor (4).
pub open spec fn filter_prediction(f: u8, l: int, a: int, c: int) -> int {
    if f == 1 {
        l
    } else if f == 2 {
        a
    } else if f == 3 {
        (l + a) / 2
    } else if f == 4 {
        png_paeth(l, a, c)
    } else {
        0
    }
}

/// Channel `i` of a colour: red, green, blue, alpha for 0 to 3.
pub open spec fn channel(c: colourRGBA, i: int) -> u8 {
    if i == 0 {
        c.R
    } else if i == 1 {
        c.G
    } else if i == 2 {
        c.B
    } else {
        c.A
    }
}

/// Pixel `(r, j)` of the non-interlaced 8-bit greyscale image `out`, `w`
/// pixels wide: row `r` is the filter byte at `r * (1 + w)` and its `w`
/// samples, and the level is the raw sample plus the filter's prediction
/// from the decoded levels to the left, above and above-left (0 where
/// missing), modulo 256, as an opaque grey.
pub open spec fn grey_pixel_law(data: Seq<u8>, out: Seq<colourRGBA>, w: int, r: int, j: int) -> bool {
    let s = r * (1 + w);
    let k = r * w + j;
    let l: int = if j > 0 { out[k - 1].R as int } else { 0 };
    let a: int = if r > 0 { out[k - w].R as int } else { 0 };
    let c: int = if r > 0 && j > 0 { out[k - w - 1].R as int } else { 0 };
    let v = ((data[s + 1 + j] + filter_prediction(data[s], l, a, c)) % 256) as u8;
    out[k] == colourRGBA { R: v, G: v, B: v, A: 255 }
}

/// Channel `i` of pixel `(r, j)` of the non-interlaced truecolour image
/// `out`: row `r` is the filter byte at `r * (1 + w * bpp)` and `w` pixels
/// of `bpp` bytes (4 with alpha, 3 without, the alpha then being 255). The
/// filtered value is the raw sample plus the filter's prediction from the
/// decoded pixels to the left, above and above-left, modulo 256; a missing
/// neighbour counts as opaque black, except that the sub filter adds
/// nothing in the first column. The colour channels of an image with a
/// gamma are then looked up in the curve; alpha is kept.
pub open spec fn truecolour_channel_law(
    img: ImageView,
    curve: Seq<u8>,
    data: Seq<u8>,
    out: Seq<colourRGBA>,
    r: int,
    j: int,
    i: int,
) -> bool {
    let w = img.width as int;
    let bpp: int = if img.colourType == 6 { 4 } else { 3 };
    let s = r * (1 + w * bpp);
    let f = data[s];
    let o = s + 1 + j * bpp;
    let k = r * w + j;
    let raw: int = if i == 3 && img.colourType != 6 { 255 } else { data[o + i] as int };
    let missing: int = if i == 3 { 255 } else { 0 };
    let l: int = if j > 0 { channel(out[k - 1], i) as int } else if f == 1 { 0 } else { missing };
    let a: int = if r > 0 { channel(out[k - w], i) as int } else { missing };
    let c: int = if r > 0 && j > 0 { channel(out[k - w - 1], i) as int } else { missing };
    let v = ((raw + filter_prediction(f, l, a, c)) % 256) as u8;
    channel(out[k], i) == if i < 3 && img.gamma is Some { curve[v as int] } else { v }
}

/// All four channels of pixel `(r, j)` follow the truecolour law.
pub open spec fn truecolour_pixel_law(
    img: ImageView,
    curve: Seq<u8>,
    data: Seq<u8>,
    out: Seq<colourRGBA>,
    r: int,
    j: int,
) -> bool {
    &&& truecolour_channel_law(img, curve, data, out, r, j, 0)
    &&& truecolour_channel_law(img, curve, data, out, r, j, 1)
    &&& truecolour_channel_law(img, curve, data, out, r, j, 2)
    &&& truecolour_channel_law(img, curve, data, out, r, j, 3)
}

/// Facts about the index `r * w + j` of column `j` of row `r`.
proof fn lemma_grid_index(r: int, j: int, w: int)
    requires
        0 <= r,
        0 <= j < w,
    ensures
        (r * w + j >= w) <==> r >= 1,
        r * w + j == w ==> j == 0,
        r >= 1 ==> r * w + j - w == (r - 1) * w + j,
        0 <= r * w + j,
{
    if r >= 1 {
        assert(r * w >= w) by (nonlinear_arith)
            requires
                r >= 1,
                w > 0,
        ;
        assert(r * w - w == (r - 1) * w) by (nonlinear_arith);
    } else {
        assert(r * w == 0) by (nonlinear_arith)
            requires
                r == 0,
        ;
    }
    if r >= 2 {
        assert(r * w >= 2 * w) by (nonlinear_arith)
            requires
                r >= 2,
                w > 0,
        ;
    }
    assert(r * w >= 0) by (nonlinear_arith)
        requires
            r >= 0,
            w > 0,
    ;
}

/// The pixels of a non-interlaced image with whole rows, from its data.
proof fn lemma_image_cells(bytes: Seq<u8>, curve: Seq<u8>)
    requires
        read_png(bytes, curve) is Ok,
        whole_rows(read_png(bytes, curve)->Ok_0),
        read_png(bytes, curve)->Ok_0.interlace != 1,
    ensures
        ({
            let img = read_png(bytes, curve)->Ok_0;
            let hdr = header_of(bytes);
            let data = data_of(bytes);
            &&& img == (ImageView { pixels: img.pixels, ..hdr })
            &&& img.pixels.len() == img.height * img.width
            &&& forall|r: int, j: int|
                0 <= r < img.height && 0 <= j < img.width ==> #[trigger] grid_ok(
                    hdr,
                    curve,
                    data,
                    0,
                    img.width as int,
                    0,
                    img.pixels,
                    r,
                    j,
                )
        }),
{
    let hdr = header_of(bytes);
    let data = data_of(bytes);
    lemma_rows_cells(hdr, curve, data, 0, hdr.width, hdr.height as int, Seq::empty());
}

/// The levels of a non-interlaced 8-bit greyscale image: each pixel is the
/// grey of its raw sample plus its row filter's prediction from the
/// decoded neighbours, modulo 256.
pub proof fn greyscale_rows_reverse_the_filters(bytes: Seq<u8>, curve: Seq<u8>)
    requires
        read_png(bytes, curve) is Ok,
        read_png(bytes, curve)->Ok_0.colourType == 0,
        read_png(bytes, curve)->Ok_0.depth == 8,
        read_png(bytes, curve)->Ok_0.interlace != 1,
    ensures
        ({
            let img = read_png(bytes, curve)->Ok_0;
            &&& img.pixels.len() == img.width * img.height
            &&& forall|r: int, j: int|
                0 <= r < img.height && 0 <= j < img.width ==> #[trigger] grey_pixel_law(
                    data_of(bytes),
                    img.pixels,
                    img.width as int,
                    r,
                    j,
                )
        }),
{
    let img = read_png(bytes, curve)->Ok_0;
    lemma_image_cells(bytes, curve);
    let hdr = header_of(bytes);
    let data = data_of(bytes);
    let w = img.width as int;
    let out = img.pixels;
    assert(img.pixels.len() == img.width * img.height) by (nonlinear_arith)
        requires
            img.pixels.len() == img.height * img.width,
    ;
    assert forall|r: int, j: int| 0 <= r < img.height && 0 <= j < img.width implies #[trigger] grey_pixel_law(
        data,
        out,
        w,
        r,
        j,
    ) by {
        assert(grid_ok(hdr, curve, data, 0, w, 0, out, r, j));
        lemma_grid_index(r, j, w);
        let s = r * (1 + w);
        assert(row_start(0, r, w, pixel_bytes(hdr)) == s);
        let k = r * w + j;
        assert(k < img.height * img.width) by (nonlinear_arith)
            requires
                k == r * w + j,
                0 <= r < img.height,
                0 <= j < w,
                w == img.width,
        ;
        let prefix = out.subrange(0, k);
        if j > 0 {
            assert(prefix[k - 1] == out[k - 1]);
        }
        if k >= w {
            assert(prefix[k - w] == out[k - w]);
        }
        if j > 0 && k > w {
            assert(prefix[k - w - 1] == out[k - w - 1]);
        }
    }
}

/// The pixels of a non-interlaced truecolour image: each channel is the raw
/// sample plus its row filter's prediction from the decoded neighbouring
/// pixels, modulo 256, and for the colour channels of an image with a
/// gamma, that value's entry in the curve.
pub proof fn truecolour_rows_reverse_the_filters(bytes: Seq<u8>, curve: Seq<u8>)
    requires
        read_png(bytes, curve) is Ok,
        read_png(bytes, curve)->Ok_0.colourType == 2 || read_png(bytes, curve)->Ok_0.colourType == 6,
        read_png(bytes, curve)->Ok_0.interlace != 1,
    ensures
        ({
            let img = read_png(bytes, curve)->Ok_0;
            &&& img.pixels.len() == img.width * img.height
            &&& forall|r: int, j: int|
                0 <= r < img.height && 0 <= j < img.width ==> #[trigger] truecolour_pixel_law(
                    img,
                    curve,
                    data_of(bytes),
                    img.pixels,
                    r,
                    j,
                )
        }),
{
    let img = read_png(bytes, curve)->Ok_0;
    lemma_image_cells(bytes, curve);
    let hdr = header_of(bytes);
    let data = data_of(bytes);
    let w = img.width as int;
    let out = img.pixels;
    assert(img.pixels.len() == img.width * img.height) by (nonlinear_arith)
        requires
            img.pixels.len() == img.height * img.width,
    ;
    assert forall|r: int, j: int| 0 <= r < img.height && 0 <= j < img.width implies #[trigger] truecolour_pixel_law(
        img,
        curve,
        data,
        out,
        r,
        j,
    ) by {
        lemma_truecolour_cell(hdr, img, curve, data, r, j);
    }
}

/// Channel `i` of the colour that reversing the filter gives.
proof fn lemma_filtered_channel(
    f: u8,
    raw: colourRGBA,
    j: int,
    w: int,
    prefix: Seq<colourRGBA>,
    r: int,
    i: int,
)
    requires
        0 <= i < 4,
        0 <= j < w,
        0 <= r,
        prefix.len() == r * w + j,
        (r * w + j >= w) <==> r >= 1,
        r * w + j == w ==> j == 0,
        rgb_filtered(f, raw, j, w, prefix) is Some,
    ensures
        ({
            let k = r * w + j;
            let missing: int = if i == 3 { 255 } else { 0 };
            let l: int = if j > 0 { channel(prefix[k - 1], i) as int } else if f == 1 { 0 } else { missing };
            let a: int = if r > 0 { channel(prefix[k - w], i) as int } else { missing };
            let c: int = if r > 0 && j > 0 { channel(prefix[k - w - 1], i) as int } else { missing };
            channel(rgb_filtered(f, raw, j, w, prefix)->Some_0, i) == ((channel(raw, i) + filter_prediction(
                f,
                l,
                a,
                c,
            )) % 256) as u8
        }),
{
}

proof fn lemma_truecolour_cell(hdr: ImageView, img: ImageView, curve: Seq<u8>, data: Seq<u8>, r: int, j: int)
    requires
        img == (ImageView { pixels: img.pixels, ..hdr }),
        hdr.colourType == 2 || hdr.colourType == 6,
        0 <= r < img.height,
        0 <= j < img.width,
        img.pixels.len() == img.height * img.width,
        grid_ok(hdr, curve, data, 0, img.width as int, 0, img.pixels, r, j),
    ensures
        truecolour_pixel_law(img, curve, data, img.pixels, r, j),
{
    let w = img.width as int;
    let out = img.pixels;
    lemma_grid_index(r, j, w);
    let bpp = rgb_bytes(hdr);
    let s = r * (1 + w * bpp);
    assert(row_start(0, r, w, pixel_bytes(hdr)) == s);
    let k = r * w + j;
    assert(k < img.height * img.width) by (nonlinear_arith)
        requires
            k == r * w + j,
            0 <= r < img.height,
            0 <= j < w,
            w == img.width,
    ;
    let prefix = out.subrange(0, k);
    if j > 0 {
        assert(prefix[k - 1] == out[k - 1]);
    }
    if r > 0 {
        assert(prefix[k - w] == out[k - w]);
    }
    if j > 0 && r > 0 {
        assert(prefix[k - w - 1] == out[k - w - 1]);
    }
    let f = data[s];
    let raw = rgb_raw(hdr, data, s + 1 + j * bpp);
    assert(rgb_filtered(f, raw, j, w, prefix) is Some);
    let c = rgb_filtered(f, raw, j, w, prefix)->Some_0;
    assert(out[k] == gamma_colour(hdr, curve, c));
    lemma_filtered_channel(f, raw, j, w, prefix, r, 0);
    lemma_filtered_channel(f, raw, j, w, prefix, r, 1);
    lemma_filtered_channel(f, raw, j, w, prefix, r, 2);
    lemma_filtered_channel(f, raw, j, w, prefix, r, 3);
    assert(truecolour_channel_law(img, curve, data, out, r, j, 0));
    assert(truecolour_channel_law(img, curve, data, out, r, j, 1));
    assert(truecolour_channel_law(img, curve, data, out, r, j, 2));
    assert(truecolour_channel_law(img, curve, data, out, r, j, 3));
}

/// The palette index of pixel `(r, j)` of a non-interlaced 8-bit palette
/// image `w` pixels wide: the sample after the row's filter byte.
pub open spec fn palette_index(data: Seq<u8>, w: int, r: int, j: int) -> u8 {
    data[r * (1 + w) + 1 + j]
}

/// Pixel `(r, j)` of `out` is the palette entry of its index.
pub open spec fn palette_pixel_law(out: Seq<colourRGBA>, palette: Seq<colourRGBA>, data: Seq<u8>, w: int, r: int, j: int) -> bool {
    out[r * w + j] == palette[palette_index(data, w, r, j) as int]
}

proof fn lemma_palette8_some(img: ImageView, bytes: Seq<u8>, p: int, w: int, j: int, px: Seq<colourRGBA>)
    requires
        0 <= p,
        0 <= j <= w,
        p + w <= bytes.len(),
        forall|t: int| j <= t < w ==> #[trigger] bytes[p + t] < img.colourPalette.len(),
    ensures
        palette8_row(img, bytes, p + j, w, j, px) is Some,
    decreases w - j,
{
    if j < w {
        assert(bytes[p + j] < img.colourPalette.len());
        lemma_palette8_some(img, bytes, p, w, j + 1, px.push(img.colourPalette[bytes[p + j] as int]));
    }
}

proof fn lemma_palette_rows_some(img: ImageView, curve: Seq<u8>, data: Seq<u8>, r0: int, rows: int, px: Seq<colourRGBA>)
    requires
        img.colourType == 3,
        img.depth == 8,
        0 <= r0,
        0 <= rows,
        (r0 + rows) * (1 + img.width) <= data.len(),
        forall|r: int, j: int|
            r0 <= r < r0 + rows && 0 <= j < img.width ==> #[trigger] palette_index(data, img.width as int, r, j)
                < img.colourPalette.len(),
    ensures
        decode_rows(img, curve, data, r0 * (1 + img.width), img.width, rows, px) is Some,
    decreases rows,
{
    let w = img.width as int;
    let pos = r0 * (1 + w);
    if rows > 0 {
        assert(pos + 1 + w <= data.len()) by (nonlinear_arith)
            requires
                (r0 + rows) * (1 + w) <= data.len(),
                rows >= 1,
                pos == r0 * (1 + w),
                w >= 0,
        ;
        assert(pos >= 0) by (nonlinear_arith)
            requires
                r0 >= 0,
                w >= 0,
                pos == r0 * (1 + w),
        ;
        assert forall|t: int| 0 <= t < w implies #[trigger] data[pos + 1 + t] < img.colourPalette.len() by {
            assert(palette_index(data, w, r0, t) < img.colourPalette.len());
        }
        lemma_palette8_some(img, data, pos + 1, w, 0, px);
        lemma_row_cells(img, curve, data, pos, img.width, px);
        let (next, px2) = decode_row(img, curve, data, pos + 1, img.width, data[pos], px).unwrap();
        assert(next == (r0 + 1) * (1 + w)) by (nonlinear_arith)
            requires
                next == pos + 1 + w * 1,
                pos == r0 * (1 + w),
        ;
        lemma_palette_rows_some(img, curve, data, r0 + 1, rows - 1, px2);
    }
}

/// A non-interlaced 8-bit palette image whose data holds all its rows and
/// whose every index lies inside the palette decodes, and each pixel is the
/// palette entry of its index.
pub proof fn palette_rows_decode_to_entries(bytes: Seq<u8>, curve: Seq<u8>)
    requires
        read_chunks(bytes) is Some,
        zlib_inflated(read_chunks(bytes)->Some_0.1) is Some,
        header_of(bytes).colourType == 3,
        header_of(bytes).depth == 8,
        header_of(bytes).interlace != 1,
        data_of(bytes).len() >= header_of(bytes).height * (1 + header_of(bytes).width),
        forall|r: int, j: int|
            0 <= r < header_of(bytes).height && 0 <= j < header_of(bytes).width ==> #[trigger] palette_index(
                data_of(bytes),
                header_of(bytes).width as int,
                r,
                j,
            ) < header_of(bytes).colourPalette.len(),
    ensures
        read_png(bytes, curve) is Ok,
        ({
            let img = read_png(bytes, curve)->Ok_0;
            &&& img.pixels.len() == img.width * img.height
            &&& img.colourPalette == header_of(bytes).colourPalette
            &&& forall|r: int, j: int|
                0 <= r < img.height && 0 <= j < img.width ==> #[trigger] palette_pixel_law(
                    img.pixels,
                    img.colourPalette,
                    data_of(bytes),
                    img.width as int,
                    r,
                    j,
                )
        }),
{
    let hdr = header_of(bytes);
    let data = data_of(bytes);
    let w = hdr.width as int;
    assert(0 * (1 + w) == 0);
    assert((0 + hdr.height) * (1 + w) == hdr.height * (1 + w));
    lemma_palette_rows_some(hdr, curve, data, 0, hdr.height as int, Seq::empty());
    lemma_image_cells(bytes, curve);
    let img = read_png(bytes, curve)->Ok_0;
    let out = img.pixels;
    assert(img.pixels.len() == img.width * img.height) by (nonlinear_arith)
        requires
            img.pixels.len() == img.height * img.width,
    ;
    assert forall|r: int, j: int| 0 <= r < img.height && 0 <= j < img.width implies #[trigger] palette_pixel_law(
        out,
        img.colourPalette,
        data,
        w,
        r,
        j,
    ) by {
        assert(grid_ok(hdr, curve, data, 0, w, 0, out, r, j));
        assert(row_start(0, r, w, pixel_bytes(hdr)) == r * (1 + w));
        assert(0 + r * w == r * w + 0);
    }
}

proof fn lemma_grey8_some(bytes: Seq<u8>, p: int, w: int, f: u8, j: int, px: Seq<colourRGBA>)
    requires
        0 <= p,
        0 <= j <= w,
        p + w <= bytes.len(),
    ensures
        grey8_row(bytes, p + j, w, f, j, px) is Some,
    decreases w - j,
{
    if j < w {
        lemma_grey8_some(bytes, p, w, f, j + 1, px.push(grey8_pixel(f, bytes[p + j], j, w, px)));
    }
}

proof fn lemma_rgb_some(
    img: ImageView,
    curve: Seq<u8>,
    bytes: Seq<u8>,
    p: int,
    w: int,
    f: u8,
    r: int,
    j: int,
    px: Seq<colourRGBA>,
)
    requires
        img.colourType == 2 || img.colourType == 6,
        0 <= p,
        0 <= j <= w,
        0 <= r,
        p + w * rgb_bytes(img) <= bytes.len(),
        px.len() == r * w + j,
        f == 2 ==> r >= 1,
    ensures
        rgb_row(img, curve, bytes, p + j * rgb_bytes(img), w, f, j, px) is Some,
    decreases w - j,
{
    if j < w {
        let bpp = rgb_bytes(img);
        assert(p + j * bpp + bpp <= p + w * bpp) by (nonlinear_arith)
            requires
                j + 1 <= w,
                bpp > 0,
        ;
        assert(p + j * bpp >= 0) by (nonlinear_arith)
            requires
                p >= 0,
                j >= 0,
                bpp > 0,
        ;
        if r >= 1 {
            assert(r * w >= w) by (nonlinear_arith)
                requires
                    r >= 1,
                    w > 0,
            ;
        } else {
            assert(r * w == 0);
        }
        let raw = rgb_raw(img, bytes, p + j * bpp);
        assert(rgb_filtered(f, raw, j, w, px) is Some);
        let c = rgb_filtered(f, raw, j, w, px)->Some_0;
        assert(p + j * bpp + bpp == p + (j + 1) * bpp) by (nonlinear_arith);
        lemma_rgb_some(img, curve, bytes, p, w, f, r, j + 1, px.push(gamma_colour(img, curve, c)));
    }
}

proof fn lemma_rows_some(img: ImageView, curve: Seq<u8>, data: Seq<u8>, r0: int, rows: int, px: Seq<colourRGBA>)
    requires
        (img.colourType == 0 && img.depth == 8) || img.colourType == 2 || img.colourType == 6,
        0 <= r0,
        0 <= rows,
        px.len() == r0 * img.width,
        (r0 + rows) * (1 + img.width * pixel_bytes(img)) <= data.len(),
        img.colourType != 0 && r0 == 0 && rows > 0 && img.width > 0 ==> data[0] != 2,
    ensures
        decode_rows(img, curve, data, r0 * (1 + img.width * pixel_bytes(img)), img.width, rows, px) is Some,
    decreases rows,
{
    let w = img.width as int;
    let pb = pixel_bytes(img);
    let len = 1 + w * pb;
    let pos = r0 * len;
    if rows > 0 {
        assert(w * pb >= 0) by (nonlinear_arith)
            requires
                w >= 0,
                pb >= 1,
        ;
        assert(pos + len <= data.len()) by (nonlinear_arith)
            requires
                (r0 + rows) * len <= data.len(),
                rows >= 1,
                pos == r0 * len,
                len >= 1,
        ;
        assert(pos >= 0) by (nonlinear_arith)
            requires
                r0 >= 0,
                len >= 1,
                pos == r0 * len,
        ;
        let f = data[pos];
        if img.colourType == 0 {
            lemma_grey8_some(data, pos + 1, w, f, 0, px);
        } else {
            assert(pos + 1 + 0 * rgb_bytes(img) == pos + 1);
            if r0 == 0 {
                assert(pos == 0);
            }
            if w > 0 {
                lemma_rgb_some(img, curve, data, pos + 1, w, f, r0, 0, px);
            }
        }
        lemma_row_cells(img, curve, data, pos, img.width, px);
        let (next, px2) = decode_row(img, curve, data, pos + 1, img.width, f, px).unwrap();
        assert(next == (r0 + 1) * len) by (nonlinear_arith)
            requires
                next == pos + 1 + w * pb,
                pos == r0 * len,
                len == 1 + w * pb,
        ;
        assert(px2.len() == (r0 + 1) * w) by (nonlinear_arith)
            requires
                px2.len() == r0 * w + w,
        ;
        lemma_rows_some(img, curve, data, r0 + 1, rows - 1, px2);
    }
}

/// A non-interlaced eight-bit greyscale or truecolour image decodes whenever
/// its decompressed data holds all its rows, each a filter byte and
/// `width * pixel_bytes` bytes of samples; the one exception is a
/// truecolour image whose first row uses the up filter, which has no row
/// above it to add.
pub proof fn complete_rows_decode(bytes: Seq<u8>, curve: Seq<u8>)
    requires
        read_chunks(bytes) is Some,
        zlib_inflated(read_chunks(bytes)->Some_0.1) is Some,
        header_of(bytes).interlace != 1,
        (header_of(bytes).colourType == 0 && header_of(bytes).depth == 8) || header_of(bytes).colourType == 2
            || header_of(bytes).colourType == 6,
        data_of(bytes).len() >= header_of(bytes).height * (1 + header_of(bytes).width * pixel_bytes(
            header_of(bytes),
        )),
        header_of(bytes).colourType != 0 && header_of(bytes).height > 0 && header_of(bytes).width > 0
            ==> data_of(bytes)[0] != 2,
    ensures
        read_png(bytes, curve) is Ok,
        read_png(bytes, curve)->Ok_0.pixels.len() == header_of(bytes).width * header_of(bytes).height,
{
    let hdr = header_of(bytes);
    let data = data_of(bytes);
    let w = hdr.width as int;
    let pb = pixel_bytes(hdr);
    assert(0 * (1 + w * pb) == 0);
    assert((0 + hdr.height) * (1 + w * pb) == hdr.height * (1 + w * pb));
    assert(Seq::<colourRGBA>::empty().len() == 0 * w);
    lemma_rows_some(hdr, curve, data, 0, hdr.height as int, Seq::empty());
    lemma_image_cells(bytes, curve);
    let img = read_png(bytes, curve)->Ok_0;
    assert(img.pixels.len() == img.width * img.height) by (nonlinear_arith)
        requires
            img.pixels.len() == img.height * img.width,
    ;
}

} // verus!
