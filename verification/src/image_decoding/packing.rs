use vstd::prelude::*;

use super::decode::{decode_row, decode_rows, packed_byte, packed_row, sample_at, scale_sample};
use super::image::{colourRGBA, ImageView};
use super::png::{read_chunks, read_png, zlib_inflated};
use super::scanlines::{data_of, header_of};
use vstd::arithmetic::power2::{lemma2_to64, pow2};
use vstd::bits::lemma_u8_shr_is_div;

verus! {

/// The sample of `d` bits that starts `o` bits from the most significant
/// end of `byte`, by arithmetic: `byte` divided by two to the number of
/// bits below the sample, modulo two to `d`.
pub open spec fn bits_at(byte: u8, d: int, o: int) -> int {
    (byte as int / pow2((8 - d - o) as nat) as int) % pow2(d as nat) as int
}

/// A sample of `d` bits scaled to a level: `sample * 255 / (2^d - 1)`,
/// rounded down.
pub open spec fn level_of(sample: int, d: int) -> int {
    sample * 255 / (pow2(d as nat) - 1)
}

/// The bit depths at which greyscale and palette samples are packed
/// several to a byte.
pub open spec fn packed_depth(d: u8) -> bool {
    d == 1 || d == 2 || d == 4
}

/// The decoder's sample is the arithmetic one, and below `2^d`.
proof fn lemma_sample_value(byte: u8, d: u8, o: int)
    requires
        packed_depth(d),
        0 <= o,
        o + d <= 8,
    ensures
        sample_at(byte, d, o) as int == bits_at(byte, d as int, o),
        bits_at(byte, d as int, o) < pow2(d as nat),
{
    lemma2_to64();
    let s: u8 = (8 - d - o) as u8;
    lemma_u8_shr_is_div(byte, s);
    let x: u8 = byte >> s;
    assert(x as int == byte as int / pow2(s as nat) as int);
    if d == 1 {
        assert(((1u8 << d) - 1) as u8 == 1u8) by (bit_vector)
            requires
                d == 1u8,
        ;
        assert(x & 1u8 == x % 2) by (bit_vector);
    } else if d == 2 {
        assert(((1u8 << d) - 1) as u8 == 3u8) by (bit_vector)
            requires
                d == 2u8,
        ;
        assert(x & 3u8 == x % 4) by (bit_vector);
    } else {
        assert(((1u8 << d) - 1) as u8 == 15u8) by (bit_vector)
            requires
                d == 4u8,
        ;
        assert(x & 15u8 == x % 16) by (bit_vector);
    }
}

/// The decoder's scaled level is the arithmetic one.
proof fn lemma_level_value(sample: u8, d: u8)
    requires
        packed_depth(d),
        sample < pow2(d as nat),
    ensures
        scale_sample(sample, d) as int == level_of(sample as int, d as int),
{
    lemma2_to64();
    if d == 1 {
        assert((1u32 << d) == 2u32) by (bit_vector)
            requires
                d == 1u8,
        ;
        assert(0 <= sample as int * 255 / 1 <= 255) by (nonlinear_arith)
            requires
                sample < 2,
        ;
    } else if d == 2 {
        assert((1u32 << d) == 4u32) by (bit_vector)
            requires
                d == 2u8,
        ;
        assert(0 <= sample as int * 255 / 3 <= 255) by (nonlinear_arith)
            requires
                sample < 4,
        ;
    } else {
        assert((1u32 << d) == 16u32) by (bit_vector)
            requires
                d == 4u8,
        ;
        assert(0 <= sample as int * 255 / 15 <= 255) by (nonlinear_arith)
            requires
                sample < 16,
        ;
    }
}

/// The pixel that the decoder makes of a packed sample.
spec fn sample_pixel(img: ImageView, sample: u8) -> colourRGBA {
    if img.colourType == 0 {
        let level = scale_sample(sample, img.depth);
        colourRGBA { R: level, G: level, B: level, A: 255 }
    } else {
        img.colourPalette[sample as int]
    }
}

/// Greyscale or palette samples packed several to a byte.
spec fn packs(img: ImageView) -> bool {
    &&& img.colourType == 0 || img.colourType == 3
    &&& packed_depth(img.depth)
}

/// Past the limit, the rest of a byte gives no pixels.
proof fn lemma_packed_byte_tail(img: ImageView, byte: u8, j: int, limit: int, px: Seq<colourRGBA>)
    requires
        img.depth >= 1,
        j >= limit,
    ensures
        packed_byte(img, byte, j, limit, px) == Some(px),
    decreases if j >= 8 { 0 } else { 8 - j },
{
    if j < 8 {
        lemma_packed_byte_tail(img, byte, j + img.depth, limit, px);
    }
}

/// The samples `u, u + 1, ..., n - 1` of a byte, each of `d` bits, become
/// the pixels after `px`, where `n * d` is the smaller of 8 and the limit.
proof fn lemma_packed_byte_cells(
    img: ImageView,
    byte: u8,
    u: int,
    n: int,
    limit: int,
    base: int,
    px: Seq<colourRGBA>,
)
    requires
        packs(img),
        n * img.depth == if limit < 8 { limit } else { 8 },
        0 <= u <= n,
        base >= 0,
        px.len() == base + u,
        packed_byte(img, byte, u * img.depth, limit, px) is Some,
    ensures
        ({
            let out = packed_byte(img, byte, u * img.depth, limit, px).unwrap();
            &&& out.len() == base + n
            &&& out.subrange(0, base + u) == px
            &&& forall|v: int|
                u <= v < n ==> #[trigger] out[base + v] == sample_pixel(img, sample_at(byte, img.depth, v * img.depth))
        }),
    decreases n - u,
{
    let d = img.depth as int;
    let out = packed_byte(img, byte, u * d, limit, px).unwrap();
    if u < n {
        assert((u + 1) * d <= n * d) by (nonlinear_arith)
            requires
                u + 1 <= n,
                d > 0,
        ;
        assert((u + 1) * d == u * d + d) by (nonlinear_arith);
        assert(u * d >= 0) by (nonlinear_arith)
            requires
                u >= 0,
                d > 0,
        ;
        let px2 = px.push(sample_pixel(img, sample_at(byte, img.depth, u * d)));
        assert(packed_byte(img, byte, u * d, limit, px) == packed_byte(img, byte, (u + 1) * d, limit, px2));
        lemma_packed_byte_cells(img, byte, u + 1, n, limit, base, px2);
        assert(out.subrange(0, base + u) =~= out.subrange(0, base + u + 1).subrange(0, base + u));
        assert(px2.subrange(0, base + u) =~= px);
        assert(out[base + u] == out.subrange(0, base + u + 1)[base + u]);
    } else {
        assert(u * d == n * d);
        if limit < 8 {
            lemma_packed_byte_tail(img, byte, u * d, limit, px);
        }
        assert(out.subrange(0, base + u) =~= out);
    }
}

/// Pixel `base + b * n + v` of `out` is the decoder's pixel for sample `v`
/// of byte `b` of the row whose bytes start at `p`.
spec fn packed_cell(img: ImageView, bytes: Seq<u8>, p: int, n: int, base: int, out: Seq<colourRGBA>, b: int, v: int) -> bool {
    out[base + b * n + v] == sample_pixel(img, sample_at(bytes[p + b], img.depth, v * img.depth))
}

/// Bytes `k..nb` of a row of packed samples, `n` pixels to a byte.
proof fn lemma_packed_row_cells(
    img: ImageView,
    bytes: Seq<u8>,
    p: int,
    nb: int,
    k: int,
    n: int,
    limit: int,
    base: int,
    px: Seq<colourRGBA>,
)
    requires
        packs(img),
        n * img.depth == if limit < 8 { limit } else { 8 },
        n >= 0,
        0 <= k <= nb,
        base >= 0,
        px.len() == base + k * n,
        packed_row(img, bytes, p + k, nb, k, limit, px) is Some,
    ensures
        ({
            let (q, out) = packed_row(img, bytes, p + k, nb, k, limit, px).unwrap();
            &&& q == p + nb
            &&& out.len() == base + nb * n
            &&& out.subrange(0, base + k * n) == px
            &&& forall|b: int, v: int|
                k <= b < nb && 0 <= v < n ==> #[trigger] packed_cell(img, bytes, p, n, base, out, b, v)
        }),
    decreases nb - k,
{
    let (q, out) = packed_row(img, bytes, p + k, nb, k, limit, px).unwrap();
    if k < nb {
        let byte = bytes[p + k];
        let start = base + k * n;
        assert(0 * img.depth == 0);
        lemma_packed_byte_cells(img, byte, 0, n, limit, start, px);
        let px2 = packed_byte(img, byte, 0, limit, px).unwrap();
        assert(start + n == base + (k + 1) * n) by (nonlinear_arith)
            requires
                start == base + k * n,
        ;
        lemma_packed_row_cells(img, bytes, p, nb, k + 1, n, limit, base, px2);
        assert((k + 1) * n <= nb * n) by (nonlinear_arith)
            requires
                k + 1 <= nb,
                n >= 0,
        ;
        assert(out.subrange(0, start) =~= out.subrange(0, start + n).subrange(0, start));
        assert(px2.subrange(0, start) =~= px);
        assert forall|b: int, v: int| k <= b < nb && 0 <= v < n implies #[trigger] packed_cell(
            img,
            bytes,
            p,
            n,
            base,
            out,
            b,
            v,
        ) by {
            if b == k {
                assert(out[start + v] == out.subrange(0, start + n)[start + v]);
                assert(px2[start + v] == sample_pixel(img, sample_at(byte, img.depth, v * img.depth)));
            } else {
                assert(packed_cell(img, bytes, p, n, base, out, b, v));
            }
        }
    } else {
        assert(out.subrange(0, base + k * n) =~= out);
    }
}

/// The pixels that one byte of a row gives: as many samples as fit in the
/// smaller of a byte and the row.
spec fn per_byte(w: int, d: int) -> int {
    if w * d < 8 { w } else { 8int / d }
}

/// The bytes of a row of `w` samples of `d` bits.
spec fn row_bytes(w: int, d: int) -> int {
    (w * d + 7) / 8
}

/// A row whose samples fill its bytes, or fit in one.
pub open spec fn fills_bytes(w: int, d: int) -> bool {
    w * d % 8 == 0 || w * d <= 8
}

proof fn lemma_row_counts(w: int, d: int)
    requires
        d == 1 || d == 2 || d == 4,
        w >= 0,
        fills_bytes(w, d),
    ensures
        per_byte(w, d) * d == if w * d < 8 { w * d } else { 8 },
        per_byte(w, d) >= 0,
        row_bytes(w, d) * per_byte(w, d) == w,
        row_bytes(w, d) >= 0,
{
    let n = per_byte(w, d);
    let nb = row_bytes(w, d);
    let m = w * d;
    assert(m >= 0) by (nonlinear_arith)
        requires
            w >= 0,
            d > 0,
            m == w * d,
    ;
    if m < 8 {
        if w == 0 {
            assert(m == 0) by (nonlinear_arith)
                requires
                    w == 0,
                    m == w * d,
            ;
        } else {
            assert(m >= 1) by (nonlinear_arith)
                requires
                    w >= 1,
                    d >= 1,
                    m == w * d,
            ;
            assert(nb == 1);
        }
        assert(nb * n == w) by (nonlinear_arith)
            requires
                n == w,
                w == 0 || nb == 1,
        ;
    } else if d == 1 {
        assert(m == w * 1);
        assert(n == 8 && nb == w / 8);
        assert(nb * n == w) by (nonlinear_arith)
            requires
                n == 8,
                nb == w / 8,
                w % 8 == 0,
        ;
    } else if d == 2 {
        assert(m == w * 2);
        assert(n == 4 && nb == w / 4);
        assert(nb * n == w) by (nonlinear_arith)
            requires
                n == 4,
                nb == w / 4,
                w % 4 == 0,
        ;
    } else {
        assert(m == w * 4);
        assert(n == 2 && nb == w / 2);
        assert(nb * n == w) by (nonlinear_arith)
            requires
                n == 2,
                nb == w / 2,
                w % 2 == 0,
        ;
    }
}

/// Column `j` of such a row lies in byte `j / n`, at sample `j % n`, which
/// is `j * d / 8` and `(j * d % 8) / d`.
proof fn lemma_column_place(w: int, d: int, j: int)
    requires
        d == 1 || d == 2 || d == 4,
        fills_bytes(w, d),
        0 <= j < w,
    ensures
        ({
            let n = per_byte(w, d);
            &&& n > 0
            &&& j == (j / n) * n + j % n
            &&& 0 <= j / n < row_bytes(w, d)
            &&& 0 <= j % n < n
            &&& j * d / 8 == j / n
            &&& j * d % 8 == (j % n) * d
        }),
{
    lemma_row_counts(w, d);
    let n = per_byte(w, d);
    let nb = row_bytes(w, d);
    if w * d < 8 {
        assert(0 <= j * d < w * d) by (nonlinear_arith)
            requires
                0 <= j < w,
                d > 0,
        ;
        vstd::arithmetic::div_mod::lemma_basic_div(j, n);
        vstd::arithmetic::div_mod::lemma_small_mod(j as nat, n as nat);
        vstd::arithmetic::div_mod::lemma_basic_div(j * d, 8);
        vstd::arithmetic::div_mod::lemma_small_mod((j * d) as nat, 8);
        assert(nb >= 1) by (nonlinear_arith)
            requires
                nb * n == w,
                w > 0,
                n == w,
        ;
    } else {
        if d == 1 {
            assert(j * d == j * 1);
        } else if d == 2 {
            assert(j * d == j * 2);
        } else {
            assert(j * d == j * 4);
        }
        vstd::arithmetic::div_mod::lemma_fundamental_div_mod(j, n);
        assert(j / n < nb) by (nonlinear_arith)
            requires
                nb * n == w,
                j < w,
                n > 0,
                j == (j / n) * n + j % n,
                j % n >= 0,
        ;
    }
}

/// Pixel `base + r * w + j` of `out` is the decoder's pixel for column `j`
/// of packed row `r`, the rows starting at `pos`.
spec fn packed_grid_ok(img: ImageView, bytes: Seq<u8>, pos: int, w: int, base: int, out: Seq<colourRGBA>, r: int, j: int) -> bool {
    let d = img.depth as int;
    let s = pos + r * (1 + row_bytes(w, d));
    out[base + r * w + j] == sample_pixel(img, sample_at(bytes[s + 1 + j * d / 8], img.depth, j * d % 8))
}

proof fn lemma_packed_rows_cells(
    img: ImageView,
    curve: Seq<u8>,
    bytes: Seq<u8>,
    pos: int,
    w: u32,
    rows: int,
    px: Seq<colourRGBA>,
)
    requires
        packs(img),
        fills_bytes(w as int, img.depth as int),
        rows >= 0,
        decode_rows(img, curve, bytes, pos, w, rows, px) is Some,
    ensures
        ({
            let out = decode_rows(img, curve, bytes, pos, w, rows, px).unwrap().1;
            &&& out.len() == px.len() + rows * w
            &&& out.subrange(0, px.len() as int) == px
            &&& forall|r: int, j: int|
                0 <= r < rows && 0 <= j < w ==> #[trigger] packed_grid_ok(
                    img,
                    bytes,
                    pos,
                    w as int,
                    px.len() as int,
                    out,
                    r,
                    j,
                )
        }),
    decreases rows,
{
    let base = px.len() as int;
    let d = img.depth as int;
    let wi = w as int;
    let out = decode_rows(img, curve, bytes, pos, w, rows, px).unwrap().1;
    if rows > 0 {
        lemma_row_counts(wi, d);
        let nb = row_bytes(wi, d);
        let n = per_byte(wi, d);
        assert(decode_row(img, curve, bytes, pos + 1, w, bytes[pos], px) == packed_row(
            img,
            bytes,
            pos + 1,
            nb,
            0,
            wi * d,
            px,
        ));
        assert(px.len() == base + 0 * n);
        assert(pos + 1 + 0 == pos + 1);
        lemma_packed_row_cells(img, bytes, pos + 1, nb, 0, n, wi * d, base, px);
        let (next, px2) = packed_row(img, bytes, pos + 1, nb, 0, wi * d, px).unwrap();
        lemma_packed_rows_cells(img, curve, bytes, next, w, rows - 1, px2);
        assert(out.subrange(0, base) =~= out.subrange(0, base + wi).subrange(0, base));
        assert(px2.subrange(0, base) =~= px);
        assert(out.len() == base + rows * wi) by (nonlinear_arith)
            requires
                out.len() == base + wi + (rows - 1) * wi,
        ;
        assert forall|r: int, j: int| 0 <= r < rows && 0 <= j < w implies #[trigger] packed_grid_ok(
            img,
            bytes,
            pos,
            wi,
            base,
            out,
            r,
            j,
        ) by {
            if r == 0 {
                lemma_column_place(wi, d, j);
                let b = j / n;
                let v = j % n;
                assert(packed_cell(img, bytes, pos + 1, n, base, px2, b, v));
                assert(out[base + j] == px2[base + j]) by {
                    assert(out.subrange(0, base + wi)[base + j] == out[base + j]);
                }
                assert(pos + 0 * (1 + nb) == pos);
                assert(base + 0 * wi + j == base + b * n + v);
            } else {
                assert(packed_grid_ok(img, bytes, next, wi, base + wi, out, r - 1, j));
                assert(next + (r - 1) * (1 + nb) == pos + r * (1 + nb)) by (nonlinear_arith)
                    requires
                        next == pos + 1 + nb,
                ;
                assert(base + wi + (r - 1) * wi == base + r * wi) by (nonlinear_arith);
            }
        }
    } else {
        assert(out.subrange(0, base) =~= px);
        assert(rows * wi == 0) by (nonlinear_arith)
            requires
                rows == 0,
        ;
    }
}

/// Sample `j` of row `r` of a non-interlaced image of `d`-bit samples
/// packed from the most significant bit of each byte down: row `r` is a
/// filter byte and `(w * d + 7) / 8` bytes of samples, and the sample is
/// the `d` bits at bit `j * d` of them.
pub open spec fn packed_sample(img: ImageView, data: Seq<u8>, r: int, j: int) -> int {
    let w = img.width as int;
    let d = img.depth as int;
    let nb = (w * d + 7) / 8;
    bits_at(data[r * (1 + nb) + 1 + j * d / 8], d, j * d % 8)
}

/// Pixel `(r, j)` of the non-interlaced greyscale or palette image `out`,
/// whose samples have `d` bits, packed from the most significant bit of
/// each byte down: row `r` is a filter byte and `(w * d + 7) / 8` bytes of
/// samples; sample `j` is the `d` bits at bit `j * d` of the row. A
/// greyscale pixel is the opaque grey `sample * 255 / (2^d - 1)`; a palette
/// pixel is the palette entry of the sample.
pub open spec fn packed_pixel_law(img: ImageView, data: Seq<u8>, out: Seq<colourRGBA>, r: int, j: int) -> bool {
    let w = img.width as int;
    let d = img.depth as int;
    let sample = packed_sample(img, data, r, j);
    out[r * w + j] == if img.colourType == 0 {
        let level = level_of(sample, d) as u8;
        colourRGBA { R: level, G: level, B: level, A: 255 }
    } else {
        img.colourPalette[sample]
    }
}

/// The pixels of a non-interlaced greyscale or palette image of one, two
/// or four bits per sample whose rows fill their bytes or fit in one byte:
/// each pixel is made of the bits of its sample, read from the most
/// significant end of its row's bytes, as a scaled grey or a palette entry.
pub proof fn packed_rows_unpack_samples(bytes: Seq<u8>, curve: Seq<u8>)
    requires
        read_png(bytes, curve) is Ok,
        read_png(bytes, curve)->Ok_0.colourType == 0 || read_png(bytes, curve)->Ok_0.colourType == 3,
        packed_depth(read_png(bytes, curve)->Ok_0.depth),
        read_png(bytes, curve)->Ok_0.interlace != 1,
        fills_bytes(read_png(bytes, curve)->Ok_0.width as int, read_png(bytes, curve)->Ok_0.depth as int),
    ensures
        ({
            let img = read_png(bytes, curve)->Ok_0;
            &&& img.pixels.len() == img.width * img.height
            &&& forall|r: int, j: int|
                0 <= r < img.height && 0 <= j < img.width ==> #[trigger] packed_pixel_law(
                    img,
                    data_of(bytes),
                    img.pixels,
                    r,
                    j,
                )
        }),
{
    let img = read_png(bytes, curve)->Ok_0;
    let hdr = header_of(bytes);
    let data = data_of(bytes);
    let w = hdr.width as int;
    let d = hdr.depth as int;
    let out = img.pixels;
    lemma_packed_rows_cells(hdr, curve, data, 0, hdr.width, hdr.height as int, Seq::empty());
    assert(img == (ImageView { pixels: out, ..hdr }));
    assert(out.len() == img.width * img.height) by (nonlinear_arith)
        requires
            out.len() == 0 + img.height * img.width,
    ;
    lemma_row_counts(w, d);
    assert forall|r: int, j: int| 0 <= r < img.height && 0 <= j < img.width implies #[trigger] packed_pixel_law(
        img,
        data,
        out,
        r,
        j,
    ) by {
        assert(packed_grid_ok(hdr, data, 0, w, 0, out, r, j));
        lemma_column_place(w, d, j);
        let n = per_byte(w, d);
        let o = j * d % 8;
        assert((j % n + 1) * d <= n * d) by (nonlinear_arith)
            requires
                j % n < n,
                d > 0,
        ;
        assert((j % n + 1) * d == (j % n) * d + d) by (nonlinear_arith);
        assert(0 <= (j % n) * d) by (nonlinear_arith)
            requires
                j % n >= 0,
                d > 0,
        ;
        let byte = data[0 + r * (1 + row_bytes(w, d)) + 1 + j * d / 8];
        lemma_sample_value(byte, hdr.depth, o);
        let sample = sample_at(byte, hdr.depth, o);
        if hdr.colourType == 0 {
            lemma_level_value(sample, hdr.depth);
        }
        assert(0 + r * w + j == r * w + j);
    }
}

proof fn lemma_packed_byte_some(img: ImageView, byte: u8, u: int, n: int, limit: int, px: Seq<colourRGBA>)
    requires
        packs(img),
        n * img.depth == if limit < 8 { limit } else { 8 },
        0 <= u <= n,
        forall|v: int|
            u <= v < n && img.colourType == 3 ==> #[trigger] sample_at(byte, img.depth, v * img.depth)
                < img.colourPalette.len(),
    ensures
        packed_byte(img, byte, u * img.depth, limit, px) is Some,
    decreases n - u,
{
    let d = img.depth as int;
    if u < n {
        assert((u + 1) * d <= n * d) by (nonlinear_arith)
            requires
                u + 1 <= n,
                d > 0,
        ;
        assert((u + 1) * d == u * d + d) by (nonlinear_arith);
        assert(u * d >= 0) by (nonlinear_arith)
            requires
                u >= 0,
                d > 0,
        ;
        let px2 = px.push(sample_pixel(img, sample_at(byte, img.depth, u * d)));
        if img.colourType == 3 {
            assert(sample_at(byte, img.depth, u * d) < img.colourPalette.len());
        }
        assert(packed_byte(img, byte, u * d, limit, px) == packed_byte(img, byte, (u + 1) * d, limit, px2));
        lemma_packed_byte_some(img, byte, u + 1, n, limit, px2);
    } else {
        assert(u * d == n * d);
        if limit < 8 {
            lemma_packed_byte_tail(img, byte, u * d, limit, px);
        }
    }
}

proof fn lemma_packed_row_some(
    img: ImageView,
    bytes: Seq<u8>,
    p: int,
    nb: int,
    k: int,
    n: int,
    limit: int,
    px: Seq<colourRGBA>,
)
    requires
        packs(img),
        n * img.depth == if limit < 8 { limit } else { 8 },
        n >= 0,
        0 <= k <= nb,
        0 <= p,
        p + nb <= bytes.len(),
        forall|b: int, v: int|
            k <= b < nb && 0 <= v < n && img.colourType == 3 ==> #[trigger] sample_at(
                bytes[p + b],
                img.depth,
                v * img.depth,
            ) < img.colourPalette.len(),
    ensures
        packed_row(img, bytes, p + k, nb, k, limit, px) is Some,
    decreases nb - k,
{
    if k < nb {
        let byte = bytes[p + k];
        assert(0 * img.depth == 0);
        assert forall|v: int| 0 <= v < n && img.colourType == 3 implies #[trigger] sample_at(
            byte,
            img.depth,
            v * img.depth,
        ) < img.colourPalette.len() by {
            assert(sample_at(bytes[p + k], img.depth, v * img.depth) < img.colourPalette.len());
        }
        lemma_packed_byte_some(img, byte, 0, n, limit, px);
        let px2 = packed_byte(img, byte, 0, limit, px).unwrap();
        lemma_packed_row_some(img, bytes, p, nb, k + 1, n, limit, px2);
    }
}

proof fn lemma_packed_rows_some(
    img: ImageView,
    curve: Seq<u8>,
    data: Seq<u8>,
    r0: int,
    rows: int,
    px: Seq<colourRGBA>,
)
    requires
        packs(img),
        fills_bytes(img.width as int, img.depth as int),
        img.width * img.depth + 7 <= u32::MAX,
        0 <= r0,
        0 <= rows,
        (r0 + rows) * (1 + row_bytes(img.width as int, img.depth as int)) <= data.len(),
        forall|r: int, j: int|
            r0 <= r < r0 + rows && 0 <= j < img.width && img.colourType == 3 ==> #[trigger] packed_sample(
                img,
                data,
                r,
                j,
            ) < img.colourPalette.len(),
    ensures
        decode_rows(img, curve, data, r0 * (1 + row_bytes(img.width as int, img.depth as int)), img.width, rows, px)
            is Some,
    decreases rows,
{
    let w = img.width as int;
    let d = img.depth as int;
    let nb = row_bytes(w, d);
    let pos = r0 * (1 + nb);
    if rows > 0 {
        lemma_row_counts(w, d);
        let n = per_byte(w, d);
        assert(pos + 1 + nb <= data.len()) by (nonlinear_arith)
            requires
                (r0 + rows) * (1 + nb) <= data.len(),
                rows >= 1,
                pos == r0 * (1 + nb),
                nb >= 0,
        ;
        assert(pos >= 0) by (nonlinear_arith)
            requires
                r0 >= 0,
                nb >= 0,
                pos == r0 * (1 + nb),
        ;
        assert(decode_row(img, curve, data, pos + 1, img.width, data[pos], px) == packed_row(
            img,
            data,
            pos + 1,
            nb,
            0,
            w * d,
            px,
        ));
        assert forall|b: int, v: int| 0 <= b < nb && 0 <= v < n && img.colourType == 3 implies #[trigger] sample_at(
            data[pos + 1 + b],
            img.depth,
            v * img.depth,
        ) < img.colourPalette.len() by {
            let j = b * n + v;
            assert((b + 1) * n <= nb * n) by (nonlinear_arith)
                requires
                    b + 1 <= nb,
                    n >= 0,
            ;
            assert((b + 1) * n == b * n + n) by (nonlinear_arith);
            assert(j < w);
            assert(j >= 0) by (nonlinear_arith)
                requires
                    j == b * n + v,
                    b >= 0,
                    v >= 0,
                    n >= 0,
            ;
            lemma_column_place(w, d, j);
            vstd::arithmetic::div_mod::lemma_fundamental_div_mod_converse(j, n, b, v);
            assert(packed_sample(img, data, r0, j) < img.colourPalette.len());
            assert((v + 1) * d <= n * d) by (nonlinear_arith)
                requires
                    v < n,
                    d > 0,
            ;
            assert((v + 1) * d == v * d + d) by (nonlinear_arith);
            assert(0 <= v * d) by (nonlinear_arith)
                requires
                    v >= 0,
                    d > 0,
            ;
            lemma_sample_value(data[pos + 1 + b], img.depth, v * d);
        }
        assert(pos + 1 + 0 == pos + 1);
        lemma_packed_row_some(img, data, pos + 1, nb, 0, n, w * d, px);
        assert(px.len() == px.len() + 0 * n);
        lemma_packed_row_cells(img, data, pos + 1, nb, 0, n, w * d, px.len() as int, px);
        let (next, px2) = packed_row(img, data, pos + 1, nb, 0, w * d, px).unwrap();
        assert(next == (r0 + 1) * (1 + nb)) by (nonlinear_arith)
            requires
                next == pos + 1 + nb,
                pos == r0 * (1 + nb),
        ;
        lemma_packed_rows_some(img, curve, data, r0 + 1, rows - 1, px2);
    }
}

/// A non-interlaced greyscale or palette image of one, two or four bits per
/// sample whose rows fill their bytes or fit in one byte decodes whenever
/// its decompressed data holds all its rows, each a filter byte and
/// `(width * depth + 7) / 8` bytes of samples, and, for a palette image,
/// every sample lies inside the palette.
pub proof fn complete_packed_rows_decode(bytes: Seq<u8>, curve: Seq<u8>)
    requires
        read_chunks(bytes) is Some,
        zlib_inflated(read_chunks(bytes)->Some_0.1) is Some,
        header_of(bytes).interlace != 1,
        header_of(bytes).colourType == 0 || header_of(bytes).colourType == 3,
        packed_depth(header_of(bytes).depth),
        fills_bytes(header_of(bytes).width as int, header_of(bytes).depth as int),
        header_of(bytes).width * header_of(bytes).depth + 7 <= u32::MAX,
        data_of(bytes).len() >= header_of(bytes).height * (1 + (header_of(bytes).width * header_of(bytes).depth
            + 7) / 8),
        forall|r: int, j: int|
            0 <= r < header_of(bytes).height && 0 <= j < header_of(bytes).width && header_of(bytes).colourType
                == 3 ==> #[trigger] packed_sample(header_of(bytes), data_of(bytes), r, j)
                < header_of(bytes).colourPalette.len(),
    ensures
        read_png(bytes, curve) is Ok,
{
    let hdr = header_of(bytes);
    let data = data_of(bytes);
    let nb = row_bytes(hdr.width as int, hdr.depth as int);
    assert(0 * (1 + nb) == 0);
    assert((0 + hdr.height) * (1 + nb) == hdr.height * (1 + nb));
    lemma_packed_rows_some(hdr, curve, data, 0, hdr.height as int, Seq::empty());
}

} // verus!
