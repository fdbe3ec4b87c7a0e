use vstd::prelude::*;

use super::image::{colourRGBA, Image, ImageView, opaque_black};
use super::png::readU8;

verus! {

/// The distance between two integers.
pub open spec fn dist(x: int, y: int) -> int {
    if x >= y { x - y } else { y - x }
}

/// The Paeth predictor of PNG: of `a` (left), `b` (above) and `c` (above
/// left), the one closest to `a + b - c`, ties going to `a`, then to `b`.
pub open spec fn paeth(a: u8, b: u8, c: u8) -> u8 {
    let p = a + b - c;
    if dist(p, a as int) <= dist(p, b as int) && dist(p, a as int) <= dist(p, c as int) {
        a
    } else if dist(p, b as int) <= dist(p, c as int) {
        b
    } else {
        c
    }
}

/// Computes the Paeth predictor of `a`, `b` and `c`.
pub fn paethFilter(a: u8, b: u8, c: u8) -> (r: u8)
    ensures
        r == paeth(a, b, c),
        r == a || r == b || r == c,
        dist(a + b - c, r as int) <= dist(a + b - c, a as int),
        dist(a + b - c, r as int) <= dist(a + b - c, b as int),
        dist(a + b - c, r as int) <= dist(a + b - c, c as int),
{
    let a32 = a as i32;
    let b32 = b as i32;
    let c32 = c as i32;
    let p = a32 + b32 - c32;
    let pa = if p >= a32 { p - a32 } else { a32 - p };
    let pb = if p >= b32 { p - b32 } else { b32 - p };
    let pc = if p >= c32 { p - c32 } else { c32 - p };
    if pa <= pb && pa <= pc {
        a
    } else if pb <= pc {
        b
    } else {
        c
    }
}

/// Byte addition modulo 256.
pub open spec fn wrap_add(x: u8, y: u8) -> u8 {
    ((x + y) % 256) as u8
}

/// The mean of two bytes, rounded down.
pub open spec fn mean(x: u8, y: u8) -> u8 {
    ((x + y) / 2) as u8
}

fn wrapAdd(x: u8, y: u8) -> (r: u8)
    ensures
        r == wrap_add(x, y),
{
    ((x as u16 + y as u16) % 256) as u8
}

fn meanOf(x: u8, y: u8) -> (r: u8)
    ensures
        r == mean(x, y),
{
    ((x as u16 + y as u16) / 2) as u8
}

/// The level that gamma correction gives `value`: the entry of `curve` when
/// the image has a gamma, the value itself when it has none.
pub open spec fn gamma_level(img: ImageView, curve: Seq<u8>, value: u8) -> u8 {
    if img.gamma is Some {
        curve[value as int]
    } else {
        value
    }
}

/// Applies the image's gamma correction to one channel value.
pub fn applyGamma(image: &Image, curve: &[u8; 256], value: u8) -> (r: u8)
    ensures
        r == gamma_level(image@, curve@, value),
{
    if image.gamma.is_some() {
        curve[value as usize]
    } else {
        value
    }
}

// ---------------------------------------------------------------------------
// Greyscale, eight bits per sample.
/// The pixel that a greyscale byte `raw` at column `j` gives, under the row's
/// filter, after the pixels `px` decoded so far.
pub open spec fn grey8_pixel(filter: u8, raw: u8, j: int, width: int, px: Seq<colourRGBA>) -> colourRGBA {
    let n = px.len() as int;
    let left = if j > 0 { px[n - 1].R } else { 0u8 };
    let above = if n >= width { px[n - width].R } else { 0u8 };
    let aboveleft = if j > 0 && n > width { px[n - width - 1].R } else { 0u8 };
    let v = if filter == 1 {
        wrap_add(raw, left)
    } else if filter == 2 {
        wrap_add(raw, above)
    } else if filter == 3 {
        wrap_add(raw, mean(left, above))
    } else if filter == 4 {
        wrap_add(raw, paeth(left, above, aboveleft))
    } else {
        raw
    };
    colourRGBA { R: v, G: v, B: v, A: 255 }
}

/// Decodes columns `j..width` of a greyscale row of eight-bit samples that
/// start at `pos`; `None` where the data ends too soon.
pub open spec fn grey8_row(
    bytes: Seq<u8>,
    pos: int,
    width: int,
    filter: u8,
    j: int,
    px: Seq<colourRGBA>,
) -> Option<(int, Seq<colourRGBA>)>
    decreases width - j,
{
    if j >= width {
        Some((pos, px))
    } else if pos < 0 || pos >= bytes.len() {
        None
    } else {
        grey8_row(bytes, pos + 1, width, filter, j + 1, px.push(grey8_pixel(filter, bytes[pos], j, width, px)))
    }
}

fn decodeGrey8Row(
    bytes: &Vec<u8>,
    i: &mut usize,
    width: u32,
    filter: u8,
    pixels: &mut Vec<colourRGBA>,
) -> (ok: bool)
    requires
        *old(i) <= bytes.len(),
    ensures
        *final(i) <= bytes.len(),
        ok <==> grey8_row(bytes@, *old(i) as int, width as int, filter, 0, old(pixels)@) is Some,
        ok ==> grey8_row(bytes@, *old(i) as int, width as int, filter, 0, old(pixels)@) == Some(
            (*final(i) as int, final(pixels)@),
        ),
{
    let ghost start = old(pixels)@.len();
    let ghost target = grey8_row(bytes@, *old(i) as int, width as int, filter, 0, old(pixels)@);
    let mut j: u32 = 0;
    while j < width
        invariant
            j <= width,
            *i <= bytes.len(),
            pixels@.len() == start + j,
            grey8_row(bytes@, *i as int, width as int, filter, j as int, pixels@) == target,
            target == grey8_row(bytes@, *old(i) as int, width as int, filter, 0, old(pixels)@),
        decreases width - j,
    {
        if *i >= bytes.len() {
            assert(grey8_row(bytes@, *i as int, width as int, filter, j as int, pixels@) is None);
            return false;
        }
        let ghost before = pixels@;
        let raw = readU8(i, bytes);
        let n = pixels.len();
        let w = width as usize;
        let left = if j > 0 { pixels[n - 1].R } else { 0 };
        let above = if n >= w { pixels[n - w].R } else { 0 };
        let aboveleft = if j > 0 && n > w { pixels[n - w - 1].R } else { 0 };
        let value = if filter == 1 {
            wrapAdd(raw, left)
        } else if filter == 2 {
            wrapAdd(raw, above)
        } else if filter == 3 {
            wrapAdd(raw, meanOf(left, above))
        } else if filter == 4 {
            wrapAdd(raw, paethFilter(left, above, aboveleft))
        } else {
            raw
        };
        let grey = colourRGBA::default().greyscale(value);
        assert(grey == grey8_pixel(filter, raw, j as int, width as int, before));
        pixels.push(grey);
        j = j + 1;
    }
    true
}


// ---------------------------------------------------------------------------
// Palette indices, eight bits per sample.
/// Decodes columns `j..width` of a row of eight-bit palette indices that
/// start at `pos`; `None` where the data ends too soon or an index lies
/// outside the palette.
pub open spec fn palette8_row(
    img: ImageView,
    bytes: Seq<u8>,
    pos: int,
    width: int,
    j: int,
    px: Seq<colourRGBA>,
) -> Option<(int, Seq<colourRGBA>)>
    decreases width - j,
{
    if j >= width {
        Some((pos, px))
    } else if pos < 0 || pos >= bytes.len() {
        None
    } else if bytes[pos] >= img.colourPalette.len() {
        None
    } else {
        palette8_row(img, bytes, pos + 1, width, j + 1, px.push(img.colourPalette[bytes[pos] as int]))
    }
}

fn decodePalette8Row(
    image: &Image,
    bytes: &Vec<u8>,
    i: &mut usize,
    width: u32,
    pixels: &mut Vec<colourRGBA>,
) -> (ok: bool)
    requires
        *old(i) <= bytes.len(),
    ensures
        *final(i) <= bytes.len(),
        ok <==> palette8_row(image@, bytes@, *old(i) as int, width as int, 0, old(pixels)@) is Some,
        ok ==> palette8_row(image@, bytes@, *old(i) as int, width as int, 0, old(pixels)@) == Some(
            (*final(i) as int, final(pixels)@),
        ),
{
    let ghost target = palette8_row(image@, bytes@, *old(i) as int, width as int, 0, old(pixels)@);
    let mut j: u32 = 0;
    while j < width
        invariant
            j <= width,
            *i <= bytes.len(),
            palette8_row(image@, bytes@, *i as int, width as int, j as int, pixels@) == target,
            target == palette8_row(image@, bytes@, *old(i) as int, width as int, 0, old(pixels)@),
        decreases width - j,
    {
        if *i >= bytes.len() {
            return false;
        }
        let byte = readU8(i, bytes);
        if byte as usize >= image.colourPalette.len() {
            return false;
        }
        pixels.push(image.colourPalette[byte as usize]);
        j = j + 1;
    }
    true
}

// ---------------------------------------------------------------------------
// Samples of fewer than eight bits, packed into bytes.
/// The sample of `depth` bits that starts `j` bits from the top of `byte`.
pub open spec fn sample_at(byte: u8, depth: u8, j: int) -> u8 {
    (byte >> ((8 - depth - j) as u8)) & (((1u8 << depth) - 1) as u8)
}

/// A sample of `depth` bits scaled to the range `0..=255`.
pub open spec fn scale_sample(sample: u8, depth: u8) -> u8 {
    (sample as int * 255 / (((1u32 << depth) - 1) as u32) as int) as u8
}

/// The pixels of one byte of packed samples: the samples at bit offsets
/// `j, j + depth, ...` below 8, of which those at offsets below `limit`
/// become pixels (greys for colour type 0, palette entries otherwise).
/// `None` where a sample does not fit in the byte, or a palette index lies
/// outside the palette.
pub open spec fn packed_byte(
    img: ImageView,
    byte: u8,
    j: int,
    limit: int,
    px: Seq<colourRGBA>,
) -> Option<Seq<colourRGBA>>
    decreases if j >= 8 { 0 } else { 8 - j },
{
    if img.depth == 0 {
        None
    } else if j >= 8 {
        Some(px)
    } else if j < limit {
        if img.depth >= 8 || j > 8 - img.depth {
            None
        } else {
            let sample = sample_at(byte, img.depth, j);
            if img.colourType == 0 {
                let level = scale_sample(sample, img.depth);
                packed_byte(
                    img,
                    byte,
                    j + img.depth,
                    limit,
                    px.push(colourRGBA { R: level, G: level, B: level, A: 255 }),
                )
            } else if sample >= img.colourPalette.len() {
                None
            } else {
                packed_byte(img, byte, j + img.depth, limit, px.push(img.colourPalette[sample as int]))
            }
        }
    } else {
        packed_byte(img, byte, j + img.depth, limit, px)
    }
}

/// Decodes bytes `k..nbytes` of a row of packed samples that start at `pos`.
pub open spec fn packed_row(
    img: ImageView,
    bytes: Seq<u8>,
    pos: int,
    nbytes: int,
    k: int,
    limit: int,
    px: Seq<colourRGBA>,
) -> Option<(int, Seq<colourRGBA>)>
    decreases nbytes - k,
{
    if k >= nbytes {
        Some((pos, px))
    } else if pos < 0 || pos >= bytes.len() {
        None
    } else {
        match packed_byte(img, bytes[pos], 0, limit, px) {
            None => None,
            Some(px2) => packed_row(img, bytes, pos + 1, nbytes, k + 1, limit, px2),
        }
    }
}

fn decodePackedByte(image: &Image, byte: u8, limit: u32, pixels: &mut Vec<colourRGBA>) -> (ok: bool)
    ensures
        ok <==> packed_byte(image@, byte, 0, limit as int, old(pixels)@) is Some,
        ok ==> packed_byte(image@, byte, 0, limit as int, old(pixels)@) == Some(final(pixels)@),
{
    let ghost target = packed_byte(image@, byte, 0, limit as int, old(pixels)@);
    let depth = image.depth;
    if depth == 0 {
        return false;
    }
    let mut j: u32 = 0;
    while j < 8
        invariant
            depth == image.depth,
            depth >= 1,
            j < 8 + depth,
            j >= 0,
            packed_byte(image@, byte, j as int, limit as int, pixels@) == target,
            target == packed_byte(image@, byte, 0, limit as int, old(pixels)@),
        decreases if j >= 8 { 0 } else { 8 - j },
    {
        if j < limit {
            if depth >= 8 || j > (8 - depth) as u32 {
                return false;
            }
            let shiftBy: u8 = 8 - depth - (j as u8);
            assert(depth <= 7 ==> 1u8 << depth >= 1u8) by (bit_vector);
            let mask: u8 = (1u8 << depth) - 1;
            let sample: u8 = (byte >> shiftBy) & mask;
            assert(sample == sample_at(byte, depth, j as int));
            if image.colourType == 0 {
                assert(1 <= depth <= 7 ==> (1u32 << depth) - 1 >= 1u32) by (bit_vector);
                assert(1 <= depth <= 7 ==> ((byte >> shiftBy) & (((1u8 << depth) - 1) as u8)) as u32
                    <= (1u32 << depth) - 1) by (bit_vector);
                let scaled = (sample as u32 * 255 / ((1u32 << depth) - 1)) as u8;
                assert(scaled == scale_sample(sample, depth));
                pixels.push(colourRGBA::default().greyscale(scaled));
            } else {
                if sample as usize >= image.colourPalette.len() {
                    return false;
                }
                pixels.push(image.colourPalette[sample as usize]);
            }
        }
        j = j + depth as u32;
    }
    true
}

fn decodePackedRow(
    image: &Image,
    bytes: &Vec<u8>,
    i: &mut usize,
    nbytes: u32,
    limit: u32,
    pixels: &mut Vec<colourRGBA>,
) -> (ok: bool)
    requires
        *old(i) <= bytes.len(),
    ensures
        *final(i) <= bytes.len(),
        ok <==> packed_row(image@, bytes@, *old(i) as int, nbytes as int, 0, limit as int, old(pixels)@) is Some,
        ok ==> packed_row(image@, bytes@, *old(i) as int, nbytes as int, 0, limit as int, old(pixels)@)
            == Some((*final(i) as int, final(pixels)@)),
{
    let ghost target = packed_row(image@, bytes@, *old(i) as int, nbytes as int, 0, limit as int, old(pixels)@);
    let mut k: u32 = 0;
    while k < nbytes
        invariant
            k <= nbytes,
            *i <= bytes.len(),
            packed_row(image@, bytes@, *i as int, nbytes as int, k as int, limit as int, pixels@) == target,
            target == packed_row(image@, bytes@, *old(i) as int, nbytes as int, 0, limit as int, old(pixels)@),
        decreases nbytes - k,
    {
        if *i >= bytes.len() {
            return false;
        }
        let byte = readU8(i, bytes);
        if !decodePackedByte(image, byte, limit, pixels) {
            return false;
        }
        k = k + 1;
    }
    true
}


// ---------------------------------------------------------------------------
// Truecolour, with or without alpha, eight bits per sample.
/// Channel-wise sum modulo 256.
pub open spec fn add_colour(x: colourRGBA, y: colourRGBA) -> colourRGBA {
    colourRGBA { R: wrap_add(x.R, y.R), G: wrap_add(x.G, y.G), B: wrap_add(x.B, y.B), A: wrap_add(x.A, y.A) }
}

/// `x` plus, channel by channel, the mean of `l` and `a`, modulo 256.
pub open spec fn add_mean(x: colourRGBA, l: colourRGBA, a: colourRGBA) -> colourRGBA {
    colourRGBA {
        R: wrap_add(x.R, mean(l.R, a.R)),
        G: wrap_add(x.G, mean(l.G, a.G)),
        B: wrap_add(x.B, mean(l.B, a.B)),
        A: wrap_add(x.A, mean(l.A, a.A)),
    }
}

/// `x` plus, channel by channel, the Paeth predictor of `l`, `a` and `c`,
/// modulo 256.
pub open spec fn add_paeth(x: colourRGBA, l: colourRGBA, a: colourRGBA, c: colourRGBA) -> colourRGBA {
    colourRGBA {
        R: wrap_add(x.R, paeth(l.R, a.R, c.R)),
        G: wrap_add(x.G, paeth(l.G, a.G, c.G)),
        B: wrap_add(x.B, paeth(l.B, a.B, c.B)),
        A: wrap_add(x.A, paeth(l.A, a.A, c.A)),
    }
}

/// The colour that reversing the row's filter gives the raw colour at column
/// `j`, after the pixels `px` decoded so far. Missing neighbours count as
/// opaque black for the average and Paeth filters. `None` where an index
/// into `px` would fall below zero: the up filter with fewer than `width`
/// pixels decoded (the first row), and the Paeth filter past the first
/// column with exactly `width` pixels decoded (a count that rows of `width`
/// pixels never leave there).
pub open spec fn rgb_filtered(filter: u8, raw: colourRGBA, j: int, width: int, px: Seq<colourRGBA>) -> Option<
    colourRGBA,
> {
    let n = px.len() as int;
    let left = if j > 0 { px[n - 1] } else { opaque_black() };
    let above = if n >= width { px[n - width] } else { opaque_black() };
    if filter == 1 {
        Some(if j != 0 { add_colour(raw, px[n - 1]) } else { raw })
    } else if filter == 2 {
        if n < width { None } else { Some(add_colour(raw, px[n - width])) }
    } else if filter == 3 {
        Some(add_mean(raw, left, above))
    } else if filter == 4 {
        if j > 0 && n >= width && n < width + 1 {
            None
        } else {
            let aboveleft = if j > 0 && n >= width { px[n - width - 1] } else { opaque_black() };
            Some(add_paeth(raw, left, above, aboveleft))
        }
    } else {
        Some(raw)
    }
}

/// Gamma correction of the colour channels of `c`; alpha is kept.
pub open spec fn gamma_colour(img: ImageView, curve: Seq<u8>, c: colourRGBA) -> colourRGBA {
    colourRGBA {
        R: gamma_level(img, curve, c.R),
        G: gamma_level(img, curve, c.G),
        B: gamma_level(img, curve, c.B),
        A: c.A,
    }
}

/// The number of bytes per pixel of a truecolour row: four with alpha
/// (colour type 6), three without.
pub open spec fn rgb_bytes(img: ImageView) -> int {
    if img.colourType == 6 { 4 } else { 3 }
}

/// The raw colour of the truecolour pixel whose bytes start at `pos`; alpha
/// is 255 when the image has no alpha channel.
pub open spec fn rgb_raw(img: ImageView, bytes: Seq<u8>, pos: int) -> colourRGBA {
    colourRGBA {
        R: bytes[pos],
        G: bytes[pos + 1],
        B: bytes[pos + 2],
        A: if img.colourType == 6 { bytes[pos + 3] } else { 255 },
    }
}

/// Decodes columns `j..width` of a truecolour row that starts at `pos`.
pub open spec fn rgb_row(
    img: ImageView,
    curve: Seq<u8>,
    bytes: Seq<u8>,
    pos: int,
    width: int,
    filter: u8,
    j: int,
    px: Seq<colourRGBA>,
) -> Option<(int, Seq<colourRGBA>)>
    decreases width - j,
{
    if j >= width {
        Some((pos, px))
    } else if pos < 0 || pos + rgb_bytes(img) > bytes.len() {
        None
    } else {
        match rgb_filtered(filter, rgb_raw(img, bytes, pos), j, width, px) {
            None => None,
            Some(c) => rgb_row(
                img,
                curve,
                bytes,
                pos + rgb_bytes(img),
                width,
                filter,
                j + 1,
                px.push(gamma_colour(img, curve, c)),
            ),
        }
    }
}

fn addColour(x: colourRGBA, y: colourRGBA) -> (r: colourRGBA)
    ensures
        r == add_colour(x, y),
{
    colourRGBA { R: wrapAdd(x.R, y.R), G: wrapAdd(x.G, y.G), B: wrapAdd(x.B, y.B), A: wrapAdd(x.A, y.A) }
}

fn decodeRgbRow(
    image: &Image,
    curve: &[u8; 256],
    bytes: &Vec<u8>,
    i: &mut usize,
    width: u32,
    filter: u8,
    pixels: &mut Vec<colourRGBA>,
) -> (ok: bool)
    requires
        *old(i) <= bytes.len(),
    ensures
        *final(i) <= bytes.len(),
        ok <==> rgb_row(image@, curve@, bytes@, *old(i) as int, width as int, filter, 0, old(pixels)@) is Some,
        ok ==> rgb_row(image@, curve@, bytes@, *old(i) as int, width as int, filter, 0, old(pixels)@)
            == Some((*final(i) as int, final(pixels)@)),
{
    let ghost target = rgb_row(image@, curve@, bytes@, *old(i) as int, width as int, filter, 0, old(pixels)@);
    let ghost start = old(pixels)@.len();
    let nch: usize = if image.colourType == 6 { 4 } else { 3 };
    let w = width as usize;
    let mut j: u32 = 0;
    while j < width
        invariant
            j <= width,
            w == width as usize,
            nch == rgb_bytes(image@),
            *i <= bytes.len(),
            pixels@.len() == start + j,
            rgb_row(image@, curve@, bytes@, *i as int, width as int, filter, j as int, pixels@) == target,
            target == rgb_row(image@, curve@, bytes@, *old(i) as int, width as int, filter, 0, old(pixels)@),
        decreases width - j,
    {
        if nch > bytes.len() - *i {
            return false;
        }
        let ghost p0 = *i as int;
        let ghost before = pixels@;
        let r = readU8(i, bytes);
        let g = readU8(i, bytes);
        let b = readU8(i, bytes);
        let a = if image.colourType == 6 { readU8(i, bytes) } else { 255 };
        let raw = colourRGBA { R: r, G: g, B: b, A: a };
        assert(raw == rgb_raw(image@, bytes@, p0));
        let n = pixels.len();
        let mut colour = raw;
        if filter == 1 {
            if j != 0 {
                colour = addColour(raw, pixels[n - 1]);
            }
        } else if filter == 2 {
            if n < w {
                return false;
            }
            colour = addColour(raw, pixels[n - w]);
        } else if filter == 3 {
            let left = if j > 0 { pixels[n - 1] } else { colourRGBA::default() };
            let above = if n >= w { pixels[n - w] } else { colourRGBA::default() };
            colour = colourRGBA {
                R: wrapAdd(raw.R, meanOf(left.R, above.R)),
                G: wrapAdd(raw.G, meanOf(left.G, above.G)),
                B: wrapAdd(raw.B, meanOf(left.B, above.B)),
                A: wrapAdd(raw.A, meanOf(left.A, above.A)),
            };
        } else if filter == 4 {
            if j > 0 && n == w {
                return false;
            }
            let left = if j > 0 { pixels[n - 1] } else { colourRGBA::default() };
            let above = if n >= w { pixels[n - w] } else { colourRGBA::default() };
            let aboveleft = if j > 0 && n >= w { pixels[n - w - 1] } else { colourRGBA::default() };
            colour = colourRGBA {
                R: wrapAdd(raw.R, paethFilter(left.R, above.R, aboveleft.R)),
                G: wrapAdd(raw.G, paethFilter(left.G, above.G, aboveleft.G)),
                B: wrapAdd(raw.B, paethFilter(left.B, above.B, aboveleft.B)),
                A: wrapAdd(raw.A, paethFilter(left.A, above.A, aboveleft.A)),
            };
        }
        assert(rgb_filtered(filter, raw, j as int, width as int, before) == Some(colour));
        let correct = |v: u8| -> (r: u8)
            ensures
                r == gamma_level(image@, curve@, v),
            { applyGamma(image, curve, v) };
        let corrected = colour.map(correct);
        assert(corrected == gamma_colour(image@, curve@, colour));
        pixels.push(corrected);
        j = j + 1;
    }
    true
}

// ---------------------------------------------------------------------------
// Rows.
/// Decodes the row whose samples start at `pos`, under the row filter
/// `filter`, appending its pixels to `px`. Colour types other than 0, 2, 3
/// and 6 give no pixels.
pub open spec fn decode_row(
    img: ImageView,
    curve: Seq<u8>,
    bytes: Seq<u8>,
    pos: int,
    width: u32,
    filter: u8,
    px: Seq<colourRGBA>,
) -> Option<(int, Seq<colourRGBA>)> {
    if (img.colourType == 0 || img.colourType == 3) && img.depth != 8 {
        if width * img.depth + 7 > u32::MAX {
            None
        } else {
            packed_row(img, bytes, pos, (width * img.depth + 7) / 8, 0, width * img.depth, px)
        }
    } else if img.colourType == 0 {
        grey8_row(bytes, pos, width as int, filter, 0, px)
    } else if img.colourType == 3 {
        palette8_row(img, bytes, pos, width as int, 0, px)
    } else if img.colourType == 2 || img.colourType == 6 {
        rgb_row(img, curve, bytes, pos, width as int, filter, 0, px)
    } else {
        Some((pos, px))
    }
}

/// Decodes `rows` rows from `pos` on, each a filter byte and its samples,
/// appending the pixels to `px`; gives the position after the last row and
/// the pixels.
pub open spec fn decode_rows(
    img: ImageView,
    curve: Seq<u8>,
    bytes: Seq<u8>,
    pos: int,
    width: u32,
    rows: int,
    px: Seq<colourRGBA>,
) -> Option<(int, Seq<colourRGBA>)>
    decreases rows,
{
    if rows <= 0 {
        Some((pos, px))
    } else if pos < 0 || pos >= bytes.len() {
        None
    } else {
        match decode_row(img, curve, bytes, pos + 1, width, bytes[pos], px) {
            None => None,
            Some((next, px2)) => decode_rows(img, curve, bytes, next, width, rows - 1, px2),
        }
    }
}

/// Decodes `height` rows of `width` pixels of the decompressed image data
/// from `*i` on, and moves `*i` past them; `None` where the data ends too
/// soon or is not valid for the image's colour type and depth.
pub fn decodeRows(
    image: &Image,
    curve: &[u8; 256],
    decompressedBytes: &Vec<u8>,
    i: &mut usize,
    width: u32,
    height: u32,
) -> (res: Option<Vec<colourRGBA>>)
    ensures
        match res {
            Some(px) => decode_rows(
                image@,
                curve@,
                decompressedBytes@,
                *old(i) as int,
                width,
                height as int,
                Seq::empty(),
            ) == Some((*final(i) as int, px@)),
            None => decode_rows(
                image@,
                curve@,
                decompressedBytes@,
                *old(i) as int,
                width,
                height as int,
                Seq::empty(),
            ) is None,
        },
{
    let ghost target = decode_rows(
        image@,
        curve@,
        decompressedBytes@,
        *old(i) as int,
        width,
        height as int,
        Seq::empty(),
    );
    let mut pixels: Vec<colourRGBA> = Vec::new();
    if *i > decompressedBytes.len() {
        if height == 0 {
            return Some(pixels);
        }
        return None;
    }
    let mut row: u32 = 0;
    while row < height
        invariant
            row <= height,
            *i <= decompressedBytes.len(),
            decode_rows(image@, curve@, decompressedBytes@, *i as int, width, (height - row) as int, pixels@)
                == target,
            target == decode_rows(
                image@,
                curve@,
                decompressedBytes@,
                *old(i) as int,
                width,
                height as int,
                Seq::empty(),
            ),
        decreases height - row,
    {
        if *i >= decompressedBytes.len() {
            return None;
        }
        let lineFilter = readU8(i, decompressedBytes);
        let ok = if (image.colourType == 0 || image.colourType == 3) && image.depth != 8 {
            let w64 = width as u64;
            let d64 = image.depth as u64;
            assert(w64 * d64 <= 0xffff_ffffu64 * 255) by (nonlinear_arith)
                requires
                    w64 <= 0xffff_ffffu64,
                    d64 <= 255,
            ;
            let limit = w64 * d64;
            if limit + 7 > u32::MAX as u64 {
                false
            } else {
                let nbytes = ((limit + 7) / 8) as u32;
                decodePackedRow(image, decompressedBytes, i, nbytes, limit as u32, &mut pixels)
            }
        } else if image.colourType == 0 {
            decodeGrey8Row(decompressedBytes, i, width, lineFilter, &mut pixels)
        } else if image.colourType == 3 {
            decodePalette8Row(image, decompressedBytes, i, width, &mut pixels)
        } else if image.colourType == 2 || image.colourType == 6 {
            decodeRgbRow(image, curve, decompressedBytes, i, width, lineFilter, &mut pixels)
        } else {
            true
        };
        if !ok {
            return None;
        }
        row = row + 1;
    }
    Some(pixels)
}

} // verus!
