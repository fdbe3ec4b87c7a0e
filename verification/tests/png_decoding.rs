use std::io::Write;

use png_term::image_decoding::decode::decodeRows;
use png_term::image_decoding::image::{colourRGBA, Image};
use png_term::image_decoding::png::{inflate, readChunks, readPNG, PngError};

const SIGNATURE: [u8; 8] = [0x89, 0x50, 0x4E, 0x47, 0x0D, 0x0A, 0x1A, 0x0A];

fn chunk(kind: &[u8; 4], body: &[u8]) -> Vec<u8> {
    let mut out = (body.len() as u32).to_be_bytes().to_vec();
    out.extend_from_slice(kind);
    out.extend_from_slice(body);
    out.extend_from_slice(&[0, 0, 0, 0]);
    out
}

fn ihdr(width: u32, height: u32, depth: u8, colour_type: u8, interlace: u8) -> Vec<u8> {
    let mut body = width.to_be_bytes().to_vec();
    body.extend_from_slice(&height.to_be_bytes());
    body.extend_from_slice(&[depth, colour_type, 0, 0, interlace]);
    chunk(b"IHDR", &body)
}

fn zlib(data: &[u8]) -> Vec<u8> {
    let mut encoder = flate2::write::ZlibEncoder::new(Vec::new(), flate2::Compression::default());
    encoder.write_all(data).unwrap();
    encoder.finish().unwrap()
}

fn png(chunks: &[Vec<u8>]) -> Vec<u8> {
    let mut out = SIGNATURE.to_vec();
    for c in chunks {
        out.extend_from_slice(c);
    }
    out
}

fn identity() -> [u8; 256] {
    let mut curve = [0u8; 256];
    for v in 0..256 {
        curve[v] = v as u8;
    }
    curve
}

fn inverting() -> [u8; 256] {
    let mut curve = [0u8; 256];
    for v in 0..256 {
        curve[v] = 255 - v as u8;
    }
    curve
}

fn rgba(r: u8, g: u8, b: u8, a: u8) -> colourRGBA {
    colourRGBA { R: r, G: g, B: b, A: a }
}

fn grey(v: u8) -> colourRGBA {
    rgba(v, v, v, 255)
}

fn simple(header: Vec<u8>, data: &[u8]) -> Vec<u8> {
    png(&[header, chunk(b"IDAT", &zlib(data)), chunk(b"IEND", &[])])
}

#[test]
fn rgba_without_filter_gives_raw_pixels() {
    let data = [0, 1, 2, 3, 4, 5, 6, 7, 8, 0, 9, 10, 11, 12, 13, 14, 15, 16];
    let image = readPNG(&simple(ihdr(2, 2, 8, 6, 0), &data), &identity()).unwrap();
    assert_eq!((image.width, image.height, image.depth, image.colourType), (2, 2, 8, 6));
    assert_eq!(image.pixels, vec![rgba(1, 2, 3, 4), rgba(5, 6, 7, 8), rgba(9, 10, 11, 12), rgba(13, 14, 15, 16)]);
}

#[test]
fn rgb_sub_filter_adds_left_pixel_alpha_too() {
    // The sub filter adds the left pixel to all four channels, so the
    // implied alpha 255 of the second pixel wraps to 254.
    let data = [1, 10, 20, 30, 5, 5, 250];
    let image = readPNG(&simple(ihdr(2, 1, 8, 2, 0), &data), &identity()).unwrap();
    assert_eq!(image.pixels, vec![rgba(10, 20, 30, 255), rgba(15, 25, 24, 254)]);
}

#[test]
fn rgb_up_and_average_filters() {
    // Row 0: no filter; row 1: up; row 2: average (left of column 0 is opaque black).
    let data = [
        0, 10, 20, 30, 40, 50, 60, //
        2, 1, 1, 1, 2, 2, 2, //
        3, 0, 0, 0, 0, 0, 0,
    ];
    let image = readPNG(&simple(ihdr(2, 3, 8, 2, 0), &data), &identity()).unwrap();
    assert_eq!(image.pixels[0], rgba(10, 20, 30, 255));
    assert_eq!(image.pixels[1], rgba(40, 50, 60, 255));
    assert_eq!(image.pixels[2], rgba(11, 21, 31, 254));
    assert_eq!(image.pixels[3], rgba(42, 52, 62, 254));
    // column 0: mean(black, above) = (0 + 11) / 2 = 5; alpha 255 + (255 + 254) / 2 wraps to 253
    assert_eq!(image.pixels[4], rgba(5, 10, 15, 253));
    // column 1: mean(left, above) = (5 + 42) / 2 = 23, (10 + 52) / 2 = 31, (15 + 62) / 2 = 38;
    // alpha 255 + (253 + 254) / 2 wraps to 252
    assert_eq!(image.pixels[5], rgba(23, 31, 38, 252));
}

#[test]
fn rgb_paeth_filter() {
    let data = [
        0, 10, 20, 30, 40, 50, 60, //
        4, 1, 1, 1, 1, 1, 1,
    ];
    let image = readPNG(&simple(ihdr(2, 2, 8, 2, 0), &data), &identity()).unwrap();
    // column 0: left and above-left are opaque black, above is (10, 20, 30, 255):
    // the predictor is above for the colours, 255 for alpha (255 + 255 wraps to 254)
    assert_eq!(image.pixels[2], rgba(11, 21, 31, 254));
    // column 1: left (11, 21, 31, 254), above (40, 50, 60, 255), above-left (10, 20, 30, 255)
    // R: p = 11 + 40 - 10 = 41 -> above 40; alpha: p = 254 + 255 - 255 = 254 -> left 254
    assert_eq!(image.pixels[3], rgba(41, 51, 61, 253));
}

#[test]
fn rgb_up_filter_on_first_row_is_rejected() {
    let data = [2, 1, 2, 3];
    assert_eq!(readPNG(&simple(ihdr(1, 1, 8, 2, 0), &data), &identity()).unwrap_err(), PngError::MalformedPixelData);
}

#[test]
fn greyscale_filters() {
    let data = [
        0, 100, 50, //
        2, 1, 2, //
        1, 5, 5, //
        4, 1, 1,
    ];
    let image = readPNG(&simple(ihdr(2, 4, 8, 0, 0), &data), &identity()).unwrap();
    assert_eq!(image.pixels, vec![grey(100), grey(50), grey(101), grey(52), grey(5), grey(10), grey(6), grey(11)]);
}

#[test]
fn greyscale_one_bit_samples_are_scaled() {
    // width 3: one byte per row, the first three bits become pixels
    let data = [0, 0b1010_0000, 0, 0b0110_0000];
    let image = readPNG(&simple(ihdr(3, 2, 1, 0, 0), &data), &identity()).unwrap();
    assert_eq!(image.pixels, vec![grey(255), grey(0), grey(255), grey(0), grey(255), grey(255)]);
}

#[test]
fn greyscale_two_bit_samples_are_scaled() {
    let data = [0, 0b00_01_10_11];
    let image = readPNG(&simple(ihdr(4, 1, 2, 0, 0), &data), &identity()).unwrap();
    assert_eq!(image.pixels, vec![grey(0), grey(85), grey(170), grey(255)]);
}

#[test]
fn palette_with_transparency() {
    let palette = chunk(b"PLTE", &[255, 0, 0, 0, 255, 0, 0, 0, 255]);
    let trns = chunk(b"tRNS", &[10, 20]);
    let data = [0, 0b00_01_10_00];
    let bytes = png(&[ihdr(4, 1, 2, 3, 0), palette, trns, chunk(b"IDAT", &zlib(&data)), chunk(b"IEND", &[])]);
    let image = readPNG(&bytes, &identity()).unwrap();
    assert_eq!(image.colourPalette, vec![rgba(255, 0, 0, 10), rgba(0, 255, 0, 20), rgba(0, 0, 255, 255)]);
    assert_eq!(image.pixels, vec![rgba(255, 0, 0, 10), rgba(0, 255, 0, 20), rgba(0, 0, 255, 255), rgba(255, 0, 0, 10)]);
}

#[test]
fn eight_bit_palette_index_outside_palette_is_rejected() {
    let palette = chunk(b"PLTE", &[1, 2, 3]);
    let data = [0, 0, 1];
    let bytes = png(&[ihdr(2, 1, 8, 3, 0), palette, chunk(b"IDAT", &zlib(&data))]);
    assert_eq!(readPNG(&bytes, &identity()).unwrap_err(), PngError::MalformedPixelData);
}

#[test]
fn transparency_longer_than_palette_is_rejected() {
    let palette = chunk(b"PLTE", &[1, 2, 3]);
    let trns = chunk(b"tRNS", &[1, 2]);
    let bytes = png(&[ihdr(1, 1, 8, 3, 0), palette, trns, chunk(b"IDAT", &zlib(&[0, 0]))]);
    assert_eq!(readPNG(&bytes, &identity()).unwrap_err(), PngError::MalformedChunks);
}

#[test]
fn truncated_chunk_is_rejected() {
    let mut bytes = simple(ihdr(1, 1, 8, 0, 0), &[0, 7]);
    let header_end = 8 + 8 + 13 + 4;
    bytes.truncate(header_end - 6);
    assert_eq!(readPNG(&bytes, &identity()).unwrap_err(), PngError::MalformedChunks);
}

#[test]
fn invalid_zlib_stream_is_rejected() {
    let bytes = png(&[ihdr(1, 1, 8, 0, 0), chunk(b"IDAT", &[1, 2, 3, 4, 5])]);
    assert_eq!(readPNG(&bytes, &identity()).unwrap_err(), PngError::Decompression);
}

#[test]
fn too_little_pixel_data_is_rejected() {
    assert_eq!(
        readPNG(&simple(ihdr(2, 2, 8, 0, 0), &[0, 1, 2, 0, 3]), &identity()).unwrap_err(),
        PngError::MalformedPixelData
    );
}

#[test]
fn image_data_may_be_split_over_chunks() {
    let compressed = zlib(&[0, 1, 2, 3, 0, 4, 5, 6]);
    let (a, b) = compressed.split_at(3);
    let bytes = png(&[ihdr(1, 2, 8, 2, 0), chunk(b"IDAT", a), chunk(b"tEXt", b"k\0v"), chunk(b"IDAT", b)]);
    let image = readPNG(&bytes, &identity()).unwrap();
    assert_eq!(image.pixels, vec![rgba(1, 2, 3, 255), rgba(4, 5, 6, 255)]);
}

#[test]
fn gamma_curve_applies_to_colour_channels_with_gamma() {
    let gama = chunk(b"gAMA", &45455u32.to_be_bytes());
    let srgb = chunk(b"sRGB", &[1]);
    let data = [0, 10, 20, 30, 40];
    let bytes = png(&[ihdr(1, 1, 8, 6, 0), gama, srgb, chunk(b"IDAT", &zlib(&data))]);
    let image = readPNG(&bytes, &inverting()).unwrap();
    assert_eq!(image.gamma, Some(45455));
    assert_eq!(image.colourSpace, 1);
    assert_eq!(image.pixels, vec![rgba(245, 235, 225, 40)]);
}

#[test]
fn gamma_curve_is_unused_without_gamma() {
    let data = [0, 10, 20, 30, 40];
    let bytes = simple(ihdr(1, 1, 8, 6, 0), &data);
    let a = readPNG(&bytes, &inverting()).unwrap();
    let b = readPNG(&bytes, &identity()).unwrap();
    assert_eq!(a.pixels, b.pixels);
    assert_eq!(a.pixels, vec![rgba(10, 20, 30, 40)]);
}

#[test]
fn interlaced_image_places_each_pass() {
    // 2x2: pass 1 gives (0,0), pass 6 gives (1,0), pass 7 gives row 1
    let data = [0, 10, 0, 20, 0, 30, 40];
    let image = readPNG(&simple(ihdr(2, 2, 8, 0, 1), &data), &identity()).unwrap();
    assert_eq!(image.pixels, vec![grey(10), grey(20), grey(30), grey(40)]);
}

#[test]
fn interlaced_image_fills_every_pixel_once() {
    // 8x8 greyscale: each pass row is a filter byte and its samples; give
    // every pixel a distinct value and check where it lands.
    let geometry: [(u32, u32, u32, u32); 7] =
        [(0, 0, 8, 8), (4, 0, 8, 8), (0, 4, 4, 8), (2, 0, 4, 4), (0, 2, 2, 4), (1, 0, 2, 2), (0, 1, 1, 2)];
    let mut data = Vec::new();
    let mut expected = vec![grey(0); 64];
    let mut next: u8 = 1;
    for (xs, ys, xstep, ystep) in geometry {
        let mut y = ys;
        while y < 8 {
            data.push(0);
            let mut x = xs;
            while x < 8 {
                data.push(next);
                expected[(y * 8 + x) as usize] = grey(next);
                next += 1;
                x += xstep;
            }
            y += ystep;
        }
    }
    assert_eq!(next, 65);
    let image = readPNG(&simple(ihdr(8, 8, 8, 0, 1), &data), &identity()).unwrap();
    assert_eq!(image.pixels.len(), 64);
    assert_eq!(image.pixels, expected);
}

#[test]
fn interlaced_size_overflow_is_rejected() {
    let bytes = simple(ihdr(0x10000, 0x10000, 8, 0, 1), &[0]);
    assert_eq!(readPNG(&bytes, &identity()).unwrap_err(), PngError::MalformedPixelData);
}

#[test]
fn unknown_colour_type_has_no_pixels() {
    let image = readPNG(&simple(ihdr(3, 2, 8, 5, 0), &[0, 0]), &identity()).unwrap();
    assert!(image.pixels.is_empty());
}

#[test]
fn chunks_without_data_give_empty_stream() {
    let (image, idat) = readChunks(&png(&[ihdr(7, 9, 8, 2, 0)])).unwrap();
    assert_eq!((image.width, image.height), (7, 9));
    assert!(idat.is_empty());
    assert!(readChunks(&vec![1, 2, 3]).unwrap().1.is_empty());
}

#[test]
fn inflate_decompresses() {
    let raw = vec![5u8, 6, 7, 8, 9, 9, 9, 9];
    let compressed = zlib(&raw);
    assert_ne!(compressed, raw);
    assert_eq!(inflate(&compressed).unwrap(), raw);
    assert_eq!(inflate(&raw).unwrap_err(), PngError::Decompression);
}

#[test]
fn decoded_rgb_image_has_width_times_height_pixels() {
    let mut data = Vec::new();
    for row in 0..5u8 {
        data.push(row % 5);
        for col in 0..3u8 {
            data.extend_from_slice(&[row, col, 1]);
        }
    }
    let image = readPNG(&simple(ihdr(3, 5, 8, 2, 0), &data), &identity()).unwrap();
    assert_eq!(image.pixels.len(), 15);
}

#[test]
fn rgba_rows_consume_whole_scanlines() {
    let mut image = Image::default();
    image.colourType = 6;
    image.depth = 8;
    let data = vec![0u8; 2 * (1 + 3 * 4) + 5];
    let mut i = 0usize;
    let pixels = decodeRows(&image, &identity(), &data, &mut i, 3, 2).unwrap();
    assert_eq!(i, 26);
    assert_eq!(pixels.len(), 6);
    let mut far = 100usize;
    assert_eq!(decodeRows(&image, &identity(), &data, &mut far, 3, 0), Some(vec![]));
    assert_eq!(decodeRows(&image, &identity(), &data, &mut far, 3, 1), None);
}

fn same_image(a: &png_term::image_decoding::image::Image, b: &png_term::image_decoding::image::Image) -> bool {
    a.pixels == b.pixels
        && a.colourPalette == b.colourPalette
        && (a.width, a.height, a.depth, a.colourType, a.colourSpace, a.interlace, a.gamma)
            == (b.width, b.height, b.depth, b.colourType, b.colourSpace, b.interlace, b.gamma)
}

#[test]
fn split_data_and_skipped_chunks_change_nothing() {
    let data = [0, 1, 2, 3, 4, 5, 6, 0, 7, 8, 9, 10, 11, 12];
    let compressed = zlib(&data);
    let palette_free = ihdr(2, 2, 8, 2, 0);
    let joined = png(&[palette_free.clone(), chunk(b"IDAT", &compressed), chunk(b"IEND", &[])]);
    let (a, b) = compressed.split_at(compressed.len() / 2);
    let split = png(&[palette_free.clone(), chunk(b"IDAT", a), chunk(b"IDAT", b), chunk(b"IEND", &[])]);
    let with_extra = png(&[
        palette_free,
        chunk(b"pHYs", &[0, 0, 11, 19, 0, 0, 11, 19, 1]),
        chunk(b"IDAT", &compressed),
        chunk(b"tIME", &[7, 232, 1, 1, 0, 0, 0]),
        chunk(b"IEND", &[]),
    ]);
    let reference = readPNG(&joined, &identity()).unwrap();
    assert!(same_image(&reference, &readPNG(&split, &identity()).unwrap()));
    assert!(same_image(&reference, &readPNG(&with_extra, &identity()).unwrap()));
    assert_eq!(reference.pixels.len(), 4);
}
