use vstd::prelude::*;

use super::image::{colourRGBA, empty_image, Image, ImageView};
use super::interlace::{decodeImage, decode_image};

verus! {

/// Reads the byte at `*position` and moves past it.
pub fn readU8(position: &mut usize, list: &Vec<u8>) -> (num: u8)
    requires
        *old(position) < list.len(),
    ensures
        num == list@[*old(position) as int],
        *final(position) == *old(position) + 1,
{
    let num = list[*position];
    *position = *position + 1;
    num
}

/// The big-endian 32-bit number in `bytes[pos..pos + 4]`.
pub open spec fn be_u32(bytes: Seq<u8>, pos: int) -> u32 {
    (bytes[pos] as int * 16777216 + bytes[pos + 1] as int * 65536 + bytes[pos + 2] as int * 256
        + bytes[pos + 3] as int) as u32
}

/// Reads the big-endian 32-bit number at `*position` and moves past it.
pub fn readU32(position: &mut usize, list: &Vec<u8>) -> (num: u32)
    requires
        *old(position) + 4 <= list.len(),
    ensures
        num == be_u32(list@, *old(position) as int),
        *final(position) == *old(position) + 4,
{
    let p = *position;
    let b0 = list[p] as u32;
    let b1 = list[p + 1] as u32;
    let b2 = list[p + 2] as u32;
    let b3 = list[p + 3] as u32;
    let num = b0 * 16777216 + b1 * 65536 + b2 * 256 + b3;
    *position = p + 4;
    num
}

/// Copies the `values` bytes at `*position` and moves past them.
pub fn readVec(position: &mut usize, values: usize, list: &Vec<u8>) -> (num: Vec<u8>)
    requires
        *old(position) + values <= list.len(),
    ensures
        num@ == list@.subrange(*old(position) as int, *old(position) + values),
        *final(position) == *old(position) + values,
{
    let start = *position;
    let mut num: Vec<u8> = Vec::new();
    let mut k: usize = 0;
    while k < values
        invariant
            start + values <= list.len(),
            k <= values,
            num@ == list@.subrange(start as int, start + k),
        decreases values - k,
    {
        num.push(list[start + k]);
        k = k + 1;
        assert(num@ =~= list@.subrange(start as int, start + k));
    }
    *position = start + values;
    num
}


/// The chunk type `IHDR` (image header), as a big-endian number.
pub const IHDR: u32 = 1229472850u32;

/// The chunk type `gAMA` (image gamma).
pub const GAMA: u32 = 1732332865u32;

/// The chunk type `sRGB` (standard RGB colour space).
pub const SRGB: u32 = 1934772034u32;

/// The chunk type `PLTE` (palette).
pub const PLTE: u32 = 1347179589u32;

/// The chunk type `tRNS` (transparency).
pub const TRNS: u32 = 1951551059u32;

/// The chunk type `IDAT` (image data).
pub const IDAT: u32 = 1229209940u32;

/// Why a PNG file could not be decoded.
#[derive(Debug, Clone, Copy, PartialEq, Eq, Structural)]
pub enum PngError {
    /// A chunk reaches past the end of the file, a transparency chunk has
    /// more entries than the palette, or a position overflows.
    MalformedChunks,
    /// The image data is not a valid zlib stream.
    Decompression,
    /// The decompressed data ends too soon or does not fit the header
    /// (colour type, bit depth, palette, filters, size).
    MalformedPixelData,
}

/// The palette entries of a `PLTE` chunk body: `count` colours of three bytes
/// each, opaque.
pub open spec fn palette_entries(bytes: Seq<u8>, body: int, count: int) -> Seq<colourRGBA> {
    Seq::new(
        count as nat,
        |t: int| colourRGBA { R: bytes[body + 3 * t], G: bytes[body + 3 * t + 1], B: bytes[body + 3 * t + 2], A: 255 },
    )
}

/// The palette with the alpha of its first `count` entries taken from the
/// bytes of a `tRNS` chunk body.
pub open spec fn with_alphas(palette: Seq<colourRGBA>, bytes: Seq<u8>, body: int, count: int) -> Seq<colourRGBA> {
    Seq::new(
        palette.len(),
        |t: int|
            if t < count {
                colourRGBA { R: palette[t].R, G: palette[t].G, B: palette[t].B, A: bytes[body + t] }
            } else {
                palette[t]
            },
    )
}

/// Reads the body of a chunk of type `kind` and declared length `length`
/// that starts at `body`: gives the number of bytes that the decoder moves
/// past, the image fields and the image data collected so far. The header,
/// gamma and colour space chunks are read at their fixed sizes whatever
/// their declared length; a palette chunk is read in whole entries; chunks
/// of other types are skipped. `None` where a read reaches past the end of
/// the file or a transparency chunk has more entries than the palette.
pub open spec fn chunk_body(
    bytes: Seq<u8>,
    body: int,
    length: u32,
    kind: u32,
    img: ImageView,
    idat: Seq<u8>,
) -> Option<(nat, ImageView, Seq<u8>)> {
    if kind == IHDR {
        if body + 13 > bytes.len() {
            None
        } else {
            Some(
                (
                    13,
                    ImageView {
                        width: be_u32(bytes, body),
                        height: be_u32(bytes, body + 4),
                        depth: bytes[body + 8],
                        colourType: bytes[body + 9],
                        interlace: bytes[body + 12],
                        ..img
                    },
                    idat,
                ),
            )
        }
    } else if kind == GAMA {
        if body + 4 > bytes.len() {
            None
        } else {
            Some((4, ImageView { gamma: Some(be_u32(bytes, body)), ..img }, idat))
        }
    } else if kind == SRGB {
        if body + 1 > bytes.len() {
            None
        } else {
            Some((1, ImageView { colourSpace: bytes[body], ..img }, idat))
        }
    } else if kind == PLTE {
        let count = (length + 2) / 3;
        if body + 3 * count > bytes.len() {
            None
        } else {
            Some(
                (
                    (3 * count) as nat,
                    ImageView { colourPalette: img.colourPalette + palette_entries(bytes, body, count), ..img },
                    idat,
                ),
            )
        }
    } else if kind == TRNS {
        if body + length > bytes.len() || length > img.colourPalette.len() {
            None
        } else {
            Some(
                (
                    length as nat,
                    ImageView { colourPalette: with_alphas(img.colourPalette, bytes, body, length as int), ..img },
                    idat,
                ),
            )
        }
    } else if kind == IDAT {
        if body + length > bytes.len() {
            None
        } else {
            Some((length as nat, img, idat + bytes.subrange(body, body + length)))
        }
    } else {
        Some((length as nat, img, idat))
    }
}

/// Walks the chunks from `pos` to the end of the file, each a 4-byte length,
/// a 4-byte type, a body and a 4-byte checksum that is not checked; gives
/// the image fields and the concatenated image data.
pub open spec fn walk_chunks(bytes: Seq<u8>, pos: int, img: ImageView, idat: Seq<u8>) -> Option<
    (ImageView, Seq<u8>),
>
    decreases (if pos >= bytes.len() { 0 } else { bytes.len() - pos }),
{
    if pos >= bytes.len() {
        Some((img, idat))
    } else if pos < 0 || pos + 8 > bytes.len() {
        None
    } else {
        match chunk_body(bytes, pos + 8, be_u32(bytes, pos), be_u32(bytes, pos + 4), img, idat) {
            None => None,
            Some((used, img2, idat2)) => {
                if pos + 12 + used > usize::MAX {
                    None
                } else {
                    walk_chunks(bytes, pos + 12 + used, img2, idat2)
                }
            },
        }
    }
}

/// The image fields and image data of a PNG file: the chunks after the
/// 8-byte signature (which is not checked), read into the empty image.
pub open spec fn read_chunks(bytes: Seq<u8>) -> Option<(ImageView, Seq<u8>)> {
    walk_chunks(bytes, 8, empty_image(), Seq::empty())
}

/// What reading flate2's zlib decoder over `compressed` to its end gives:
/// the decompressed bytes, or `None` where the decoder reports the stream as
/// corrupt or incomplete.
pub uninterp spec fn zlib_inflated(compressed: Seq<u8>) -> Option<Seq<u8>>;

/// The image that a PNG file decodes to with the gamma curve `curve`, or why
/// it does not decode.
pub open spec fn read_png(bytes: Seq<u8>, curve: Seq<u8>) -> Result<ImageView, PngError> {
    match read_chunks(bytes) {
        None => Err(PngError::MalformedChunks),
        Some((img, idat)) => match zlib_inflated(idat) {
            None => Err(PngError::Decompression),
            Some(data) => match decode_image(img, curve, data) {
                None => Err(PngError::MalformedPixelData),
                Some(px) => Ok(ImageView { pixels: px, ..img }),
            },
        },
    }
}

/// The error type of `std::io`, which the zlib decoder reports; opaque here.
#[verifier::external_type_specification]
#[verifier::external_body]
pub struct ExIoError(std::io::Error);

/// Decompresses a zlib stream by reading flate2's `ZlibDecoder` over it to
/// the end (`std::io::Read::read_to_end`). Trusted: what it returns is a
/// function of the compressed bytes alone, named `zlib_inflated`; `Ok` with
/// the decompressed bytes when the decoder reads to the end, `Err` when it
/// reports an error.
#[verifier::external_body]
fn zlibDecompress(compressed: &[u8]) -> (res: Result<Vec<u8>, std::io::Error>)
    ensures
        match res {
            Ok(data) => zlib_inflated(compressed@) == Some(data@),
            Err(_) => zlib_inflated(compressed@) is None,
        },
{
    let mut decoder = flate2::read::ZlibDecoder::new(compressed);
    let mut data: Vec<u8> = Vec::new();
    match std::io::Read::read_to_end(&mut decoder, &mut data) {
        Ok(_) => Ok(data),
        Err(e) => Err(e),
    }
}

/// Decompresses the concatenated image data.
pub fn inflate(idat: &Vec<u8>) -> (res: Result<Vec<u8>, PngError>)
    ensures
        match res {
            Ok(data) => zlib_inflated(idat@) == Some(data@),
            Err(e) => e == PngError::Decompression && zlib_inflated(idat@) is None,
        },
{
    match zlibDecompress(idat.as_slice()) {
        Ok(data) => Ok(data),
        Err(_) => Err(PngError::Decompression),
    }
}

/// Reads the chunks of a PNG file into an image without pixels, and
/// collects the image data of its `IDAT` chunks.
pub fn readChunks(imageBytes: &Vec<u8>) -> (res: Option<(Image, Vec<u8>)>)
    ensures
        match res {
            Some((image, idat)) => read_chunks(imageBytes@) == Some((image@, idat@)),
            None => read_chunks(imageBytes@) is None,
        },
{
    let mut image = Image::default();
    let mut idatChunks: Vec<u8> = Vec::new();
    let ghost target = read_chunks(imageBytes@);
    let len = imageBytes.len();
    let mut i: usize = 8;
    while i < len
        invariant
            len == imageBytes@.len(),
            walk_chunks(imageBytes@, i as int, image@, idatChunks@) == target,
            target == read_chunks(imageBytes@),
        decreases (if i >= len { 0 } else { len - i }),
    {
        if len - i < 8 {
            return None;
        }
        let start = i;
        let ghost pos = i as int;
        let chunkLength = readU32(&mut i, imageBytes);
        let chunkType = readU32(&mut i, imageBytes);
        let ghost img0 = image@;
        let ghost idat0 = idatChunks@;
        let used: usize;
        if chunkType == IHDR {
            if len - i < 13 {
                return None;
            }
            image.width = readU32(&mut i, imageBytes);
            image.height = readU32(&mut i, imageBytes);
            image.depth = readU8(&mut i, imageBytes);
            image.colourType = readU8(&mut i, imageBytes);
            i = i + 2;
            image.interlace = readU8(&mut i, imageBytes);
            used = 13;
        } else if chunkType == GAMA {
            if len - i < 4 {
                return None;
            }
            image.gamma = Some(readU32(&mut i, imageBytes));
            used = 4;
        } else if chunkType == SRGB {
            if len - i < 1 {
                return None;
            }
            image.colourSpace = readU8(&mut i, imageBytes);
            used = 1;
        } else if chunkType == PLTE {
            let count: u64 = (chunkLength as u64 + 2) / 3;
            if count * 3 > (len - i) as u64 {
                return None;
            }
            let body = i;
            let ghost pal0 = image.colourPalette@;
            let mut t: u64 = 0;
            while t < count
                invariant
                    t <= count,
                    count * 3 <= len - body,
                    len == imageBytes@.len(),
                    i == body + 3 * t,
                    image.colourPalette@ == pal0 + palette_entries(imageBytes@, body as int, t as int),
                    image@ == (ImageView { colourPalette: image.colourPalette@, ..img0 }),
                decreases count - t,
            {
                let bytes = readVec(&mut i, 3, imageBytes);
                image.colourPalette.push(colourRGBA { R: bytes[0], G: bytes[1], B: bytes[2], A: 255 });
                t = t + 1;
                assert(image.colourPalette@ =~= pal0 + palette_entries(imageBytes@, body as int, t as int));
            }
            used = (count * 3) as usize;
        } else if chunkType == TRNS {
            let n = chunkLength as usize;
            if n > len - i || n > image.colourPalette.len() {
                return None;
            }
            let body = i;
            let ghost pal0 = image.colourPalette@;
            let mut j: usize = 0;
            while j < n
                invariant
                    j <= n,
                    n <= len - body,
                    n <= pal0.len(),
                    len == imageBytes@.len(),
                    i == body + j,
                    image.colourPalette@ == with_alphas(pal0, imageBytes@, body as int, j as int),
                    image@ == (ImageView { colourPalette: image.colourPalette@, ..img0 }),
                decreases n - j,
            {
                let byte = readVec(&mut i, 1, imageBytes);
                let mut entry = image.colourPalette[j];
                entry.A = byte[0];
                image.colourPalette.set(j, entry);
                j = j + 1;
                assert(image.colourPalette@ =~= with_alphas(pal0, imageBytes@, body as int, j as int));
            }
            used = n;
        } else if chunkType == IDAT {
            let n = chunkLength as usize;
            if n > len - i {
                return None;
            }
            let mut data = readVec(&mut i, n, imageBytes);
            idatChunks.append(&mut data);
            used = n;
        } else {
            used = chunkLength as usize;
        }
        assert(chunk_body(imageBytes@, pos + 8, chunkLength, chunkType, img0, idat0) == Some(
            (used as nat, image@, idatChunks@),
        ));
        if used > usize::MAX - 12 || start > usize::MAX - 12 - used {
            return None;
        }
        i = start + 12 + used;
    }
    Some((image, idatChunks))
}

/// Decodes a PNG file: reads its chunks, decompresses its image data and
/// decodes the pixels, with `gammaCurve` as the gamma correction of the
/// colour channels of truecolour images when the file has a gamma (entry
/// `v` is the corrected level of `v`).
pub fn readPNG(imageBytes: &Vec<u8>, gammaCurve: &[u8; 256]) -> (res: Result<Image, PngError>)
    ensures
        match res {
            Ok(image) => read_png(imageBytes@, gammaCurve@) == Ok::<ImageView, PngError>(image@),
            Err(e) => read_png(imageBytes@, gammaCurve@) == Err::<ImageView, PngError>(e),
        },
{
    let (mut image, idatChunks) = match readChunks(imageBytes) {
        Some(r) => r,
        None => {
            return Err(PngError::MalformedChunks);
        },
    };
    let decompressedBytes = inflate(&idatChunks)?;
    match decodeImage(&image, gammaCurve, &decompressedBytes) {
        Some(pixels) => {
            image.pixels = pixels;
            Ok(image)
        },
        None => Err(PngError::MalformedPixelData),
    }
}

} // verus!
