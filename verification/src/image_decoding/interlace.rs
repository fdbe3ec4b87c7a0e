use vstd::prelude::*;

use super::decode::{decodeRows, decode_rows};
use super::image::{colourRGBA, Image, ImageView, opaque_black};
use vstd::arithmetic::div_mod::{lemma_fundamental_div_mod, lemma_fundamental_div_mod_converse};

verus! {

/// The geometry of Adam7 pass `pass` (0 to 6): the column and row of its
/// first pixel, and the column and row steps between its pixels.
pub open spec fn adam7_pass(pass: int) -> (u32, u32, u32, u32) {
    if pass == 0 {
        (0, 0, 8, 8)
    } else if pass == 1 {
        (4, 0, 8, 8)
    } else if pass == 2 {
        (0, 4, 4, 8)
    } else if pass == 3 {
        (2, 0, 4, 4)
    } else if pass == 4 {
        (0, 2, 2, 4)
    } else if pass == 5 {
        (1, 0, 2, 2)
    } else {
        (0, 1, 1, 2)
    }
}

fn adam7Pass(pass: usize) -> (g: (u32, u32, u32, u32))
    ensures
        g == adam7_pass(pass as int),
{
    if pass == 0 {
        (0, 0, 8, 8)
    } else if pass == 1 {
        (4, 0, 8, 8)
    } else if pass == 2 {
        (0, 4, 4, 8)
    } else if pass == 3 {
        (2, 0, 4, 4)
    } else if pass == 4 {
        (0, 2, 2, 4)
    } else if pass == 5 {
        (1, 0, 2, 2)
    } else {
        (0, 1, 1, 2)
    }
}

/// The number of columns (rows) that a pass with the given start and step
/// has in an image `size` columns wide (rows high); `None` where
/// `size + step` does not fit in 32 bits.
pub open spec fn pass_extent(size: u32, start: u32, step: u32) -> Option<u32> {
    if size + step > u32::MAX {
        None
    } else {
        Some(((size + step - 1 - start) / (step as int)) as u32)
    }
}

/// The pass column of pixel `k` of an image `width` pixels wide.
pub open spec fn pass_col(k: int, width: int, xs: int, xstep: int) -> int {
    (k % width - xs) / xstep
}

/// The pass row of pixel `k` of an image `width` pixels wide.
pub open spec fn pass_row(k: int, width: int, ys: int, ystep: int) -> int {
    (k / width - ys) / ystep
}

/// Whether pixel `k` of an image `width` pixels wide belongs to the pass with
/// the given geometry and extent.
pub open spec fn on_pass(k: int, width: int, xs: int, ys: int, xstep: int, ystep: int, pw: int, ph: int) -> bool {
    &&& k % width >= xs
    &&& (k % width - xs) % xstep == 0
    &&& pass_col(k, width, xs, xstep) < pw
    &&& k / width >= ys
    &&& (k / width - ys) % ystep == 0
    &&& pass_row(k, width, ys, ystep) < ph
}

/// `canvas` with each pixel of the pass replaced by the pass's decoded pixel.
pub open spec fn place_pass(
    canvas: Seq<colourRGBA>,
    width: u32,
    pass_px: Seq<colourRGBA>,
    pw: u32,
    ph: u32,
    xs: u32,
    ys: u32,
    xstep: u32,
    ystep: u32,
) -> Seq<colourRGBA> {
    Seq::new(
        canvas.len(),
        |k: int|
            if on_pass(k, width as int, xs as int, ys as int, xstep as int, ystep as int, pw as int, ph as int) {
                pass_px[pass_row(k, width as int, ys as int, ystep as int) * pw + pass_col(
                    k,
                    width as int,
                    xs as int,
                    xstep as int,
                )]
            } else {
                canvas[k]
            },
    )
}

/// Decodes the Adam7 passes `pass..7` from `pos` on and places their pixels
/// on `canvas`. A pass without columns or rows is skipped; a pass that
/// decodes to fewer pixels than it has gives `None`.
pub open spec fn adam7_passes(
    img: ImageView,
    curve: Seq<u8>,
    bytes: Seq<u8>,
    pos: int,
    pass: int,
    canvas: Seq<colourRGBA>,
) -> Option<Seq<colourRGBA>>
    decreases 7 - pass,
{
    if pass >= 7 {
        Some(canvas)
    } else {
        let (xs, ys, xstep, ystep) = adam7_pass(pass);
        match (pass_extent(img.width, xs, xstep), pass_extent(img.height, ys, ystep)) {
            (Some(pw), Some(ph)) => {
                if pw == 0 || ph == 0 {
                    adam7_passes(img, curve, bytes, pos, pass + 1, canvas)
                } else {
                    match decode_rows(img, curve, bytes, pos, pw, ph as int, Seq::empty()) {
                        None => None,
                        Some((next, pass_px)) => {
                            if pass_px.len() < pw * ph {
                                None
                            } else {
                                adam7_passes(
                                    img,
                                    curve,
                                    bytes,
                                    next,
                                    pass + 1,
                                    place_pass(canvas, img.width, pass_px, pw, ph, xs, ys, xstep, ystep),
                                )
                            }
                        },
                    }
                }
            },
            _ => None,
        }
    }
}

/// The pixels of an image from its decompressed data: for an interlaced
/// image (interlace method 1) the seven Adam7 passes placed on an opaque
/// black canvas of `width * height` pixels, otherwise `height` rows of
/// `width` pixels.
pub open spec fn decode_image(img: ImageView, curve: Seq<u8>, bytes: Seq<u8>) -> Option<Seq<colourRGBA>> {
    if img.interlace == 1 {
        if img.width * img.height > u32::MAX {
            None
        } else {
            adam7_passes(
                img,
                curve,
                bytes,
                0,
                0,
                Seq::new((img.width * img.height) as nat, |k: int| opaque_black()),
            )
        }
    } else {
        match decode_rows(img, curve, bytes, 0, img.width, img.height as int, Seq::empty()) {
            Some((_, px)) => Some(px),
            None => None,
        }
    }
}

/// A coordinate of pass index `idx` lies inside the image.
proof fn lemma_pass_coord(size: int, start: int, step: int, idx: int)
    requires
        0 <= start < step,
        0 <= idx,
        idx < (size + step - 1 - start) / step,
        size + step - 1 - start >= 0,
    ensures
        start + idx * step < size,
{
    let n = size + step - 1 - start;
    lemma_fundamental_div_mod(n, step);
    let q = n / step;
    assert(idx + 1 <= q);
    assert((idx + 1) * step <= q * step) by (nonlinear_arith)
        requires
            idx + 1 <= q,
            step > 0,
    ;
    assert(start + idx * step < size) by (nonlinear_arith)
        requires
            (idx + 1) * step <= q * step,
            n == step * q + n % step,
            n % step >= 0,
            n == size + step - 1 - start,
    ;
}

/// The pixel at pass row `row` and pass column `col` is on the pass, at that
/// row and column.
proof fn lemma_pass_pixel(
    width: int,
    height: int,
    xs: int,
    ys: int,
    xstep: int,
    ystep: int,
    pw: int,
    ph: int,
    row: int,
    col: int,
)
    requires
        0 <= xs < xstep,
        0 <= ys < ystep,
        width + xstep - 1 - xs >= 0,
        height + ystep - 1 - ys >= 0,
        pw == (width + xstep - 1 - xs) / xstep,
        ph == (height + ystep - 1 - ys) / ystep,
        0 <= row < ph,
        0 <= col < pw,
    ensures
        ({
            let x = xs + col * xstep;
            let y = ys + row * ystep;
            let k = y * width + x;
            &&& 0 <= x < width
            &&& 0 <= y < height
            &&& 0 <= k < width * height
            &&& k % width == x
            &&& k / width == y
            &&& on_pass(k, width, xs, ys, xstep, ystep, pw, ph)
            &&& pass_row(k, width, ys, ystep) == row
            &&& pass_col(k, width, xs, xstep) == col
        }),
{
    lemma_pass_coord(width, xs, xstep, col);
    lemma_pass_coord(height, ys, ystep, row);
    let x = xs + col * xstep;
    let y = ys + row * ystep;
    let k = y * width + x;
    assert(0 <= col * xstep) by (nonlinear_arith)
        requires
            0 <= col,
            0 <= xstep,
    ;
    assert(0 <= row * ystep) by (nonlinear_arith)
        requires
            0 <= row,
            0 <= ystep,
    ;
    assert(0 <= k < width * height) by (nonlinear_arith)
        requires
            0 <= x < width,
            0 <= y < height,
            k == y * width + x,
    ;
    lemma_fundamental_div_mod_converse(k, width, y, x);
    lemma_fundamental_div_mod_converse(x - xs, xstep, col, 0);
    lemma_fundamental_div_mod_converse(y - ys, ystep, row, 0);
}

/// A pixel on a pass is the one at its pass row and pass column.
proof fn lemma_on_pass_position(
    k: int,
    width: int,
    xs: int,
    ys: int,
    xstep: int,
    ystep: int,
    pw: int,
    ph: int,
)
    requires
        0 <= k,
        width > 0,
        xstep > 0,
        ystep > 0,
        on_pass(k, width, xs, ys, xstep, ystep, pw, ph),
    ensures
        k == (ys + pass_row(k, width, ys, ystep) * ystep) * width + xs + pass_col(k, width, xs, xstep) * xstep,
{
    lemma_fundamental_div_mod(k, width);
    lemma_fundamental_div_mod(k % width - xs, xstep);
    lemma_fundamental_div_mod(k / width - ys, ystep);
    let r = pass_row(k, width, ys, ystep);
    let c = pass_col(k, width, xs, xstep);
    assert(k % width - xs == xstep * c);
    assert(k / width - ys == ystep * r);
    assert(k == (ys + r * ystep) * width + xs + c * xstep) by (nonlinear_arith)
        requires
            k == width * (k / width) + k % width,
            k % width - xs == xstep * c,
            k / width - ys == ystep * r,
    ;
}


/// Writes the pixels of one pass onto the canvas; `false` where the pass
/// decoded to fewer pixels than it has.
fn placePass(
    canvas: &mut Vec<colourRGBA>,
    width: u32,
    height: u32,
    passPixels: &Vec<colourRGBA>,
    pw: u32,
    ph: u32,
    xs: u32,
    ys: u32,
    xstep: u32,
    ystep: u32,
) -> (ok: bool)
    requires
        old(canvas)@.len() == width * height,
        width * height <= u32::MAX,
        0 <= xs < xstep,
        0 <= ys < ystep,
        width + xstep <= u32::MAX,
        height + ystep <= u32::MAX,
        pw == (width + xstep - 1 - xs) / (xstep as int),
        ph == (height + ystep - 1 - ys) / (ystep as int),
    ensures
        ok <==> passPixels@.len() >= pw * ph,
        ok ==> final(canvas)@ == place_pass(old(canvas)@, width, passPixels@, pw, ph, xs, ys, xstep, ystep),
{
    let ghost c0 = canvas@;
    let ghost total = c0.len() as int;
    let ghost (w, xsi, ysi, xst, yst, pwi, phi) = (
        width as int,
        xs as int,
        ys as int,
        xstep as int,
        ystep as int,
        pw as int,
        ph as int,
    );
    assert(pw as int * ph as int <= u32::MAX) by {
        if pw > 0 && ph > 0 {
            lemma_pass_pixel(w, height as int, xsi, ysi, xst, yst, pwi, phi, phi - 1, pwi - 1);
            lemma_pass_coord(width as int, xsi, xst, pwi - 1);
            lemma_pass_coord(height as int, ysi, yst, phi - 1);
            assert(pw as int * ph as int <= width as int * height as int) by (nonlinear_arith)
                requires
                    xsi + (pwi - 1) * xst < width,
                    ysi + (phi - 1) * yst < height,
                    xst >= 1,
                    yst >= 1,
                    xsi >= 0,
                    ysi >= 0,
                    pwi == pw,
                    phi == ph,
            ;
        } else {
            assert(pw as int * ph as int == 0) by (nonlinear_arith)
                requires
                    pw == 0 || ph == 0,
            ;
        }
    }
    if (passPixels.len() as u64) < (pw as u64) * (ph as u64) {
        return false;
    }
    let mut row: u32 = 0;
    while row < ph
        invariant
            row <= ph,
            canvas@.len() == total,
            total == width * height,
            width * height <= u32::MAX,
            passPixels@.len() >= pw * ph,
            pw as int * ph as int <= u32::MAX,
            0 <= xs < xstep,
            0 <= ys < ystep,
            width + xstep <= u32::MAX,
            height + ystep <= u32::MAX,
            pw == (width + xstep - 1 - xs) / (xstep as int),
            ph == (height + ystep - 1 - ys) / (ystep as int),
            (w, xsi, ysi, xst, yst, pwi, phi) == (
                width as int,
                xs as int,
                ys as int,
                xstep as int,
                ystep as int,
                pw as int,
                ph as int,
            ),
            forall|k: int|
                0 <= k < total ==> #[trigger] canvas@[k] == if on_pass(k, w, xsi, ysi, xst, yst, pwi, phi)
                    && pass_row(k, w, ysi, yst) < row {
                    passPixels@[pass_row(k, w, ysi, yst) * pwi + pass_col(k, w, xsi, xst)]
                } else {
                    c0[k]
                },
        decreases ph - row,
    {
        let mut col: u32 = 0;
        while col < pw
            invariant
                row < ph,
                col <= pw,
                canvas@.len() == total,
                total == width * height,
                width * height <= u32::MAX,
                passPixels@.len() >= pw * ph,
                pw as int * ph as int <= u32::MAX,
                0 <= xs < xstep,
                0 <= ys < ystep,
                width + xstep <= u32::MAX,
                height + ystep <= u32::MAX,
                pw == (width + xstep - 1 - xs) / (xstep as int),
                ph == (height + ystep - 1 - ys) / (ystep as int),
                (w, xsi, ysi, xst, yst, pwi, phi) == (
                    width as int,
                    xs as int,
                    ys as int,
                    xstep as int,
                    ystep as int,
                    pw as int,
                    ph as int,
                ),
                forall|k: int|
                    0 <= k < total ==> #[trigger] canvas@[k] == if on_pass(k, w, xsi, ysi, xst, yst, pwi, phi) && (
                    pass_row(k, w, ysi, yst) < row || (pass_row(k, w, ysi, yst) == row && pass_col(k, w, xsi, xst)
                        < col)) {
                        passPixels@[pass_row(k, w, ysi, yst) * pwi + pass_col(k, w, xsi, xst)]
                    } else {
                        c0[k]
                    },
            decreases pw - col,
        {
            proof {
                lemma_pass_pixel(w, height as int, xsi, ysi, xst, yst, pwi, phi, row as int, col as int);
                assert(row as int * pwi + col < pwi * phi) by (nonlinear_arith)
                    requires
                        0 <= row < phi,
                        0 <= col < pwi,
                ;
            }
            let endX = xs + col * xstep;
            let endY = ys + row * ystep;
            assert((endY as int) * (width as int) + (endX as int) < (width as int) * (height as int));
            let endIdx = (endY * width + endX) as usize;
            let srcIdx = (row * pw + col) as usize;
            let ghost before = canvas@;
            let value = passPixels[srcIdx];
            canvas[endIdx] = value;
            proof {
                assert forall|k: int| 0 <= k < total implies #[trigger] canvas@[k] == if on_pass(
                    k,
                    w,
                    xsi,
                    ysi,
                    xst,
                    yst,
                    pwi,
                    phi,
                ) && (pass_row(k, w, ysi, yst) < row || (pass_row(k, w, ysi, yst) == row && pass_col(
                    k,
                    w,
                    xsi,
                    xst,
                ) < col + 1)) {
                    passPixels@[pass_row(k, w, ysi, yst) * pwi + pass_col(k, w, xsi, xst)]
                } else {
                    c0[k]
                } by {
                    if k != endIdx as int {
                        assert(canvas@[k] == before[k]);
                        if on_pass(k, w, xsi, ysi, xst, yst, pwi, phi) && pass_row(k, w, ysi, yst) == row
                            && pass_col(k, w, xsi, xst) == col {
                            lemma_on_pass_position(k, w, xsi, ysi, xst, yst, pwi, phi);
                        }
                    }
                }
            }
            col = col + 1;
        }
        row = row + 1;
    }
    proof {
        assert(canvas@ =~= place_pass(c0, width, passPixels@, pw, ph, xs, ys, xstep, ystep));
    }
    true
}

/// Decodes the pixels of `image` from its decompressed data, interlaced or
/// not, with `curve` as its gamma correction.
pub fn decodeImage(image: &Image, curve: &[u8; 256], decompressedBytes: &Vec<u8>) -> (res: Option<
    Vec<colourRGBA>,
>)
    ensures
        match res {
            Some(px) => decode_image(image@, curve@, decompressedBytes@) == Some(px@),
            None => decode_image(image@, curve@, decompressedBytes@) is None,
        },
{
    let mut i: usize = 0;
    if image.interlace == 1 {
        let w64 = image.width as u64;
        let h64 = image.height as u64;
        assert(w64 * h64 <= 0xffff_ffffu64 * 0xffff_ffffu64) by (nonlinear_arith)
            requires
                w64 <= 0xffff_ffffu64,
                h64 <= 0xffff_ffffu64,
        ;
        if w64 * h64 > u32::MAX as u64 {
            return None;
        }
        let total = (image.width * image.height) as usize;
        let mut canvas: Vec<colourRGBA> = Vec::new();
        while canvas.len() < total
            invariant
                total == image.width * image.height,
                canvas@.len() <= total,
                forall|k: int| 0 <= k < canvas@.len() ==> #[trigger] canvas@[k] == opaque_black(),
            decreases total - canvas@.len(),
        {
            canvas.push(colourRGBA::default());
        }
        let ghost target = decode_image(image@, curve@, decompressedBytes@);
        assert(canvas@ =~= Seq::new((image.width * image.height) as nat, |k: int| opaque_black()));
        let mut pass: usize = 0;
        while pass < 7
            invariant
                pass <= 7,
                image.interlace == 1,
                image.width * image.height <= u32::MAX,
                canvas@.len() == image.width * image.height,
                adam7_passes(image@, curve@, decompressedBytes@, i as int, pass as int, canvas@) == target,
                target == decode_image(image@, curve@, decompressedBytes@),
            decreases 7 - pass,
        {
            let (xStart, yStart, xStep, yStep) = adam7Pass(pass);
            if image.width > u32::MAX - xStep || image.height > u32::MAX - yStep {
                return None;
            }
            let passWidth = (image.width + xStep - 1 - xStart) / xStep;
            let passHeight = (image.height + yStep - 1 - yStart) / yStep;
            if passWidth != 0 && passHeight != 0 {
                let passPixels = match decodeRows(
                    image,
                    curve,
                    decompressedBytes,
                    &mut i,
                    passWidth,
                    passHeight,
                ) {
                    Some(p) => p,
                    None => {
                        return None;
                    },
                };
                if !placePass(
                    &mut canvas,
                    image.width,
                    image.height,
                    &passPixels,
                    passWidth,
                    passHeight,
                    xStart,
                    yStart,
                    xStep,
                    yStep,
                ) {
                    return None;
                }
            }
            pass = pass + 1;
        }
        Some(canvas)
    } else {
        decodeRows(image, curve, decompressedBytes, &mut i, image.width, image.height)
    }
}

} // verus!
