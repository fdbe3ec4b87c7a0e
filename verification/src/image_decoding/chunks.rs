use vstd::prelude::*;

use super::image::{colourRGBA, empty_image, ImageView};
use super::png::{
    be_u32, chunk_body, palette_entries, read_chunks, read_png, walk_chunks, with_alphas, GAMA, IDAT, IHDR, PLTE, SRGB,
    TRNS,
};

verus! {

/// A chunk of a PNG file: its type, its body and its checksum (which the
/// decoder does not check).
pub struct Chunk {
    pub kind: u32,
    pub body: Seq<u8>,
    pub crc: u32,
}

/// The big-endian bytes of a 32-bit number.
pub open spec fn u32_be(v: u32) -> Seq<u8> {
    seq![(v / 16777216) as u8, (v / 65536 % 256) as u8, (v / 256 % 256) as u8, (v % 256) as u8]
}

/// The bytes of a chunk: the length of its body, its type, its body and its
/// checksum.
pub open spec fn chunk_bytes(c: Chunk) -> Seq<u8> {
    u32_be(c.body.len() as u32) + u32_be(c.kind) + c.body + u32_be(c.crc)
}

/// The bytes of a sequence of chunks, one after the other.
pub open spec fn chunks_bytes(cs: Seq<Chunk>) -> Seq<u8>
    decreases cs.len(),
{
    if cs.len() == 0 {
        Seq::empty()
    } else {
        chunk_bytes(cs[0]) + chunks_bytes(cs.drop_first())
    }
}

/// A PNG file: an 8-byte signature followed by chunks.
pub open spec fn png_bytes(signature: Seq<u8>, cs: Seq<Chunk>) -> Seq<u8> {
    signature + chunks_bytes(cs)
}

/// A chunk whose length fits its field and whose body has the size that the
/// decoder reads for its type: 13 bytes for `IHDR`, 4 for `gAMA`, 1 for
/// `sRGB`, whole three-byte entries for `PLTE`.
pub open spec fn well_formed(c: Chunk) -> bool {
    &&& c.body.len() <= u32::MAX
    &&& c.kind == IHDR ==> c.body.len() == 13
    &&& c.kind == GAMA ==> c.body.len() == 4
    &&& c.kind == SRGB ==> c.body.len() == 1
    &&& c.kind == PLTE ==> c.body.len() % 3 == 0
}

/// Every chunk is well formed.
pub open spec fn all_well_formed(cs: Seq<Chunk>) -> bool {
    forall|i: int| 0 <= i < cs.len() ==> well_formed(#[trigger] cs[i])
}

/// A chunk of a type that the decoder skips.
pub open spec fn skipped_kind(kind: u32) -> bool {
    kind != IHDR && kind != GAMA && kind != SRGB && kind != PLTE && kind != TRNS && kind != IDAT
}

/// The image fields and image data that reading the chunks `cs` in turn
/// gives, each from its own body.
pub open spec fn apply_chunks(cs: Seq<Chunk>, img: ImageView, idat: Seq<u8>) -> Option<(ImageView, Seq<u8>)>
    decreases cs.len(),
{
    if cs.len() == 0 {
        Some((img, idat))
    } else {
        match chunk_body(cs[0].body, 0, cs[0].body.len() as u32, cs[0].kind, img, idat) {
            None => None,
            Some((_, img2, idat2)) => apply_chunks(cs.drop_first(), img2, idat2),
        }
    }
}

proof fn lemma_be_u32(bytes: Seq<u8>, pos: int, v: u32)
    requires
        0 <= pos,
        pos + 4 <= bytes.len(),
        bytes.subrange(pos, pos + 4) == u32_be(v),
    ensures
        be_u32(bytes, pos) == v,
{
    assert(bytes[pos] == u32_be(v)[0]);
    assert(bytes[pos + 1] == u32_be(v)[1]);
    assert(bytes[pos + 2] == u32_be(v)[2]);
    assert(bytes[pos + 3] == u32_be(v)[3]);
    let a = v / 16777216;
    let b = v / 65536 % 256;
    let c = v / 256 % 256;
    let d = v % 256;
    assert(a * 16777216 + b * 65536 + c * 256 + d == v);
}

proof fn lemma_chunks_bytes_concat(x: Seq<Chunk>, y: Seq<Chunk>)
    ensures
        chunks_bytes(x + y) == chunks_bytes(x) + chunks_bytes(y),
    decreases x.len(),
{
    if x.len() == 0 {
        assert(x + y =~= y);
        assert(chunks_bytes(x) + chunks_bytes(y) =~= chunks_bytes(y));
    } else {
        assert((x + y).drop_first() =~= x.drop_first() + y);
        lemma_chunks_bytes_concat(x.drop_first(), y);
        assert(chunks_bytes(x + y) =~= chunks_bytes(x) + chunks_bytes(y));
    }
}

proof fn lemma_apply_concat(x: Seq<Chunk>, y: Seq<Chunk>, img: ImageView, idat: Seq<u8>)
    ensures
        apply_chunks(x + y, img, idat) == match apply_chunks(x, img, idat) {
            None => None,
            Some((img2, idat2)) => apply_chunks(y, img2, idat2),
        },
    decreases x.len(),
{
    if x.len() == 0 {
        assert(x + y =~= y);
    } else {
        assert((x + y).drop_first() =~= x.drop_first() + y);
        assert((x + y)[0] == x[0]);
        if let Some((_, img2, idat2)) = chunk_body(x[0].body, 0, x[0].body.len() as u32, x[0].kind, img, idat) {
            lemma_apply_concat(x.drop_first(), y, img2, idat2);
        }
    }
}

/// Reading a well-formed chunk's body in the file is reading the body
/// itself, and moves past exactly the body.
proof fn lemma_chunk_body_local(file: Seq<u8>, off: int, c: Chunk, img: ImageView, idat: Seq<u8>)
    requires
        well_formed(c),
        0 <= off,
        off + c.body.len() <= file.len(),
        file.subrange(off, off + c.body.len()) == c.body,
    ensures
        chunk_body(file, off, c.body.len() as u32, c.kind, img, idat) == chunk_body(
            c.body,
            0,
            c.body.len() as u32,
            c.kind,
            img,
            idat,
        ),
        chunk_body(file, off, c.body.len() as u32, c.kind, img, idat) matches Some((used, _, _)) ==> used
            == c.body.len(),
{
    let n = c.body.len() as int;
    let body = c.body;
    assert forall|t: int| 0 <= t < n implies file[off + t] == body[t] by {
        assert(file.subrange(off, off + n)[t] == file[off + t]);
    }
    if c.kind == IHDR {
        assert(be_u32(file, off) == be_u32(body, 0));
        assert(be_u32(file, off + 4) == be_u32(body, 4));
    } else if c.kind == GAMA {
        assert(be_u32(file, off) == be_u32(body, 0));
    } else if c.kind == PLTE {
        let count = (c.body.len() as u32 + 2) / 3;
        assert(3 * count == n);
        assert(palette_entries(file, off, count as int) =~= palette_entries(body, 0, count as int));
    } else if c.kind == TRNS {
        assert(with_alphas(img.colourPalette, file, off, n) =~= with_alphas(img.colourPalette, body, 0, n));
    } else if c.kind == IDAT {
        assert(body.subrange(0, n) =~= body);
    }
}

/// The header and body of a chunk that follows `prefix` in a file.
proof fn lemma_chunk_at(prefix: Seq<u8>, c: Chunk, rest: Seq<u8>)
    requires
        c.body.len() <= u32::MAX,
    ensures
        ({
            let bytes = prefix + chunk_bytes(c) + rest;
            let pos = prefix.len() as int;
            let n = c.body.len() as int;
            &&& pos + 12 + n <= bytes.len()
            &&& (prefix + chunk_bytes(c)).len() == pos + 12 + n
            &&& be_u32(bytes, pos) == c.body.len() as u32
            &&& be_u32(bytes, pos + 4) == c.kind
            &&& bytes.subrange(pos + 8, pos + 8 + n) == c.body
        }),
{
    let bytes = prefix + chunk_bytes(c) + rest;
    let pos = prefix.len() as int;
    let n = c.body.len() as int;
    assert(bytes.subrange(pos, pos + 4) =~= u32_be(c.body.len() as u32));
    assert(bytes.subrange(pos + 4, pos + 8) =~= u32_be(c.kind));
    assert(bytes.subrange(pos + 8, pos + 8 + n) =~= c.body);
    lemma_be_u32(bytes, pos, c.body.len() as u32);
    lemma_be_u32(bytes, pos + 4, c.kind);
}

/// Reading chunks one after another.
proof fn lemma_apply_cons(cs: Seq<Chunk>, img: ImageView, idat: Seq<u8>)
    requires
        cs.len() > 0,
    ensures
        apply_chunks(cs, img, idat) == match chunk_body(cs[0].body, 0, cs[0].body.len() as u32, cs[0].kind, img, idat) {
            None => None,
            Some((_, img2, idat2)) => apply_chunks(cs.drop_first(), img2, idat2),
        },
{
}

/// Walking the chunks of `prefix + chunks_bytes(cs)` from the end of the
/// prefix reads the chunks in turn.
proof fn lemma_walk(prefix: Seq<u8>, cs: Seq<Chunk>, img: ImageView, idat: Seq<u8>)
    requires
        all_well_formed(cs),
        (prefix + chunks_bytes(cs)).len() <= usize::MAX,
    ensures
        walk_chunks(prefix + chunks_bytes(cs), prefix.len() as int, img, idat) == apply_chunks(cs, img, idat),
    decreases cs.len(),
{
    let bytes = prefix + chunks_bytes(cs);
    let pos = prefix.len() as int;
    if cs.len() == 0 {
        assert(bytes =~= prefix);
    } else {
        let c = cs[0];
        let tail = cs.drop_first();
        assert(well_formed(c));
        let next = prefix + chunk_bytes(c);
        assert(bytes =~= prefix + chunk_bytes(c) + chunks_bytes(tail));
        lemma_chunk_at(prefix, c, chunks_bytes(tail));
        lemma_chunk_body_local(bytes, pos + 8, c, img, idat);
        lemma_apply_cons(cs, img, idat);
        assert(all_well_formed(tail)) by {
            assert forall|i: int| 0 <= i < tail.len() implies well_formed(#[trigger] tail[i]) by {
                assert(tail[i] == cs[i + 1]);
            }
        }
        assert(next + chunks_bytes(tail) =~= bytes);
        if let Some((used, img2, idat2)) = chunk_body(bytes, pos + 8, c.body.len() as u32, c.kind, img, idat) {
            lemma_walk(next, tail, img2, idat2);
        }
    }
}

/// The chunk walk over a PNG file made of the chunks `cs` reads the chunks
/// in turn.
proof fn lemma_read_png_chunks(signature: Seq<u8>, cs: Seq<Chunk>)
    requires
        signature.len() == 8,
        all_well_formed(cs),
        png_bytes(signature, cs).len() <= usize::MAX,
    ensures
        read_chunks(png_bytes(signature, cs)) == apply_chunks(cs, empty_image(), Seq::empty()),
{
    lemma_walk(signature, cs, empty_image(), Seq::empty());
}

proof fn lemma_wf_replace(before: Seq<Chunk>, mid: Seq<Chunk>, after: Seq<Chunk>)
    requires
        all_well_formed(before + after),
        all_well_formed(mid),
    ensures
        all_well_formed(before + mid + after),
{
    let both = before + after;
    let all = before + mid + after;
    assert forall|i: int| 0 <= i < all.len() implies well_formed(#[trigger] all[i]) by {
        if i < before.len() {
            assert(all[i] == both[i]);
        } else if i < before.len() + mid.len() {
            assert(all[i] == mid[i - before.len()]);
        } else {
            assert(all[i] == both[i - mid.len()]);
        }
    }
}

proof fn lemma_bytes_replace(signature: Seq<u8>, before: Seq<Chunk>, mid: Seq<Chunk>, after: Seq<Chunk>)
    ensures
        png_bytes(signature, before + mid + after) == signature + chunks_bytes(before) + chunks_bytes(mid)
            + chunks_bytes(after),
{
    lemma_chunks_bytes_concat(before + mid, after);
    lemma_chunks_bytes_concat(before, mid);
    assert(png_bytes(signature, before + mid + after) =~= signature + chunks_bytes(before) + chunks_bytes(mid)
        + chunks_bytes(after));
}

/// Replacing chunks in the middle by chunks that read to the same result,
/// from every state, does not change what the whole sequence reads to.
proof fn lemma_apply_replace(before: Seq<Chunk>, m1: Seq<Chunk>, m2: Seq<Chunk>, after: Seq<Chunk>)
    requires
        forall|img: ImageView, idat: Seq<u8>| #[trigger] apply_chunks(m1, img, idat) == apply_chunks(m2, img, idat),
    ensures
        apply_chunks(before + m1 + after, empty_image(), Seq::empty()) == apply_chunks(
            before + m2 + after,
            empty_image(),
            Seq::empty(),
        ),
{
    lemma_apply_concat(before + m1, after, empty_image(), Seq::empty());
    lemma_apply_concat(before, m1, empty_image(), Seq::empty());
    lemma_apply_concat(before + m2, after, empty_image(), Seq::empty());
    lemma_apply_concat(before, m2, empty_image(), Seq::empty());
    if let Some((img, idat)) = apply_chunks(before, empty_image(), Seq::empty()) {
        assert(apply_chunks(m1, img, idat) == apply_chunks(m2, img, idat));
    }
}

/// Files whose chunks read to the same result decode to the same result.
proof fn lemma_same_chunks(b1: Seq<u8>, b2: Seq<u8>, curve: Seq<u8>)
    requires
        read_chunks(b1) == read_chunks(b2),
    ensures
        read_png(b1, curve) == read_png(b2, curve),
{
}

/// A chunk of a type that the decoder does not know is skipped by its
/// length: inserting one between two chunks of a well-formed file changes
/// nothing that the file decodes to.
pub proof fn skipped_chunk_changes_nothing(
    signature: Seq<u8>,
    before: Seq<Chunk>,
    extra: Chunk,
    after: Seq<Chunk>,
    curve: Seq<u8>,
)
    requires
        signature.len() == 8,
        all_well_formed(before + after),
        extra.body.len() <= u32::MAX,
        skipped_kind(extra.kind),
        png_bytes(signature, before + seq![extra] + after).len() <= usize::MAX,
    ensures
        read_png(png_bytes(signature, before + seq![extra] + after), curve) == read_png(
            png_bytes(signature, before + after),
            curve,
        ),
{
    let empty = Seq::<Chunk>::empty();
    assert(before + after =~= before + empty + after);
    assert(all_well_formed(seq![extra]));
    lemma_wf_replace(before, seq![extra], after);
    lemma_bytes_replace(signature, before, seq![extra], after);
    lemma_bytes_replace(signature, before, empty, after);
    assert(chunks_bytes(empty) =~= Seq::<u8>::empty());
    lemma_read_png_chunks(signature, before + seq![extra] + after);
    lemma_read_png_chunks(signature, before + empty + after);
    assert forall|img: ImageView, idat: Seq<u8>| #[trigger] apply_chunks(seq![extra], img, idat) == apply_chunks(
        empty,
        img,
        idat,
    ) by {
        assert(seq![extra].drop_first() =~= empty);
    }
    lemma_apply_replace(before, seq![extra], empty, after);
    lemma_same_chunks(
        png_bytes(signature, before + seq![extra] + after),
        png_bytes(signature, before + empty + after),
        curve,
    );
}

/// The three chunks of the split law: the two `IDAT` chunks and the one that
/// joins their bodies.
pub open spec fn idat_split(first: Seq<u8>, second: Seq<u8>, crcs: (u32, u32, u32)) -> (Seq<Chunk>, Seq<Chunk>) {
    (
        seq![Chunk { kind: IDAT, body: first, crc: crcs.0 }, Chunk { kind: IDAT, body: second, crc: crcs.1 }],
        seq![Chunk { kind: IDAT, body: first + second, crc: crcs.2 }],
    )
}

proof fn lemma_idat_reads(body: Seq<u8>, crc: u32, img: ImageView, idat: Seq<u8>)
    requires
        body.len() <= u32::MAX,
    ensures
        apply_chunks(seq![Chunk { kind: IDAT, body: body, crc: crc }], img, idat) == Some((img, idat + body)),
{
    let one = seq![Chunk { kind: IDAT, body: body, crc: crc }];
    lemma_apply_cons(one, img, idat);
    assert(body.subrange(0, body.len() as int) =~= body);
    assert(one.drop_first() =~= Seq::<Chunk>::empty());
}

proof fn lemma_idat_split_reads(first: Seq<u8>, second: Seq<u8>, crcs: (u32, u32, u32))
    requires
        first.len() + second.len() <= u32::MAX,
    ensures
        forall|img: ImageView, idat: Seq<u8>| #[trigger] apply_chunks(idat_split(first, second, crcs).0, img, idat)
            == apply_chunks(idat_split(first, second, crcs).1, img, idat),
{
    let (split, whole) = idat_split(first, second, crcs);
    assert forall|img: ImageView, idat: Seq<u8>| #[trigger] apply_chunks(split, img, idat) == apply_chunks(
        whole,
        img,
        idat,
    ) by {
        lemma_apply_cons(split, img, idat);
        assert(first.subrange(0, first.len() as int) =~= first);
        assert(split.drop_first() =~= seq![Chunk { kind: IDAT, body: second, crc: crcs.1 }]);
        lemma_idat_reads(second, crcs.1, img, idat + first);
        lemma_idat_reads(first + second, crcs.2, img, idat);
        assert(idat + first + second =~= idat + (first + second));
    }
}

proof fn lemma_idat_split_sizes(first: Seq<u8>, second: Seq<u8>, crcs: (u32, u32, u32))
    requires
        first.len() + second.len() <= u32::MAX,
    ensures
        all_well_formed(idat_split(first, second, crcs).0),
        all_well_formed(idat_split(first, second, crcs).1),
        chunks_bytes(idat_split(first, second, crcs).1).len() <= chunks_bytes(idat_split(first, second, crcs).0).len(),
{
    let (split, whole) = idat_split(first, second, crcs);
    assert(split.drop_first() =~= seq![split[1]]);
    assert(seq![split[1]].drop_first() =~= Seq::<Chunk>::empty());
    assert(whole.drop_first() =~= Seq::<Chunk>::empty());
    let empty = Seq::<Chunk>::empty();
    assert(chunks_bytes(empty) == Seq::<u8>::empty());
    assert(chunks_bytes(seq![split[1]]) == chunk_bytes(split[1]) + chunks_bytes(empty));
    assert(chunks_bytes(split) == chunk_bytes(split[0]) + chunks_bytes(seq![split[1]]));
    assert(chunks_bytes(whole) == chunk_bytes(whole[0]) + chunks_bytes(empty));
    assert(chunk_bytes(split[0]).len() == 12 + first.len());
    assert(chunk_bytes(split[1]).len() == 12 + second.len());
    assert(chunk_bytes(whole[0]).len() == 12 + first.len() + second.len());
    assert forall|i: int| 0 <= i < split.len() implies well_formed(#[trigger] split[i]) by {}
    assert forall|i: int| 0 <= i < whole.len() implies well_formed(#[trigger] whole[i]) by {}
}

/// Only the concatenation of the image data counts: splitting the body of an
/// `IDAT` chunk over two consecutive `IDAT` chunks changes nothing that a
/// well-formed file decodes to.
pub proof fn split_image_data_changes_nothing(
    signature: Seq<u8>,
    before: Seq<Chunk>,
    first: Seq<u8>,
    second: Seq<u8>,
    crcs: (u32, u32, u32),
    after: Seq<Chunk>,
    curve: Seq<u8>,
)
    requires
        signature.len() == 8,
        all_well_formed(before + after),
        first.len() + second.len() <= u32::MAX,
        png_bytes(signature, before + idat_split(first, second, crcs).0 + after).len() <= usize::MAX,
    ensures
        read_png(png_bytes(signature, before + idat_split(first, second, crcs).0 + after), curve) == read_png(
            png_bytes(signature, before + idat_split(first, second, crcs).1 + after),
            curve,
        ),
{
    let (split, whole) = idat_split(first, second, crcs);
    lemma_idat_split_sizes(first, second, crcs);
    lemma_wf_replace(before, split, after);
    lemma_wf_replace(before, whole, after);
    lemma_bytes_replace(signature, before, split, after);
    lemma_bytes_replace(signature, before, whole, after);
    lemma_read_png_chunks(signature, before + split + after);
    lemma_read_png_chunks(signature, before + whole + after);
    lemma_idat_split_reads(first, second, crcs);
    lemma_apply_replace(before, split, whole, after);
    lemma_same_chunks(
        png_bytes(signature, before + split + after),
        png_bytes(signature, before + whole + after),
        curve,
    );
}


/// A file of a header, a palette and a transparency chunk.
pub open spec fn palette_file(header: Seq<u8>, plte: Seq<u8>, trns: Seq<u8>, crcs: (u32, u32, u32)) -> Seq<Chunk> {
    seq![
        Chunk { kind: IHDR, body: header, crc: crcs.0 },
        Chunk { kind: PLTE, body: plte, crc: crcs.1 },
        Chunk { kind: TRNS, body: trns, crc: crcs.2 },
    ]
}

/// The transparency chunk gives the alphas of the first palette entries:
/// after a header, a palette of `n` three-byte entries and a transparency
/// chunk of `m <= n` bytes, the chunks read, the palette has `n` entries,
/// entry `t` has the colour bytes `3t, 3t + 1, 3t + 2` of the palette body,
/// and alpha byte `t` of the transparency body when `t < m`, 255 otherwise.
pub proof fn transparency_sets_palette_alphas(
    signature: Seq<u8>,
    header: Seq<u8>,
    plte: Seq<u8>,
    trns: Seq<u8>,
    crcs: (u32, u32, u32),
)
    requires
        signature.len() == 8,
        header.len() == 13,
        plte.len() % 3 == 0,
        plte.len() <= u32::MAX,
        trns.len() <= plte.len() / 3,
        png_bytes(signature, palette_file(header, plte, trns, crcs)).len() <= usize::MAX,
    ensures
        read_chunks(png_bytes(signature, palette_file(header, plte, trns, crcs))) is Some,
        ({
            let img = read_chunks(png_bytes(signature, palette_file(header, plte, trns, crcs))).unwrap().0;
            &&& img.colourPalette.len() == plte.len() / 3
            &&& forall|t: int|
                0 <= t < plte.len() / 3 ==> #[trigger] img.colourPalette[t] == (colourRGBA {
                    R: plte[3 * t],
                    G: plte[3 * t + 1],
                    B: plte[3 * t + 2],
                    A: if t < trns.len() { trns[t] } else { 255 },
                })
        }),
{
    let cs = palette_file(header, plte, trns, crcs);
    assert forall|i: int| 0 <= i < cs.len() implies well_formed(#[trigger] cs[i]) by {}
    lemma_read_png_chunks(signature, cs);
    let n = plte.len() / 3;
    let count = (plte.len() as u32 + 2) / 3;
    assert(count == n);
    let img0 = empty_image();
    lemma_apply_cons(cs, img0, Seq::empty());
    let (_, img1, d1) = chunk_body(header, 0, 13, IHDR, img0, Seq::empty()).unwrap();
    let cs1 = cs.drop_first();
    assert(cs1 =~= seq![cs[1], cs[2]]);
    lemma_apply_cons(cs1, img1, d1);
    assert(img1.colourPalette == Seq::<colourRGBA>::empty());
    let pal = palette_entries(plte, 0, count as int);
    assert(img1.colourPalette + pal =~= pal);
    let (_, img2, d2) = chunk_body(plte, 0, plte.len() as u32, PLTE, img1, d1).unwrap();
    assert(img2.colourPalette == pal);
    let cs2 = cs1.drop_first();
    assert(cs2 =~= seq![cs[2]]);
    lemma_apply_cons(cs2, img2, d2);
    assert(cs2.drop_first() =~= Seq::<Chunk>::empty());
    let (_, img3, d3) = chunk_body(trns, 0, trns.len() as u32, TRNS, img2, d2).unwrap();
    assert(img3.colourPalette == with_alphas(pal, trns, 0, trns.len() as int));
    assert(read_chunks(png_bytes(signature, cs)) == Some((img3, d3)));
}


/// The big-endian number in bytes `at..at + 4`, as an integer.
pub open spec fn be_int(bytes: Seq<u8>, at: int) -> int {
    bytes[at] * 16777216 + bytes[at + 1] * 65536 + bytes[at + 2] * 256 + bytes[at + 3]
}

/// A file of a header, a gamma and a colour space chunk.
pub open spec fn gamma_file(header: Seq<u8>, gama: Seq<u8>, srgb: Seq<u8>, crcs: (u32, u32, u32)) -> Seq<Chunk> {
    seq![
        Chunk { kind: IHDR, body: header, crc: crcs.0 },
        Chunk { kind: GAMA, body: gama, crc: crcs.1 },
        Chunk { kind: SRGB, body: srgb, crc: crcs.2 },
    ]
}

/// The header, gamma and colour space chunks give the image fields: width
/// and height are the big-endian numbers of header bytes 0 to 3 and 4 to 7,
/// bit depth, colour type and interlace method are header bytes 8, 9 and
/// 12; the gamma is the big-endian number of the gamma body and the colour
/// space the byte of its body; there is no palette and no image data.
pub proof fn header_chunks_give_fields(
    signature: Seq<u8>,
    header: Seq<u8>,
    gama: Seq<u8>,
    srgb: Seq<u8>,
    crcs: (u32, u32, u32),
)
    requires
        signature.len() == 8,
        header.len() == 13,
        gama.len() == 4,
        srgb.len() == 1,
        png_bytes(signature, gamma_file(header, gama, srgb, crcs)).len() <= usize::MAX,
    ensures
        read_chunks(png_bytes(signature, gamma_file(header, gama, srgb, crcs))) is Some,
        ({
            let (img, idat) = read_chunks(png_bytes(signature, gamma_file(header, gama, srgb, crcs))).unwrap();
            &&& img.width == be_int(header, 0)
            &&& img.height == be_int(header, 4)
            &&& img.depth == header[8]
            &&& img.colourType == header[9]
            &&& img.interlace == header[12]
            &&& img.gamma matches Some(g) && g == be_int(gama, 0)
            &&& img.colourSpace == srgb[0]
            &&& img.colourPalette.len() == 0
            &&& img.pixels.len() == 0
            &&& idat.len() == 0
        }),
{
    let cs = gamma_file(header, gama, srgb, crcs);
    assert forall|i: int| 0 <= i < cs.len() implies well_formed(#[trigger] cs[i]) by {}
    lemma_read_png_chunks(signature, cs);
    let img0 = empty_image();
    lemma_apply_cons(cs, img0, Seq::empty());
    let (_, img1, d1) = chunk_body(header, 0, 13, IHDR, img0, Seq::empty()).unwrap();
    let cs1 = cs.drop_first();
    assert(cs1 =~= seq![cs[1], cs[2]]);
    lemma_apply_cons(cs1, img1, d1);
    let (_, img2, d2) = chunk_body(gama, 0, 4, GAMA, img1, d1).unwrap();
    let cs2 = cs1.drop_first();
    assert(cs2 =~= seq![cs[2]]);
    lemma_apply_cons(cs2, img2, d2);
    assert(cs2.drop_first() =~= Seq::<Chunk>::empty());
    let (_, img3, d3) = chunk_body(srgb, 0, 1, SRGB, img2, d2).unwrap();
    assert(read_chunks(png_bytes(signature, cs)) == Some((img3, d3)));
}

} // verus!
