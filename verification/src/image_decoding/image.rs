use vstd::prelude::*;

verus! {

/// A pixel: red, green, blue and alpha channels of eight bits each.
#[derive(Debug, Clone, Copy, PartialEq, Eq, Structural)]
pub struct colourRGBA {
    pub R: u8,
    pub G: u8,
    pub B: u8,
    pub A: u8,
}

/// Opaque black, the colour that every pixel starts from.
pub open spec fn opaque_black() -> colourRGBA {
    colourRGBA { R: 0, G: 0, B: 0, A: 255 }
}

impl Default for colourRGBA {
    fn default() -> (res: Self)
        ensures
            res == opaque_black(),
    {
        colourRGBA { R: 0, G: 0, B: 0, A: 255 }
    }
}

impl colourRGBA {
    /// Applies `f` to the three colour channels; the alpha channel is kept.
    pub fn map<F: Fn(u8) -> u8>(&self, f: F) -> (res: colourRGBA)
        requires
            f.requires((self.R,)),
            f.requires((self.G,)),
            f.requires((self.B,)),
        ensures
            f.ensures((self.R,), res.R),
            f.ensures((self.G,), res.G),
            f.ensures((self.B,), res.B),
            res.A == self.A,
    {
        colourRGBA { R: f(self.R), G: f(self.G), B: f(self.B), A: self.A }
    }

    /// The grey of level `f` with the alpha channel of `self`.
    pub fn greyscale(&self, f: u8) -> (res: colourRGBA)
        ensures
            res == (colourRGBA { R: f, G: f, B: f, A: self.A }),
    {
        colourRGBA { R: f, G: f, B: f, A: self.A }
    }
}

/// A decoded image together with the header fields and ancillary data that
/// the decoder read from the file.
#[derive(Debug)]
pub struct Image {
    /// The pixels, row by row from the top left.
    pub pixels: Vec<colourRGBA>,
    pub width: u32,
    pub height: u32,
    /// Bits per sample.
    pub depth: u8,
    /// The raw value of the `gAMA` chunk (the gamma times 100000), if the
    /// file has one.
    pub gamma: Option<u32>,
    pub colourType: u8,
    pub colourSpace: u8,
    /// 1 for Adam7 interlacing.
    pub interlace: u8,
    pub colourPalette: Vec<colourRGBA>,
}

/// The mathematical content of an [`Image`].
pub struct ImageView {
    pub pixels: Seq<colourRGBA>,
    pub width: u32,
    pub height: u32,
    pub depth: u8,
    pub gamma: Option<u32>,
    pub colourType: u8,
    pub colourSpace: u8,
    pub interlace: u8,
    pub colourPalette: Seq<colourRGBA>,
}

impl View for Image {
    type V = ImageView;

    open spec fn view(&self) -> ImageView {
        ImageView {
            pixels: self.pixels@,
            width: self.width,
            height: self.height,
            depth: self.depth,
            gamma: self.gamma,
            colourType: self.colourType,
            colourSpace: self.colourSpace,
            interlace: self.interlace,
            colourPalette: self.colourPalette@,
        }
    }
}

/// The empty image: no pixels, no palette, every header field zero and no
/// gamma.
pub open spec fn empty_image() -> ImageView {
    ImageView {
        pixels: Seq::empty(),
        width: 0,
        height: 0,
        depth: 0,
        gamma: None,
        colourType: 0,
        colourSpace: 0,
        interlace: 0,
        colourPalette: Seq::empty(),
    }
}

impl Default for Image {
    fn default() -> (res: Self)
        ensures
            res@ == empty_image(),
    {
        Image {
            pixels: Vec::new(),
            width: 0,
            height: 0,
            depth: 0,
            gamma: None,
            colourType: 0,
            colourSpace: 0,
            interlace: 0,
            colourPalette: Vec::new(),
        }
    }
}

} // verus!
