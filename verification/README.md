# png_term

Decodes PNG images into RGBA pixels and renders pixels as 24-bit coloured
terminal text. The library is verified with Verus; `app/` is the command-line
program around it.

- `src/image_decoding/image.rs`: pixels (`colourRGBA`) and images (`Image`).
- `src/image_decoding/png.rs`: the chunk walk, zlib decompression (flate2) and
  `readPNG`, with the specification `read_png` of what a file decodes to.
- `src/image_decoding/decode.rs`: rows of pixels for every colour type and
  bit depth, with the PNG filters (`decodeRows`, `paethFilter`).
- `src/image_decoding/interlace.rs`: Adam7 interlacing (`decodeImage`).
- `src/image_decoding/chunks.rs`: files as sequences of chunks; splitting
  image data over `IDAT` chunks, and inserting chunks the decoder skips,
  change nothing that a file decodes to.
- `src/image_decoding/laws.rs`: properties of decoded images (pixel counts,
  colours of greyscale and palette images, the role of the gamma curve, the
  Adam7 pass partition).
- `src/true_colour.rs`: `makeColoured`, the ANSI escape for a pixel.
- `src/media_type.rs`: PNG detection with file_type.

Gamma correction raises levels to a floating-point power; the program builds
the 256-entry curve (`app/gamma.rs`) and the decoder looks levels up in it.
