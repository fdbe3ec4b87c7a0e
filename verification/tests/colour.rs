use png_term::image_decoding::decode::paethFilter;
use png_term::image_decoding::image::{colourRGBA, Image};

#[test]
fn default_colour_is_opaque_black() {
    let c = colourRGBA::default();
    assert_eq!(c, colourRGBA { R: 0, G: 0, B: 0, A: 255 });
}

#[test]
fn map_applies_to_colour_channels_only() {
    let c = colourRGBA { R: 10, G: 20, B: 30, A: 40 };
    let m = c.map(|v| v.wrapping_mul(2));
    assert_eq!(m, colourRGBA { R: 20, G: 40, B: 60, A: 40 });
    let same = c.map(|v| v);
    assert_eq!(same, c);
}

#[test]
fn greyscale_keeps_alpha() {
    let c = colourRGBA { R: 1, G: 2, B: 3, A: 77 };
    assert_eq!(c.greyscale(200), colourRGBA { R: 200, G: 200, B: 200, A: 77 });
}

#[test]
fn default_image_is_empty() {
    let img = Image::default();
    assert!(img.pixels.is_empty());
    assert!(img.colourPalette.is_empty());
    assert_eq!((img.width, img.height, img.depth, img.colourType), (0, 0, 0, 0));
    assert_eq!((img.colourSpace, img.interlace), (0, 0));
    assert_eq!(img.gamma, None);
}

#[test]
fn paeth_picks_the_nearest_neighbour() {
    // p = 10 + 20 - 5 = 25: |25-10| = 15, |25-20| = 5, |25-5| = 20
    assert_eq!(paethFilter(10, 20, 5), 20);
    // p = 20 + 10 - 5 = 25: left is farther than above
    assert_eq!(paethFilter(20, 10, 5), 20);
    // p = 100 + 100 - 100 = 100: ties go to the left
    assert_eq!(paethFilter(100, 100, 100), 100);
    // p = 0 + 0 - 255 = -255: c = 255 is farthest, a wins the tie with b
    assert_eq!(paethFilter(0, 0, 255), 0);
    // p = 50 + 200 - 60 = 190: nearest is b = 200
    assert_eq!(paethFilter(50, 200, 60), 200);
    // p = 200 + 50 - 210 = 40: nearest is b = 50
    assert_eq!(paethFilter(200, 50, 210), 50);
    // p = 10 + 10 - 9 = 11: a and b tie at 1, a wins
    assert_eq!(paethFilter(10, 10, 9), 10);
    // p = 0 + 100 - 50 = 50: c is exact
    assert_eq!(paethFilter(0, 100, 50), 50);
}

#[test]
fn paeth_result_is_a_neighbour_for_all_inputs() {
    for a in (0..=255u16).step_by(15) {
        for b in (0..=255u16).step_by(17) {
            for c in (0..=255u16).step_by(5) {
                let (a, b, c) = (a as u8, b as u8, c as u8);
                let r = paethFilter(a, b, c);
                assert!(r == a || r == b || r == c);
                let p = a as i32 + b as i32 - c as i32;
                let d = |x: u8| (p - x as i32).abs();
                assert!(d(r) <= d(a) && d(r) <= d(b) && d(r) <= d(c));
            }
        }
    }
}
