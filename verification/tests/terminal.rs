use png_term::image_decoding::image::colourRGBA;
use png_term::true_colour::makeColoured;

fn channel_by_floats(channel: u8, alpha: u8) -> u8 {
    let a = alpha as f32 / 255.0;
    (channel as f32 * a * (0.0 + a)) as u8
}

#[test]
fn opaque_pixel_keeps_its_colour() {
    let s = makeColoured("██", colourRGBA { R: 255, G: 128, B: 0, A: 255 });
    assert_eq!(s, "\x1b[38;2;255;128;0m██\x1b[0m");
}

#[test]
fn transparent_pixel_is_black() {
    let s = makeColoured("x", colourRGBA { R: 200, G: 100, B: 7, A: 0 });
    assert_eq!(s, "\x1b[38;2;0;0;0mx\x1b[0m");
}

#[test]
fn half_transparent_pixel_is_faded_twice() {
    // 200 * 128 * 128 / 65025 = 50.39..., 100 -> 25.19..., 9 -> 2.26...
    let s = makeColoured("ab", colourRGBA { R: 200, G: 100, B: 9, A: 128 });
    assert_eq!(s, "\x1b[38;2;50;25;2mab\x1b[0m");
}

#[test]
fn empty_text_is_only_the_escapes() {
    let s = makeColoured("", colourRGBA { R: 9, G: 10, B: 99, A: 255 });
    assert_eq!(s, "\x1b[38;2;9;10;99m\x1b[0m");
}

#[test]
fn fading_matches_float_arithmetic_everywhere() {
    for alpha in 0..=255u8 {
        for channel in 0..=255u8 {
            let expected = channel_by_floats(channel, alpha);
            let s = makeColoured("", colourRGBA { R: channel, G: 0, B: 255, A: alpha });
            let blue = channel_by_floats(255, alpha);
            assert_eq!(s, format!("\x1b[38;2;{};0;{}m\x1b[0m", expected, blue));
        }
    }
}
