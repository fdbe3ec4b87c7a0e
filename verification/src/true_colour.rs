use vstd::prelude::*;

use crate::image_decoding::image::colourRGBA;

verus! {

/// A colour channel faded by the pixel's opacity, twice:
/// `floor(channel * alpha * alpha / 255^2)`.
pub open spec fn fade(channel: u8, alpha: u8) -> u8 {
    (channel * alpha * alpha / 65025) as u8
}

/// The character of the decimal digit `d`.
pub open spec fn digit_char(d: int) -> char {
    (48 + d) as char
}

/// The decimal numeral of `n`, without leading zeros.
pub open spec fn decimal(n: nat) -> Seq<char>
    decreases n,
{
    if n < 10 {
        seq![digit_char(n as int)]
    } else {
        decimal(n / 10) + seq![digit_char((n % 10) as int)]
    }
}

/// `text` in the 24-bit foreground colour `(r, g, b)`: the ANSI escape
/// `ESC[38;2;r;g;bm`, the text, and the reset `ESC[0m`.
pub open spec fn coloured(text: Seq<char>, r: u8, g: u8, b: u8) -> Seq<char> {
    seq!['\x1b', '[', '3', '8', ';', '2', ';'] + decimal(r as nat) + seq![';'] + decimal(g as nat) + seq![';']
        + decimal(b as nat) + seq!['m'] + text + seq!['\x1b', '[', '0', 'm']
}

fn digitStr(d: u8) -> (s: &'static str)
    requires
        d < 10,
    ensures
        s@ == seq![digit_char(d as int)],
{
    proof {
        reveal_strlit("0");
        reveal_strlit("1");
        reveal_strlit("2");
        reveal_strlit("3");
        reveal_strlit("4");
        reveal_strlit("5");
        reveal_strlit("6");
        reveal_strlit("7");
        reveal_strlit("8");
        reveal_strlit("9");
    }
    if d == 0 {
        "0"
    } else if d == 1 {
        "1"
    } else if d == 2 {
        "2"
    } else if d == 3 {
        "3"
    } else if d == 4 {
        "4"
    } else if d == 5 {
        "5"
    } else if d == 6 {
        "6"
    } else if d == 7 {
        "7"
    } else if d == 8 {
        "8"
    } else {
        "9"
    }
}

/// Appends the decimal numeral of `n` to `out`.
fn appendDecimal(out: &mut String, n: u8)
    ensures
        final(out)@ == old(out)@ + decimal(n as nat),
{
    if n >= 100 {
        out.append(digitStr(n / 100));
        out.append(digitStr(n / 10 % 10));
        out.append(digitStr(n % 10));
        assert(decimal((n / 100) as nat) == seq![digit_char((n / 100) as int)]);
        assert(decimal((n / 10) as nat) == decimal((n / 100) as nat) + seq![digit_char((n / 10 % 10) as int)]);
        assert(decimal(n as nat) == decimal((n / 10) as nat) + seq![digit_char((n % 10) as int)]);
    } else if n >= 10 {
        out.append(digitStr(n / 10));
        out.append(digitStr(n % 10));
        assert(decimal((n / 10) as nat) == seq![digit_char((n / 10) as int)]);
        assert(decimal(n as nat) == decimal((n / 10) as nat) + seq![digit_char((n % 10) as int)]);
    } else {
        out.append(digitStr(n));
    }
    assert(out@ =~= old(out)@ + decimal(n as nat));
}

/// `text` coloured in the terminal with the pixel's colour, each colour
/// channel faded by the pixel's opacity (an opaque pixel keeps its colour, a
/// transparent one becomes black).
pub fn makeColoured(text: &str, colour: colourRGBA) -> (res: String)
    ensures
        res@ == coloured(
            text@,
            fade(colour.R, colour.A),
            fade(colour.G, colour.A),
            fade(colour.B, colour.A),
        ),
{
    let a = colour.A as u32;
    assert(a * a <= 65025) by (nonlinear_arith)
        requires
            a <= 255,
    ;
    let aa = a * a;
    assert(colour.R as u32 * aa <= 255 * 65025) by (nonlinear_arith)
        requires
            aa <= 65025,
    ;
    assert(colour.G as u32 * aa <= 255 * 65025) by (nonlinear_arith)
        requires
            aa <= 65025,
    ;
    assert(colour.B as u32 * aa <= 255 * 65025) by (nonlinear_arith)
        requires
            aa <= 65025,
    ;
    let R = (colour.R as u32 * aa / 65025) as u8;
    let G = (colour.G as u32 * aa / 65025) as u8;
    let B = (colour.B as u32 * aa / 65025) as u8;
    proof {
        reveal_strlit("\x1b[38;2;");
        reveal_strlit(";");
        reveal_strlit("m");
        reveal_strlit("\x1b[0m");
        assert(colour.R as u32 * aa == colour.R * colour.A * colour.A) by (nonlinear_arith)
            requires
                aa == a * a,
                a == colour.A,
        ;
        assert(colour.G as u32 * aa == colour.G * colour.A * colour.A) by (nonlinear_arith)
            requires
                aa == a * a,
                a == colour.A,
        ;
        assert(colour.B as u32 * aa == colour.B * colour.A * colour.A) by (nonlinear_arith)
            requires
                aa == a * a,
                a == colour.A,
        ;
    }
    let mut out = String::new();
    out.append("\x1b[38;2;");
    appendDecimal(&mut out, R);
    out.append(";");
    appendDecimal(&mut out, G);
    out.append(";");
    appendDecimal(&mut out, B);
    out.append("m");
    out.append(text);
    out.append("\x1b[0m");
    assert(out@ =~= coloured(text@, R, G, B));
    out
}


/// Fading by opacity keeps the channel of an opaque pixel, blacks out a
/// transparent one, and never brightens a channel.
pub proof fn fade_laws(channel: u8, alpha: u8)
    ensures
        fade(channel, 255) == channel,
        fade(channel, 0) == 0,
        fade(channel, alpha) <= channel,
{
    assert(channel * alpha * alpha <= channel * 65025) by (nonlinear_arith)
        requires
            alpha <= 255,
    ;
    assert(channel * 255 * 255 == channel * 65025) by (nonlinear_arith);
    assert(channel * 0 * 0 == 0) by (nonlinear_arith);
}

} // verus!
