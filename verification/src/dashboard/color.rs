//! Colors of lines.

use crate::text;
use vstd::prelude::*;
use vstd::slice::slice_subrange;

verus! {

/// A color as it is written: its parts, and how opaque it is where that is given.
#[derive(Clone, Copy, Debug, PartialEq, Eq, Structural)]
pub enum Color {
    Rgb { r: u8, g: u8, b: u8 },
    Rgba { r: u8, g: u8, b: u8, a: u8 },
}

/// The value of a hexadecimal digit.
pub open spec fn hex_digit(c: char) -> Option<u8> {
    if '0' <= c <= '9' {
        Some((c as u32 - '0' as u32) as u8)
    } else if 'A' <= c <= 'F' {
        Some((c as u32 - 'A' as u32 + 10) as u8)
    } else if 'a' <= c <= 'f' {
        Some((c as u32 - 'a' as u32 + 10) as u8)
    } else {
        None
    }
}

/// Every character is a hexadecimal digit.
pub open spec fn is_hex(s: Seq<char>) -> bool {
    forall|i: int| 0 <= i < s.len() ==> hex_digit(#[trigger] s[i]) is Some
}

/// The byte that the digits `2 * i` and `2 * i + 1` write.
pub open spec fn hex_byte(s: Seq<char>, i: int) -> u8 {
    (hex_digit(s[2 * i])->0 * 16 + hex_digit(s[2 * i + 1])->0) as u8
}

/// A color by its name.
pub open spec fn named(name: Seq<char>) -> Option<Color> {
    if name == "red"@ {
        Some(Color::Rgb { r: 229, g: 72, b: 72 })
    } else if name == "orange"@ {
        Some(Color::Rgb { r: 240, g: 150, b: 50 })
    } else if name == "yellow"@ {
        Some(Color::Rgb { r: 232, g: 200, b: 72 })
    } else if name == "green"@ {
        Some(Color::Rgb { r: 90, g: 200, b: 90 })
    } else if name == "blue"@ {
        Some(Color::Rgb { r: 96, g: 165, b: 250 })
    } else if name == "cyan"@ {
        Some(Color::Rgb { r: 70, g: 190, b: 200 })
    } else if name == "purple"@ {
        Some(Color::Rgb { r: 170, g: 110, b: 220 })
    } else if name == "magenta"@ {
        Some(Color::Rgb { r: 220, g: 90, b: 200 })
    } else if name == "gray"@ || name == "grey"@ {
        Some(Color::Rgb { r: 150, g: 150, b: 150 })
    } else if name == "white"@ {
        Some(Color::Rgb { r: 230, g: 230, b: 230 })
    } else {
        None
    }
}

/// The color that a text names: six or eight hexadecimal digits behind a hash sign, or one of
/// a few names in any case. Anything else names none.
pub open spec fn color_of(s: Seq<char>) -> Option<Color> {
    let t = text::trimmed(s);
    if t.len() > 0 && t[0] == '#' {
        let hex = t.skip(1);
        if hex.len() == 6 && is_hex(hex) {
            Some(Color::Rgb { r: hex_byte(hex, 0), g: hex_byte(hex, 1), b: hex_byte(hex, 2) })
        } else if hex.len() == 8 && is_hex(hex) {
            Some(
                Color::Rgba {
                    r: hex_byte(hex, 0),
                    g: hex_byte(hex, 1),
                    b: hex_byte(hex, 2),
                    a: hex_byte(hex, 3),
                },
            )
        } else {
            None
        }
    } else {
        named(text::ascii_lower(t))
    }
}

/// The value of a hexadecimal digit.
fn read_digit(c: char) -> (d: Option<u8>)
    ensures
        d == hex_digit(c),
        d is Some ==> d->0 < 16,
{
    if '0' <= c && c <= '9' {
        Some((c as u32 - '0' as u32) as u8)
    } else if 'A' <= c && c <= 'F' {
        Some((c as u32 - 'A' as u32 + 10) as u8)
    } else if 'a' <= c && c <= 'f' {
        Some((c as u32 - 'a' as u32 + 10) as u8)
    } else {
        None
    }
}

/// The bytes that an even number of hexadecimal digits write; none where a character is no
/// digit.
fn read_bytes(s: &[char]) -> (out: Option<Vec<u8>>)
    requires
        s@.len() % 2 == 0,
    ensures
        out is Some <==> is_hex(s@),
        out is Some ==> (out->0)@.len() == s@.len() / 2,
        out is Some ==> forall|i: int|
            0 <= i < s@.len() / 2 ==> #[trigger] (out->0)@[i] == hex_byte(s@, i),
{
    let mut out: Vec<u8> = Vec::new();
    let mut i: usize = 0;
    while i < s.len()
        invariant
            i <= s.len(),
            i % 2 == 0,
            s@.len() % 2 == 0,
            out@.len() == i / 2,
            forall|k: int| 0 <= k < i ==> hex_digit(#[trigger] s@[k]) is Some,
            forall|k: int| 0 <= k < i / 2 ==> #[trigger] out@[k] == hex_byte(s@, k),
        decreases s.len() - i,
    {
        match (read_digit(s[i]), read_digit(s[i + 1])) {
            (Some(h), Some(l)) => {
                out.push(h * 16 + l);
            },
            _ => {
                assert(hex_digit(s@[i as int]) is None || hex_digit(s@[i + 1]) is None);
                return None;
            },
        }
        i += 2;
    }
    Some(out)
}

/// A color by its name.
fn by_name(name: &str) -> (c: Option<Color>)
    ensures
        c == named(name@),
{
    if text::same_text(name, "red") {
        Some(Color::Rgb { r: 229, g: 72, b: 72 })
    } else if text::same_text(name, "orange") {
        Some(Color::Rgb { r: 240, g: 150, b: 50 })
    } else if text::same_text(name, "yellow") {
        Some(Color::Rgb { r: 232, g: 200, b: 72 })
    } else if text::same_text(name, "green") {
        Some(Color::Rgb { r: 90, g: 200, b: 90 })
    } else if text::same_text(name, "blue") {
        Some(Color::Rgb { r: 96, g: 165, b: 250 })
    } else if text::same_text(name, "cyan") {
        Some(Color::Rgb { r: 70, g: 190, b: 200 })
    } else if text::same_text(name, "purple") {
        Some(Color::Rgb { r: 170, g: 110, b: 220 })
    } else if text::same_text(name, "magenta") {
        Some(Color::Rgb { r: 220, g: 90, b: 200 })
    } else if text::same_text(name, "gray") || text::same_text(name, "grey") {
        Some(Color::Rgb { r: 150, g: 150, b: 150 })
    } else if text::same_text(name, "white") {
        Some(Color::Rgb { r: 230, g: 230, b: 230 })
    } else {
        None
    }
}

/// The color that a text writes.
pub fn written_color(s: &str) -> (c: Option<Color>)
    ensures
        c == color_of(s@),
{
    let chars = text::chars_of(s);
    let t = text::trim(chars.as_slice());
    if t.len() > 0 && t[0] == '#' {
        let hex = slice_subrange(t, 1, t.len());
        assert(hex@ =~= t@.skip(1));
        if hex.len() != 6 && hex.len() != 8 {
            return None;
        }
        match read_bytes(hex) {
            Some(b) => {
                if b.len() == 3 {
                    Some(Color::Rgb { r: b[0], g: b[1], b: b[2] })
                } else {
                    Some(Color::Rgba { r: b[0], g: b[1], b: b[2], a: b[3] })
                }
            },
            None => None,
        }
    } else {
        let lower = text::lower_chars(t);
        by_name(text::string_of(lower.as_slice()).as_str())
    }
}

/// A color as it is painted: its parts, dimmed by how transparent it is, and how opaque it is.
#[derive(Clone, Copy, Debug, PartialEq, Eq, Structural)]
pub struct Paint {
    pub r: u8,
    pub g: u8,
    pub b: u8,
    pub a: u8,
}

/// A part of at most ten as it is painted: dimmed in proportion, and rounded.
pub open spec fn dimmed(part: u8, a: u8) -> int {
    (2 * part * a + 255) / 510
}

/// A paint has the parts of a color as they are, where it is opaque, and none, where it is
/// wholly transparent. In between dark parts are dimmed in proportion, so that a part that the
/// color lacks stays out, and equal parts stay equal.
pub open spec fn paints(p: Paint, r: u8, g: u8, b: u8, a: u8) -> bool {
    &&& p.a == a
    &&& a == 255 ==> p == (Paint { r, g, b, a })
    &&& a == 0 ==> p == (Paint { r: 0, g: 0, b: 0, a: 0 })
    &&& r <= 10 ==> p.r == dimmed(r, a)
    &&& g <= 10 ==> p.g == dimmed(g, a)
    &&& b <= 10 ==> p.b == dimmed(b, a)
    &&& r == g ==> p.r == p.g
    &&& g == b ==> p.g == p.b
    &&& r == b ==> p.r == p.b
}

/// The paint of a color with the given parts and opacity.
///
/// Calls `egui::Color32::from_rgba_unmultiplied`, which keeps the opacity, gives an opaque
/// color its parts unchanged and a wholly transparent one the parts zero. In between it dims
/// each part alone, equal parts alike: a part of at most ten by the opacity, rounded to the
/// nearest whole number, a greater one by powers of floating-point numbers, which differ from
/// machine to machine in their last digits. The contract says no more of the greater parts.
#[verifier::external_body]
fn premultiplied(r: u8, g: u8, b: u8, a: u8) -> (p: Paint)
    ensures
        paints(p, r, g, b, a),
{
    let [r, g, b, a] = egui::Color32::from_rgba_unmultiplied(r, g, b, a).to_array();
    Paint { r, g, b, a }
}

/// A paint is that of a color.
pub open spec fn is_paint_of(p: Paint, c: Color) -> bool {
    match c {
        Color::Rgb { r, g, b } => p == (Paint { r, g, b, a: 255 }),
        Color::Rgba { r, g, b, a } => paints(p, r, g, b, a),
    }
}

/// The paint of a color. A color without an opacity is opaque.
pub fn paint(c: Color) -> (p: Paint)
    ensures
        is_paint_of(p, c),
{
    match c {
        Color::Rgb { r, g, b } => Paint { r, g, b, a: 255 },
        Color::Rgba { r, g, b, a } => premultiplied(r, g, b, a),
    }
}

/// The paint of the color that a text writes; none where it writes none, so that the chart
/// picks one.
pub fn parse_color(s: &str) -> (p: Option<Paint>)
    ensures
        p is Some <==> color_of(s@) is Some,
        p is Some ==> is_paint_of(p->0, color_of(s@)->0),
{
    match written_color(s) {
        Some(c) => Some(paint(c)),
        None => None,
    }
}

// == Laws of the colors =======================================================

/// There are sixteen digits, and the letters among them may be small or capital.
pub proof fn law_digits_stand_for_their_places(c: char, v: int)
    requires
        0 <= v < 16,
    ensures
        hex_digit("0123456789abcdef"@[v]) == Some(v as u8),
        hex_digit("0123456789ABCDEF"@[v]) == Some(v as u8),
        hex_digit(c) == Some(v as u8) ==> c == "0123456789abcdef"@[v] || c
            == "0123456789ABCDEF"@[v],
        hex_digit(c) matches Some(d) ==> d < 16,
{
    reveal_strlit("0123456789abcdef");
    reveal_strlit("0123456789ABCDEF");
}

/// Six digits behind a hash give the parts of an opaque color, two digits each.
pub proof fn law_six_digits_give_a_color(
    s: Seq<char>,
    c: Seq<char>,
    d: Seq<u8>,
)
    requires
        c.len() == 6,
        d.len() == 6,
        forall|i: int| 0 <= i < 6 ==> hex_digit(#[trigger] c[i]) == Some(d[i]),
        text::trimmed(s) == seq!['#'] + c,
    ensures
        color_of(s) == Some(
            Color::Rgb {
                r: (16 * d[0] + d[1]) as u8,
                g: (16 * d[2] + d[3]) as u8,
                b: (16 * d[4] + d[5]) as u8,
            },
        ),
{
    assert(text::trimmed(s).skip(1) =~= c);
    assert(hex_digit(c[0]) == Some(d[0]) && hex_digit(c[1]) == Some(d[1]));
    assert(hex_digit(c[2]) == Some(d[2]) && hex_digit(c[3]) == Some(d[3]));
    assert(hex_digit(c[4]) == Some(d[4]) && hex_digit(c[5]) == Some(d[5]));
    assert(is_hex(c));
}

/// Eight digits behind a hash give the parts of a color and how opaque it is.
pub proof fn law_eight_digits_give_a_sheer_color(
    s: Seq<char>,
    c: Seq<char>,
    d: Seq<u8>,
)
    requires
        c.len() == 8,
        d.len() == 8,
        forall|i: int| 0 <= i < 8 ==> hex_digit(#[trigger] c[i]) == Some(d[i]),
        text::trimmed(s) == seq!['#'] + c,
    ensures
        color_of(s) == Some(
            Color::Rgba {
                r: (16 * d[0] + d[1]) as u8,
                g: (16 * d[2] + d[3]) as u8,
                b: (16 * d[4] + d[5]) as u8,
                a: (16 * d[6] + d[7]) as u8,
            },
        ),
{
    assert(text::trimmed(s).skip(1) =~= c);
    assert(hex_digit(c[0]) == Some(d[0]) && hex_digit(c[1]) == Some(d[1]));
    assert(hex_digit(c[2]) == Some(d[2]) && hex_digit(c[3]) == Some(d[3]));
    assert(hex_digit(c[4]) == Some(d[4]) && hex_digit(c[5]) == Some(d[5]));
    assert(hex_digit(c[6]) == Some(d[6]) && hex_digit(c[7]) == Some(d[7]));
    assert(is_hex(c));
}

/// What follows a hash is a color exactly if it is six or eight digits.
pub proof fn law_hash_needs_six_or_eight_digits(s: Seq<char>, c: Seq<char>)
    requires
        text::trimmed(s) == seq!['#'] + c,
    ensures
        color_of(s) is Some <==> (c.len() == 6 || c.len() == 8) && forall|i: int|
            0 <= i < c.len() ==> hex_digit(#[trigger] c[i]) is Some,
{
    assert(text::trimmed(s).skip(1) =~= c);
}

/// A color by name does not depend on the case of the name or the space around it.
pub proof fn law_names_in_any_case(a: Seq<char>, b: Seq<char>)
    requires
        text::ascii_lower(text::trimmed(a)) == text::ascii_lower(text::trimmed(b)),
        !text::trimmed(a).contains('#'),
        !text::trimmed(b).contains('#'),
    ensures
        color_of(a) == color_of(b),
{
    let x = text::trimmed(a);
    let y = text::trimmed(b);
    assert(x.len() > 0 ==> x.contains(x[0]));
    assert(y.len() > 0 ==> y.contains(y[0]));
}

/// A part of a color is dimmed in proportion, rounded to the nearest.
pub proof fn law_dimming_is_proportional(part: u8, a: u8)
    ensures
        510 * dimmed(part, a) <= 2 * (part * a) + 255 < 510 * dimmed(part, a) + 510,
        dimmed(part, 255) == part,
        dimmed(part, 0) == 0,
{
    let n = 2 * part * a + 255;
    assert(2 * part * a == 2 * (part * a)) by (nonlinear_arith);
    assert(510 * (n / 510) <= n < 510 * (n / 510) + 510);
}

/// Eleven names stand for ten colors, and no other name for any.
pub proof fn law_names_stand_for_colors(name: Seq<char>)
    ensures
        name == "red"@ ==> named(name) == Some(Color::Rgb { r: 229, g: 72, b: 72 }),
        name == "orange"@ ==> named(name) == Some(Color::Rgb { r: 240, g: 150, b: 50 }),
        name == "yellow"@ ==> named(name) == Some(Color::Rgb { r: 232, g: 200, b: 72 }),
        name == "green"@ ==> named(name) == Some(Color::Rgb { r: 90, g: 200, b: 90 }),
        name == "blue"@ ==> named(name) == Some(Color::Rgb { r: 96, g: 165, b: 250 }),
        name == "cyan"@ ==> named(name) == Some(Color::Rgb { r: 70, g: 190, b: 200 }),
        name == "purple"@ ==> named(name) == Some(Color::Rgb { r: 170, g: 110, b: 220 }),
        name == "magenta"@ ==> named(name) == Some(Color::Rgb { r: 220, g: 90, b: 200 }),
        name == "gray"@ ==> named(name) == Some(Color::Rgb { r: 150, g: 150, b: 150 }),
        name == "grey"@ ==> named(name) == Some(Color::Rgb { r: 150, g: 150, b: 150 }),
        name == "white"@ ==> named(name) == Some(Color::Rgb { r: 230, g: 230, b: 230 }),
        named(name) is Some <==> name == "red"@
            || name == "orange"@
            || name == "yellow"@
            || name == "green"@
            || name == "blue"@
            || name == "cyan"@
            || name == "purple"@
            || name == "magenta"@
            || name == "gray"@
            || name == "grey"@
            || name == "white"@,
{
    reveal_strlit("red");
    reveal_strlit("orange");
    reveal_strlit("yellow");
    reveal_strlit("green");
    reveal_strlit("blue");
    reveal_strlit("cyan");
    reveal_strlit("purple");
    reveal_strlit("magenta");
    reveal_strlit("gray");
    reveal_strlit("grey");
    reveal_strlit("white");
    assert("blue"@[0] == 'b' && "cyan"@[0] == 'c' && "gray"@[0] == 'g' && "grey"@[0] == 'g');
    assert("green"@[0] == 'g' && "white"@[0] == 'w');
    assert("red"@.len() == 3 && "magenta"@.len() == 7);
    assert("blue"@.len() == 4 && "cyan"@.len() == 4 && "gray"@.len() == 4 && "grey"@.len() == 4);
    assert("green"@.len() == 5 && "white"@.len() == 5);
    assert("orange"@.len() == 6 && "yellow"@.len() == 6 && "purple"@.len() == 6);
    assert("orange"@[0] == 'o' && "yellow"@[0] == 'y' && "purple"@[0] == 'p');
}

} // verus!
