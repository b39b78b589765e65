//! Colours written as `#RGB`, `#RRGGBB` or `#RRGGBBAA`, and the escape
//! sequences that give the terminal's cursor a colour.

use vstd::prelude::*;
use vstd::utf8::{encode_utf8, is_char_boundary};

use crate::text::{chars_of, string_of, trim, trimmed};

verus! {

/// The value of one hexadecimal digit.
pub open spec fn digit(b: u8) -> Option<int> {
    if 0x30 <= b <= 0x39 {
        Some(b - 0x30)
    } else if 0x41 <= b <= 0x46 {
        Some(b - 0x41 + 10)
    } else if 0x61 <= b <= 0x66 {
        Some(b - 0x61 + 10)
    } else {
        None
    }
}

/// The value of two bytes read as a hexadecimal number, which may begin with
/// a plus sign.
pub open spec fn pair(a: u8, b: u8) -> Option<int> {
    if a == 0x2b {
        digit(b)
    } else {
        match (digit(a), digit(b)) {
            (Some(high), Some(low)) => Some(16 * high + low),
            _ => None,
        }
    }
}

/// Red, green and blue, where all three are there.
pub open spec fn three(r: Option<int>, g: Option<int>, b: Option<int>) -> Option<(int, int, int)> {
    match (r, g, b) {
        (Some(r), Some(g), Some(b)) => Some((r, g, b)),
        _ => None,
    }
}

/// The colour that the digits behind a `#` stand for.
pub open spec fn digits_rgb(hex: Seq<u8>) -> Option<(int, int, int)> {
    if hex.len() == 3 {
        match three(digit(hex[0]), digit(hex[1]), digit(hex[2])) {
            Some((r, g, b)) => Some((17 * r, 17 * g, 17 * b)),
            None => None,
        }
    } else if hex.len() == 6 || hex.len() == 8 {
        three(pair(hex[0], hex[1]), pair(hex[2], hex[3]), pair(hex[4], hex[5]))
    } else {
        None
    }
}

/// The bytes behind the `#` of a colour, without the white space around it.
pub open spec fn digits_of(color: Seq<char>) -> Option<Seq<u8>> {
    let t = trimmed(color);
    if t.len() > 0 && t[0] == '#' {
        Some(encode_utf8(t.skip(1)))
    } else {
        None
    }
}

/// The colour that a text stands for.
pub open spec fn rgb_of(color: Seq<char>) -> Option<(int, int, int)> {
    match digits_of(color) {
        Some(hex) => digits_rgb(hex),
        None => None,
    }
}

/// Whether every component of the digits begins and ends between characters.
pub open spec fn cuts_at_characters(hex: Seq<u8>) -> bool {
    &&& hex.len() == 3 ==> is_char_boundary(hex, 1) && is_char_boundary(hex, 2)
    &&& hex.len() == 6 ==> is_char_boundary(hex, 2) && is_char_boundary(hex, 4)
    &&& hex.len() == 8 ==> is_char_boundary(hex, 2) && is_char_boundary(hex, 4)
        && is_char_boundary(hex, 6)
}

/// Whether every component up to the first one that is no number begins and
/// ends between characters.
pub open spec fn read_cuts_at_characters(hex: Seq<u8>) -> bool {
    &&& hex.len() == 3 ==> {
        &&& is_char_boundary(hex, 1)
        &&& digit(hex[0]) is Some ==> is_char_boundary(hex, 2)
    }
    &&& hex.len() == 6 || hex.len() == 8 ==> {
        &&& is_char_boundary(hex, 2)
        &&& pair(hex[0], hex[1]) is Some ==> is_char_boundary(hex, 4)
        &&& pair(hex[0], hex[1]) is Some && pair(hex[2], hex[3]) is Some
            ==> is_char_boundary(hex, 6)
    }
}

/// A colour whose components can all be cut out of its text.
pub open spec fn sliceable(color: Seq<char>) -> bool {
    digits_of(color) matches Some(hex) ==> cuts_at_characters(hex)
}

/// A colour whose components can be cut out of its text as far as they are
/// read.
pub open spec fn readable(color: Seq<char>) -> bool {
    digits_of(color) matches Some(hex) ==> read_cuts_at_characters(hex)
}

/// The value of one hexadecimal digit.
fn read_digit(b: u8) -> (r: Option<u8>)
    ensures
        match r {
            Some(v) => digit(b) == Some(v as int) && v < 16,
            None => digit(b) is None,
        },
{
    if 0x30 <= b && b <= 0x39 {
        Some(b - 0x30)
    } else if 0x41 <= b && b <= 0x46 {
        Some(b - 0x41 + 10)
    } else if 0x61 <= b && b <= 0x66 {
        Some(b - 0x61 + 10)
    } else {
        None
    }
}

/// The value of two bytes read as a hexadecimal number.
fn read_pair(a: u8, b: u8) -> (r: Option<u8>)
    ensures
        match r {
            Some(v) => pair(a, b) == Some(v as int),
            None => pair(a, b) is None,
        },
{
    if a == 0x2b {
        return read_digit(b);
    }
    match (read_digit(a), read_digit(b)) {
        (Some(high), Some(low)) => Some(16 * high + low),
        _ => None,
    }
}

/// The bytes behind the `#` of a colour.
fn read_digits(color: &str) -> (r: Option<String>)
    ensures
        match r {
            Some(hex) => digits_of(color@) == Some(encode_utf8(hex@)),
            None => digits_of(color@) is None,
        },
{
    let t = trim(color);
    let v = chars_of(t.as_str());
    if v.len() > 0 && v[0] == '#' {
        assert(v@.subrange(1, v@.len() as int) == v@.skip(1));
        Some(string_of(&v, 1, v.len()))
    } else {
        None
    }
}

/// The colour that a text stands for.
fn read_rgb(color: &str) -> (r: Option<(u8, u8, u8)>)
    ensures
        match r {
            Some((red, green, blue)) => rgb_of(color@) == Some(
                (red as int, green as int, blue as int),
            ),
            None => rgb_of(color@) is None,
        },
{
    let hex = match read_digits(color) {
        Some(hex) => hex,
        None => {
            return None;
        },
    };
    let bytes = hex.as_str().as_bytes();
    if bytes.len() == 3 {
        match (read_digit(bytes[0]), read_digit(bytes[1]), read_digit(bytes[2])) {
            (Some(r), Some(g), Some(b)) => Some((r * 17, g * 17, b * 17)),
            _ => None,
        }
    } else if bytes.len() == 6 || bytes.len() == 8 {
        match (
            read_pair(bytes[0], bytes[1]),
            read_pair(bytes[2], bytes[3]),
            read_pair(bytes[4], bytes[5]),
        ) {
            (Some(r), Some(g), Some(b)) => Some((r, g, b)),
            _ => None,
        }
    } else {
        None
    }
}

/// Whether `parse_color` takes a colour.
pub fn is_sliceable(color: &str) -> (r: bool)
    ensures
        r == sliceable(color@),
{
    match read_digits(color) {
        Some(hex) => {
            let hex = hex.as_str();
            let n = hex.as_bytes().len();
            if n == 3 {
                hex.is_char_boundary(1) && hex.is_char_boundary(2)
            } else if n == 6 {
                hex.is_char_boundary(2) && hex.is_char_boundary(4)
            } else if n == 8 {
                hex.is_char_boundary(2) && hex.is_char_boundary(4) && hex.is_char_boundary(6)
            } else {
                true
            }
        },
        None => true,
    }
}

/// Whether `parse_hex_color` takes a colour.
pub fn is_readable(color: &str) -> (r: bool)
    ensures
        r == readable(color@),
{
    match read_digits(color) {
        Some(hex) => {
            let hex = hex.as_str();
            let b = hex.as_bytes();
            let n = b.len();
            if n == 3 {
                hex.is_char_boundary(1) && (read_digit(b[0]).is_none() || hex.is_char_boundary(2))
            } else if n == 6 || n == 8 {
                let first = read_pair(b[0], b[1]).is_some();
                let second = read_pair(b[2], b[3]).is_some();
                hex.is_char_boundary(2) && (!first || hex.is_char_boundary(4)) && (!first || !second
                    || hex.is_char_boundary(6))
            } else {
                true
            }
        },
        None => true,
    }
}

/// A colour of the screen.
#[derive(Debug, Clone, Copy, PartialEq, Eq, Structural)]
pub enum Color {
    /// The terminal's own colour.
    Reset,
    /// Red, green and blue.
    Rgb(u8, u8, u8),
}

/// The colour that a theme's text stands for; any other text stands for the
/// terminal's own colour.
pub fn color_named(color: &str) -> (r: Color)
    requires
        sliceable(color@),
    ensures
        r == match rgb_of(color@) {
            Some((red, green, blue)) => Color::Rgb(red as u8, green as u8, blue as u8),
            None => Color::Reset,
        },
{
    match read_rgb(color) {
        Some((r, g, b)) => Color::Rgb(r, g, b),
        None => Color::Reset,
    }
}

/// Reads a colour as red, green and blue.
pub fn parse_hex_color(color: &str) -> (r: Option<(u8, u8, u8)>)
    requires
        readable(color@),
    ensures
        match r {
            Some((red, green, blue)) => rgb_of(color@) == Some(
                (red as int, green as int, blue as int),
            ),
            None => rgb_of(color@) is None,
        },
{
    read_rgb(color)
}

/// The lower-case hexadecimal digit for a value below 16.
pub open spec fn hex_char(v: int) -> char {
    if v < 10 {
        (0x30 + v) as char
    } else {
        (0x61 + v - 10) as char
    }
}

/// A byte as two lower-case hexadecimal digits.
pub open spec fn two_digits(v: int) -> Seq<char> {
    seq![hex_char(v / 16), hex_char(v % 16)]
}

/// The sequence that gives the cursor a colour.
pub open spec fn cursor_sequence(r: int, g: int, b: int) -> Seq<char> {
    "\x1b]12;rgb:"@ + two_digits(r) + "/"@ + two_digits(g) + "/"@ + two_digits(b) + "\x07"@
}

/// The lower-case hexadecimal digit for a value below 16.
fn write_digit(v: u8) -> (r: char)
    requires
        v < 16,
    ensures
        r == hex_char(v as int),
{
    if v < 10 {
        (0x30 + v) as char
    } else {
        (0x61 + (v - 10)) as char
    }
}

/// Appends a byte as two lower-case hexadecimal digits.
fn write_byte(s: &mut String, v: u8)
    ensures
        final(s)@ == old(s)@ + two_digits(v as int),
{
    s.push(write_digit(v / 16));
    s.push(write_digit(v % 16));
    assert(s@ =~= old(s)@ + two_digits(v as int));
}

/// What is sent to the terminal to give its cursor a colour, where the text
/// stands for one.
pub fn set_cursor_color(color_hex: &str) -> (r: Option<String>)
    requires
        readable(color_hex@),
    ensures
        match r {
            Some(s) => rgb_of(color_hex@) matches Some((red, green, blue)) && s@
                == cursor_sequence(red, green, blue),
            None => rgb_of(color_hex@) is None,
        },
{
    match parse_hex_color(color_hex) {
        Some((r, g, b)) => {
            let mut s = "\x1b]12;rgb:".to_owned();
            write_byte(&mut s, r);
            s.append("/");
            write_byte(&mut s, g);
            s.append("/");
            write_byte(&mut s, b);
            s.append("\x07");
            Some(s)
        },
        None => None,
    }
}

/// What is sent to the terminal to give its cursor its own colour back.
pub fn reset_cursor_color() -> (r: String)
    ensures
        r@ == "\x1b]112\x07"@,
{
    "\x1b]112\x07".to_owned()
}

/// What the first reading takes, the second takes, too.
pub proof fn sliceable_is_readable(color: Seq<char>)
    requires
        sliceable(color),
    ensures
        readable(color),
{
    if let Some(hex) = digits_of(color) {
        if hex.len() == 6 {
            vstd::utf8::encode_utf8_valid_utf8(trimmed(color).skip(1));
            vstd::utf8::is_char_boundary_start_end_of_seq(hex);
        }
    }
}

/// The digits of two bytes.
pub open spec fn digit_bytes(v: int) -> Seq<u8> {
    seq![hex_char(v / 16) as u8, hex_char(v % 16) as u8]
}

/// A lower-case digit stands for its value, as does its upper-case form.
proof fn lemma_digit(v: int)
    requires
        0 <= v < 16,
    ensures
        digit(hex_char(v) as u8) == Some(v),
        v >= 10 ==> digit((hex_char(v) as u8 - 32) as u8) == Some(v),
        hex_char(v) as u8 != 0x2b,
{
}

/// Six digits are read as the numbers that they write, two digits each, and two
/// more digits behind them change nothing.
pub proof fn six_digits_are_read_as_written(r: int, g: int, b: int, more: Seq<u8>)
    requires
        0 <= r < 256,
        0 <= g < 256,
        0 <= b < 256,
        more.len() == 2,
    ensures
        digits_rgb(digit_bytes(r) + digit_bytes(g) + digit_bytes(b)) == Some((r, g, b)),
        digits_rgb(digit_bytes(r) + digit_bytes(g) + digit_bytes(b) + more) == Some((r, g, b)),
{
    lemma_digit(r / 16);
    lemma_digit(r % 16);
    lemma_digit(g / 16);
    lemma_digit(g % 16);
    lemma_digit(b / 16);
    lemma_digit(b % 16);
}

/// Three digits are read as six, each one doubled.
pub proof fn three_digits_are_doubled(a: u8, b: u8, c: u8)
    ensures
        digits_rgb(seq![a, b, c]) == digits_rgb(seq![a, a, b, b, c, c]),
{
}

/// Only digits behind a `#` are a colour, and three, six or eight of them.
pub proof fn other_texts_are_no_colour(hex: Seq<u8>)
    requires
        digits_rgb(hex) is Some,
    ensures
        hex.len() == 3 || hex.len() == 6 || hex.len() == 8,
        ({
            let (r, g, b) = digits_rgb(hex)->0;
            0 <= r < 256 && 0 <= g < 256 && 0 <= b < 256
        }),
{
}

/// The terminal is told the colour with two digits for each of red, green and
/// blue, which are read as they were.
pub proof fn the_cursor_sequence_holds_the_colour(r: int, g: int, b: int)
    requires
        0 <= r < 256,
        0 <= g < 256,
        0 <= b < 256,
    ensures
        ({
            let s = cursor_sequence(r, g, b);
            let from = "\x1b]12;rgb:"@.len() as int;
            &&& s.len() == from + 9
            &&& s.take(from) == "\x1b]12;rgb:"@
            &&& pair(s[from] as u8, s[from + 1] as u8) == Some(r)
            &&& s[from + 2] == '/'
            &&& pair(s[from + 3] as u8, s[from + 4] as u8) == Some(g)
            &&& s[from + 5] == '/'
            &&& pair(s[from + 6] as u8, s[from + 7] as u8) == Some(b)
            &&& s[from + 8] == '\x07'
        }),
{
    reveal_strlit("\x1b]12;rgb:");
    reveal_strlit("/");
    reveal_strlit("\x07");
    lemma_digit(r / 16);
    lemma_digit(r % 16);
    lemma_digit(g / 16);
    lemma_digit(g % 16);
    lemma_digit(b / 16);
    lemma_digit(b % 16);
    let s = cursor_sequence(r, g, b);
    assert(s.take("\x1b]12;rgb:"@.len() as int) =~= "\x1b]12;rgb:"@);
}

/// A colour is a `#` and its digits, whatever white space stands around it; a
/// text that begins otherwise is none.
pub proof fn a_colour_begins_with_a_hash(color: Seq<char>, hex: Seq<char>)
    ensures
        trimmed(color) == seq!['#'] + hex ==> rgb_of(color) == digits_rgb(encode_utf8(hex)),
        trimmed(color).len() == 0 || trimmed(color)[0] != '#' ==> rgb_of(color) is None,
{
    if trimmed(color) == seq!['#'] + hex {
        assert(trimmed(color).skip(1) =~= hex);
    }
}

} // verus!
