use vstd::prelude::*;
use vstd::string::StringSliceAdditionalSpecFns;
use vstd::utf8::is_char_boundary;

verus! {

/// A colour with an alpha channel, eight bits per channel.
#[derive(Debug, Clone, Copy, PartialEq, Eq, Structural)]
pub struct Rgba8 {
    pub r: u8,
    pub g: u8,
    pub b: u8,
    pub a: u8,
}

/// The value of a hexadecimal digit (either case), if `c` is one.
pub open spec fn hex_digit_value(c: u8) -> Option<int> {
    if 48 <= c <= 57 {
        Some(c - 48)
    } else if 97 <= c <= 102 {
        Some(c - 87)
    } else if 65 <= c <= 70 {
        Some(c - 55)
    } else {
        None
    }
}

/// The number that two bytes write in hexadecimal, as Rust reads a `u8` in
/// base 16: either two digits, or `+` and one digit.
pub open spec fn hex_pair_value(hi: u8, lo: u8) -> Option<int> {
    if hi == 43 {
        hex_digit_value(lo)
    } else {
        match (hex_digit_value(hi), hex_digit_value(lo)) {
            (Some(h), Some(l)) => Some(h * 16 + l),
            _ => None,
        }
    }
}

/// The colour that the text `#rrggbb` writes, opaque; `None` when one of
/// its three pairs is not a hexadecimal number.
pub open spec fn spec_color(bytes: Seq<u8>) -> Option<Rgba8> {
    match (hex_pair_value(bytes[1], bytes[2]), hex_pair_value(bytes[3], bytes[4]), hex_pair_value(
        bytes[5],
        bytes[6],
    )) {
        (Some(r), Some(g), Some(b)) => Some(Rgba8 { r: r as u8, g: g as u8, b: b as u8, a: 255 }),
        _ => None,
    }
}

fn hex_digit(c: u8) -> (r: Option<u8>)
    ensures
        r matches Some(v) ==> hex_digit_value(c) == Some(v as int),
        r is None ==> hex_digit_value(c) is None,
{
    if 48 <= c && c <= 57 {
        Some(c - 48)
    } else if 97 <= c && c <= 102 {
        Some(c - 87)
    } else if 65 <= c && c <= 70 {
        Some(c - 55)
    } else {
        None
    }
}

fn hex_pair(hi: u8, lo: u8) -> (r: Option<u8>)
    ensures
        r matches Some(v) ==> hex_pair_value(hi, lo) == Some(v as int),
        r is None ==> hex_pair_value(hi, lo) is None,
{
    if hi == 43 {
        return hex_digit(lo);
    }
    match (hex_digit(hi), hex_digit(lo)) {
        (Some(h), Some(l)) => Some(h * 16 + l),
        _ => None,
    }
}

/// Reads a colour written `#rrggbb` (the first byte is not looked at; each
/// pair is read as Rust reads a `u8` in base 16). The text must be long
/// enough and split between characters where the pairs are cut out.
pub fn color_hex2rgb(color: &str) -> (r: Option<Rgba8>)
    requires
        color.spec_bytes().len() >= 7,
        is_char_boundary(color.spec_bytes(), 1),
        is_char_boundary(color.spec_bytes(), 3),
        is_char_boundary(color.spec_bytes(), 5),
        is_char_boundary(color.spec_bytes(), 7),
    ensures
        r == spec_color(color.spec_bytes()),
{
    let bytes: &[u8] = color.as_bytes();
    let r: u8 = match hex_pair(bytes[1], bytes[2]) {
        Some(v) => v,
        None => {
            return None;
        },
    };
    let g: u8 = match hex_pair(bytes[3], bytes[4]) {
        Some(v) => v,
        None => {
            return None;
        },
    };
    let b: u8 = match hex_pair(bytes[5], bytes[6]) {
        Some(v) => v,
        None => {
            return None;
        },
    };
    Some(Rgba8 { r, g, b, a: 255 })
}

} // verus!
