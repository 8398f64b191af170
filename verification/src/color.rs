//! Colors of four 8-bit channels, written as hex digits.

use vstd::prelude::*;
use vstd::string::StringSliceAdditionalSpecFns;

verus! {

/// A color with red, green, blue and alpha channels.
#[derive(Debug, Clone, Copy, PartialEq, Eq, Structural)]
pub struct Color {
    pub r: u8,
    pub g: u8,
    pub b: u8,
    pub a: u8,
}

/// The value of one hex digit, written as a digit or as a capital letter
/// from A to F.
pub open spec fn digit_value(hex: u8) -> Option<u8> {
    if 48 <= hex <= 57 {
        Some((hex - 48) as u8)
    } else if 65 <= hex <= 70 {
        Some((hex - 55) as u8)
    } else {
        None
    }
}

/// Whether every byte is a hex digit.
pub open spec fn all_digits(bytes: Seq<u8>) -> bool {
    forall|i: int| 0 <= i < bytes.len() ==> digit_value(#[trigger] bytes[i]) is Some
}

/// The value of the two hex digits at `at` and after it.
pub open spec fn pair_value(bytes: Seq<u8>, at: int) -> u8 {
    (digit_value(bytes[at]).unwrap() * 16 + digit_value(bytes[at + 1]).unwrap()) as u8
}

/// The color that a string of hex digits stands for.
///
/// Six digits give red, green and blue, two digits each, and eight give
/// alpha as well. Three or four digits give one digit for each channel,
/// taken as the channel's value. Without digits for it, alpha is 255.
/// Every other string stands for no color.
pub open spec fn parsed(bytes: Seq<u8>) -> Option<Color> {
    if !all_digits(bytes) {
        None
    } else if bytes.len() == 3 {
        Some(
            Color {
                r: digit_value(bytes[0]).unwrap(),
                g: digit_value(bytes[1]).unwrap(),
                b: digit_value(bytes[2]).unwrap(),
                a: 255,
            },
        )
    } else if bytes.len() == 4 {
        Some(
            Color {
                r: digit_value(bytes[0]).unwrap(),
                g: digit_value(bytes[1]).unwrap(),
                b: digit_value(bytes[2]).unwrap(),
                a: digit_value(bytes[3]).unwrap(),
            },
        )
    } else if bytes.len() == 6 {
        Some(
            Color {
                r: pair_value(bytes, 0),
                g: pair_value(bytes, 2),
                b: pair_value(bytes, 4),
                a: 255,
            },
        )
    } else if bytes.len() == 8 {
        Some(
            Color {
                r: pair_value(bytes, 0),
                g: pair_value(bytes, 2),
                b: pair_value(bytes, 4),
                a: pair_value(bytes, 6),
            },
        )
    } else {
        None
    }
}

/// The value of one hex digit, or `None` for any other byte.
fn hex_to_byte(hex: u8) -> (value: Option<u8>)
    ensures
        value == digit_value(hex),
        value is Some ==> value.unwrap() < 16,
{
    if 48 <= hex && hex <= 57 {
        Some(hex - 48)
    } else if 65 <= hex && hex <= 70 {
        Some(hex - 55)
    } else {
        None
    }
}

/// The value of the two hex digits at `at` and after it, or `None` if one
/// of the two bytes is no digit.
fn hex_pair(bytes: &[u8], at: usize) -> (value: Option<u8>)
    requires
        at + 1 < bytes@.len(),
    ensures
        value is Some <==> digit_value(bytes@[at as int]) is Some && digit_value(
            bytes@[at + 1],
        ) is Some,
        value is Some ==> value.unwrap() == pair_value(bytes@, at as int),
{
    match (hex_to_byte(bytes[at]), hex_to_byte(bytes[at + 1])) {
        (Some(high), Some(low)) => Some(high * 16 + low),
        _ => None,
    }
}

impl Color {
    /// The color with the given channels.
    pub fn new(r: u8, g: u8, b: u8, a: u8) -> (color: Self)
        ensures
            color == (Color { r, g, b, a }),
    {
        Color { r, g, b, a }
    }

    /// The color that `str` stands for, which is a string of three, four,
    /// six or eight hex digits.
    pub fn hex_panic(str: &str) -> (color: Self)
        requires
            parsed(str.spec_bytes()) is Some,
        ensures
            Some(color) == parsed(str.spec_bytes()),
    {
        match Self::hex(str) {
            Some(color) => color,
            None => Color { r: 0, g: 0, b: 0, a: 0 },
        }
    }

    /// The color that `str` stands for, or `None` if it is not a string of
    /// three, four, six or eight hex digits.
    pub fn hex(str: &str) -> (color: Option<Self>)
        ensures
            color == parsed(str.spec_bytes()),
    {
        let bytes = str.as_bytes();
        let count: usize = bytes.len();
        if count == 3 || count == 4 {
            let alpha: Option<u8> = if count == 4 {
                hex_to_byte(bytes[3])
            } else {
                Some(255)
            };
            match (hex_to_byte(bytes[0]), hex_to_byte(bytes[1]), hex_to_byte(bytes[2]), alpha) {
                (Some(r), Some(g), Some(b), Some(a)) => Some(Color { r, g, b, a }),
                _ => None,
            }
        } else if count == 6 || count == 8 {
            let alpha: Option<u8> = if count == 8 {
                hex_pair(bytes, 6)
            } else {
                Some(255)
            };
            match (hex_pair(bytes, 0), hex_pair(bytes, 2), hex_pair(bytes, 4), alpha) {
                (Some(r), Some(g), Some(b), Some(a)) => Some(Color { r, g, b, a }),
                _ => None,
            }
        } else {
            None
        }
    }
}

} // verus!
