//! RGBA colors: hex parsing and formatting, opacity, contrast and darkening.
use vstd::prelude::*;

verus! {

/// RGBA representation of color.
#[derive(Debug, Clone, Copy, Hash, PartialEq, Eq, Structural)]
pub struct Color(pub u8, pub u8, pub u8, pub u8);

/// Whether `c` is an ASCII hexadecimal digit.
pub open spec fn is_hex_digit(c: char) -> bool {
    ('0' <= c && c <= '9') || ('a' <= c && c <= 'f') || ('A' <= c && c <= 'F')
}

/// The value of one hexadecimal digit.
pub open spec fn hex_val(c: char) -> int {
    if '0' <= c && c <= '9' {
        c as int - '0' as int
    } else if 'a' <= c && c <= 'f' {
        c as int - 'a' as int + 10
    } else {
        c as int - 'A' as int + 10
    }
}

/// Whether `s` is a well-formed hexadecimal string: even length, hex digits.
pub open spec fn is_hex_str(s: Seq<char>) -> bool {
    s.len() % 2 == 0 && forall|i: int| 0 <= i < s.len() ==> is_hex_digit(#[trigger] s[i])
}

/// The bytes a hexadecimal string denotes, two digits to a byte.
pub open spec fn hex_decoded(s: Seq<char>) -> Seq<u8>
    decreases s.len(),
{
    if s.len() < 2 {
        Seq::empty()
    } else {
        seq![(hex_val(s[0]) * 16 + hex_val(s[1])) as u8] + hex_decoded(s.skip(2))
    }
}

/// The uppercase hexadecimal digit for a value below sixteen.
pub open spec fn hex_digit_upper(v: int) -> char {
    if v == 0 { '0' } else if v == 1 { '1' } else if v == 2 { '2' } else if v == 3 { '3' }
    else if v == 4 { '4' } else if v == 5 { '5' } else if v == 6 { '6' } else if v == 7 { '7' }
    else if v == 8 { '8' } else if v == 9 { '9' } else if v == 10 { 'A' } else if v == 11 { 'B' }
    else if v == 12 { 'C' } else if v == 13 { 'D' } else if v == 14 { 'E' } else { 'F' }
}

/// The uppercase hexadecimal rendering of a byte sequence.
pub open spec fn hex_encoded_upper(b: Seq<u8>) -> Seq<char>
    decreases b.len(),
{
    if b.len() == 0 {
        Seq::empty()
    } else {
        seq![hex_digit_upper(b[0] as int / 16), hex_digit_upper(b[0] as int % 16)]
            + hex_encoded_upper(b.skip(1))
    }
}

/// Relies on hex::decode: it returns the bytes of an even-length string of
/// hexadecimal digits, two digits to a byte, and an error otherwise.
#[verifier::external_body]
fn hex_decode(s: &str) -> (r: Option<Vec<u8>>)
    ensures
        r is Some <==> is_hex_str(s@),
        r is Some ==> r->Some_0@ == hex_decoded(s@),
{
    match hex::decode(s) {
        Ok(v) => Some(v),
        Err(_) => None,
    }
}

/// Relies on hex::encode_upper: it renders each byte as two uppercase
/// hexadecimal digits, in order.
#[verifier::external_body]
fn hex_encode_upper(b: &Vec<u8>) -> (r: String)
    ensures
        r@ == hex_encoded_upper(b@),
{
    hex::encode_upper(b)
}

/// The input of [`Color::from_hex`] after an optional leading `#`.
pub open spec fn strip_hash(s: Seq<char>) -> Seq<char> {
    if s.len() > 0 && s[0] == '#' {
        s.skip(1)
    } else {
        s
    }
}

impl Color {
    /// Creates an RGBA color from a six-digit hex code and an alpha value.
    /// The code may carry a leading `#`; anything else is rejected.
    pub fn from_hex(color: &str, alpha: u8) -> (r: Result<Color, ColorError>)
        ensures
            r is Ok <==> (is_hex_str(strip_hash(color@)) && strip_hash(color@).len() == 6),
            r is Ok ==> {
                let b = hex_decoded(strip_hash(color@));
                r->Ok_0 == Color(b[0], b[1], b[2], alpha)
            },
    {
        let n = color.unicode_len();
        let stripped: &str = if n > 0 && color.get_char(0) == '#' {
            color.substring_char(1, n)
        } else {
            color
        };
        proof {
            assert(stripped@ =~= strip_hash(color@));
        }
        match hex_decode(stripped) {
            Some(bytes) => {
                if bytes.len() == 3 {
                    proof {
                        lemma_hex_decoded_len(stripped@);
                    }
                    Ok(Color(bytes[0], bytes[1], bytes[2], alpha))
                } else {
                    proof {
                        lemma_hex_decoded_len(stripped@);
                    }
                    Err(ColorError::NotSixHexDigits)
                }
            },
            None => Err(ColorError::NotSixHexDigits),
        }
    }

    /// Returns the RGB values as an uppercase hex string.
    pub fn hex(&self) -> (r: String)
        ensures
            r@ == hex_encoded_upper(seq![self.0, self.1, self.2]),
    {
        let mut bytes: Vec<u8> = Vec::new();
        bytes.push(self.0);
        bytes.push(self.1);
        bytes.push(self.2);
        proof {
            assert(bytes@ =~= seq![self.0, self.1, self.2]);
        }
        hex_encode_upper(&bytes)
    }

    /// Returns the opacity value.
    pub fn opacity(&self) -> (r: u8)
        ensures
            r == self.3,
    {
        self.3
    }

    /// Whether the color is bright enough to demand dark foreground content,
    /// by the standard luma weights taken at a scale of one thousand.
    pub fn is_high_contrast(c: Color) -> (r: bool)
        ensures
            r == (299 * c.0 as int + 587 * c.1 as int + 114 * c.2 as int > 128000),
    {
        299 * (c.0 as u32) + 587 * (c.1 as u32) + 114 * (c.2 as u32) > 128000
    }
}

/// The darkening of one channel: the channel scaled by a factor of
/// `factor / 256`, pushed away from the average by a fifth of its
/// distance, and clamped to the channel range.
pub open spec fn spec_darken_channel(ch: u8, factor: u32, avg: int) -> u8 {
    let dark = ch as int * factor as int / 256;
    let dark = if dark > 255 { 255int } else { dark };
    let boost = dark + crate::num::sdiv(dark - avg, 5);
    if boost < 0 {
        0u8
    } else if boost > 255 {
        255u8
    } else {
        boost as u8
    }
}

impl Color {
    /// Darken a color: each channel is scaled by `factor / 256` and then
    /// pushed a fifth further from the channels' average, saturating at
    /// the channel bounds; the alpha is kept.
    pub fn darken(c: Color, factor: u32) -> (r: Color)
        ensures
            ({
                let avg = (c.0 as int + c.1 as int + c.2 as int) / 3;
                r == Color(
                    spec_darken_channel(c.0, factor, avg),
                    spec_darken_channel(c.1, factor, avg),
                    spec_darken_channel(c.2, factor, avg),
                    c.3,
                )
            }),
    {
        let avg: u32 = (c.0 as u32 + c.1 as u32 + c.2 as u32) / 3;
        Color(
            darken_channel(c.0, factor, avg),
            darken_channel(c.1, factor, avg),
            darken_channel(c.2, factor, avg),
            c.3,
        )
    }
}

/// Executable channel darkening.
fn darken_channel(ch: u8, factor: u32, avg: u32) -> (r: u8)
    requires
        avg <= 255,
    ensures
        r == spec_darken_channel(ch, factor, avg as int),
{
    proof {
        vstd::arithmetic::mul::lemma_mul_nonnegative(ch as int, factor as int);
        vstd::arithmetic::mul::lemma_mul_upper_bound(
            ch as int, 255, factor as int, 0xFFFF_FFFF);
    }
    let scaled: u64 = (ch as u64) * (factor as u64) / 256;
    let dark: i64 = if scaled > 255 { 255 } else { scaled as i64 };
    let boost: i64 = dark + crate::num::div_trunc(dark - (avg as i64), 5);
    if boost < 0 {
        0
    } else if boost > 255 {
        255
    } else {
        boost as u8
    }
}

/// A failure to parse a color encoding.
#[derive(Debug, Clone, Copy, PartialEq, Eq, Structural)]
pub enum ColorError {
    /// The code was not six hexadecimal digits after an optional `#`.
    NotSixHexDigits,
}

/// A well-formed hexadecimal string of length `2 * n` decodes to `n` bytes.
proof fn lemma_hex_decoded_len(s: Seq<char>)
    ensures
        hex_decoded(s).len() == s.len() / 2,
    decreases s.len(),
{
    if s.len() >= 2 {
        lemma_hex_decoded_len(s.skip(2));
    }
}

} // verus!
