//! Classification of single characters, the glyph shown for a control
//! byte, and the validity of code points.

use vstd::prelude::*;
use crate::mode::{Encoding, using_utf8};
use crate::decode::{Decoded, at, code_at, mbtowc, peek, starts_char, width_at};
use crate::navigate::{lemma_width_fits, well_formed};

verus! {

/// Whether the standard library's tables class `c` as a letter.
pub uninterp spec fn alphabetic(c: char) -> bool;

/// Whether the standard library's tables class `c` as a letter or a digit.
pub uninterp spec fn alphanumeric(c: char) -> bool;

/// Whether the standard library's tables class `c` as white space.
pub uninterp spec fn whitespace(c: char) -> bool;

/// The ASCII punctuation characters: the printable ASCII characters that
/// are neither letters, digits nor the space.
pub open spec fn ascii_punctuation(c: char) -> bool {
    let code = c as int;
    33 <= code <= 47 || 58 <= code <= 64 || 91 <= code <= 96 || 123 <= code <= 126
}

/// Wraps `char::is_alphabetic`; the contract names its result, which
/// depends on the character alone.
#[verifier::external_body]
fn char_is_alphabetic(c: char) -> (r: bool)
    ensures
        r == alphabetic(c),
{
    c.is_alphabetic()
}

/// Wraps `char::is_alphanumeric`; the contract names its result, which
/// depends on the character alone.
#[verifier::external_body]
fn char_is_alphanumeric(c: char) -> (r: bool)
    ensures
        r == alphanumeric(c),
{
    c.is_alphanumeric()
}

/// Wraps `char::is_whitespace`; the contract names its result, which
/// depends on the character alone.
#[verifier::external_body]
fn char_is_whitespace(c: char) -> (r: bool)
    ensures
        r == whitespace(c),
{
    c.is_whitespace()
}

/// Wraps `char::is_ascii_punctuation`; the contract claims the four ASCII
/// ranges that its documentation lists.
#[verifier::external_body]
fn char_is_ascii_punctuation(c: char) -> (r: bool)
    ensures
        r == ascii_punctuation(c),
{
    c.is_ascii_punctuation()
}

/// The character that starts at `p`.
pub open spec fn char_at(multibyte: bool, s: Seq<u8>, p: int) -> char {
    code_at(multibyte, s, p) as char
}

/// Whether `c` fits in a signed byte.
pub fn is_byte(c: i32) -> (r: bool)
    ensures
        r == (-128 <= c <= 127),
{
    -128 <= c && c <= 127
}

/// Whether `c` is an ASCII control code below the space.
pub fn is_ascii_cntrl_char(c: i32) -> (r: bool)
    ensures
        r == (0 <= c < 32),
{
    0 <= c && c < 32
}

/// Decodes the character that starts at `pos`.
pub fn first_char(mode: &Encoding, buf: &[u8], pos: usize) -> (c: char)
    requires
        starts_char(mode.is_multibyte(), buf@, pos as int),
    ensures
        c == char_at(mode.is_multibyte(), buf@, pos as int),
{
    match mbtowc(mode, buf, pos) {
        Decoded::Char { ch, len: _ } => ch,
        Decoded::Raw { byte: _ } => '\0',
    }
}

/// Whether the character that starts at `pos` is a letter.
pub fn is_alpha_mbchar(mode: &Encoding, buf: &[u8], pos: usize) -> (r: bool)
    requires
        starts_char(mode.is_multibyte(), buf@, pos as int),
    ensures
        r == alphabetic(char_at(mode.is_multibyte(), buf@, pos as int)),
{
    char_is_alphabetic(first_char(mode, buf, pos))
}

/// Whether the character that starts at `pos` is a letter or a digit.
pub fn is_alnum_mbchar(mode: &Encoding, buf: &[u8], pos: usize) -> (r: bool)
    requires
        starts_char(mode.is_multibyte(), buf@, pos as int),
    ensures
        r == alphanumeric(char_at(mode.is_multibyte(), buf@, pos as int)),
{
    char_is_alphanumeric(first_char(mode, buf, pos))
}

/// Whether the character that starts at `pos` is white space.
pub fn is_blank_mbchar(mode: &Encoding, buf: &[u8], pos: usize) -> (r: bool)
    requires
        starts_char(mode.is_multibyte(), buf@, pos as int),
    ensures
        r == whitespace(char_at(mode.is_multibyte(), buf@, pos as int)),
{
    char_is_whitespace(first_char(mode, buf, pos))
}

/// Whether the character that starts at `pos` is ASCII punctuation.
pub fn is_punct_mbchar(mode: &Encoding, buf: &[u8], pos: usize) -> (r: bool)
    requires
        starts_char(mode.is_multibyte(), buf@, pos as int),
    ensures
        r == ascii_punctuation(char_at(mode.is_multibyte(), buf@, pos as int)),
{
    char_is_ascii_punctuation(first_char(mode, buf, pos))
}

/// What counts as a control character at `p`. In both modes: a byte below
/// the space, and the delete byte. In multibyte text also the two-byte
/// form of a code from 0x80 to 0x9F, which is 0xC2 and then that code; in
/// single-byte text the bytes 0x80 to 0x9F themselves.
pub open spec fn control_at(multibyte: bool, s: Seq<u8>, p: int) -> bool {
    let first = at(s, p);
    let second = at(s, p + 1);
    if multibyte {
        first < 0x20 || first == 0x7F || (first == 0xC2 && 0x80 <= second < 0xA0)
    } else {
        first < 0x20 || first == 0x7F || 0x80 <= first < 0xA0
    }
}

/// Whether a control character starts at `pos`. Nothing is decoded, so
/// malformed bytes are no obstacle.
pub fn is_cntrl_mbchar(mode: &Encoding, buf: &[u8], pos: usize) -> (r: bool)
    ensures
        r == control_at(mode.is_multibyte(), buf@, pos as int),
{
    let first = peek(buf, pos, 0);
    if using_utf8(mode) {
        let second = peek(buf, pos, 1);
        first < 0x20 || first == 0x7F || (first == 0xC2 && 0x80 <= second && second < 0xA0)
    } else {
        first < 0x20 || first == 0x7F || (0x80 <= first && first < 0xA0)
    }
}

/// A number brought into the range of a signed byte by dropping what goes
/// beyond eight bits.
pub open spec fn wrapped(v: int) -> int {
    if v > 127 {
        v - 256
    } else {
        v
    }
}

/// The glyph that stands for the control byte `c` after a caret.
pub open spec fn control_glyph(c: int) -> int {
    if c == 127 {
        63
    } else if c == -97 {
        61
    } else if c < 0 {
        wrapped(c + 224)
    } else {
        wrapped(c + 64)
    }
}

/// The glyph shown for the control byte `c`: `?` for the delete byte, `=`
/// for the byte -97, `c + 224` for any other byte with the high bit set,
/// and `c + 64` for the rest.
pub fn control_rep(c: i8) -> (glyph: i8)
    ensures
        glyph == control_glyph(c as int),
{
    let wide: i16 = if c == 127 {
        63
    } else if c == -97 {
        61
    } else if c < 0 {
        c as i16 + 224
    } else {
        c as i16 + 64
    };
    if wide > 127 {
        (wide - 256) as i8
    } else {
        wide as i8
    }
}

/// The code points that may be entered: no surrogate halves, none of the
/// thirty-two noncharacters from 0xFDD0, and not the last two code points
/// of any plane.
pub open spec fn valid_code(code: u32) -> bool {
    code <= 0xD7FF || (0xE000 <= code && code <= 0xFDCF) || (0xFDF0 <= code && code <= 0xFFFD) || (
    0xFFFF < code && code <= 0x10FFFF && (code & 0xFFFF) <= 0xFFFD)
}

/// Whether `code` is a valid code point.
pub fn is_valid_unicode(code: u32) -> (r: bool)
    ensures
        r == valid_code(code),
{
    code <= 0xD7FF || (0xE000 <= code && code <= 0xFDCF) || (0xFDF0 <= code && code <= 0xFFFD) || (
    0xFFFF < code && code <= 0x10FFFF && (code & 0xFFFF) <= 0xFFFD)
}

/// A valid code point is a scalar value, so a character exists for it.
pub proof fn law_valid_code_is_scalar(code: u32)
    requires
        valid_code(code),
    ensures
        crate::decode::is_scalar(code as int),
{
}

/// Whether something other than blanks stands between `p` and the
/// terminator, a blank being white space or a carriage return.
pub open spec fn past_blanks(multibyte: bool, s: Seq<u8>, p: int) -> bool
    decreases s.len() - p,
{
    if at(s, p) == 0 {
        false
    } else if whitespace(char_at(multibyte, s, p)) || at(s, p) == 13 {
        past_blanks(multibyte, s, p + width_at(multibyte, s, p))
    } else {
        true
    }
}

/// Skips the blanks at the start of the buffer and tells whether anything
/// comes after them: `false` for a buffer that is empty or all blanks.
pub fn white_string(mode: &Encoding, buf: &[u8]) -> (r: bool)
    requires
        well_formed(mode.is_multibyte(), buf@, 0),
    ensures
        r == past_blanks(mode.is_multibyte(), buf@, 0),
{
    let mut pos: usize = 0;
    loop
        invariant
            well_formed(mode.is_multibyte(), buf@, pos as int),
            past_blanks(mode.is_multibyte(), buf@, pos as int) == past_blanks(
                mode.is_multibyte(),
                buf@,
                0,
            ),
        decreases buf.len() - pos,
    {
        let first = peek(buf, pos, 0);
        if first == 0 {
            return false;
        }
        proof {
            lemma_width_fits(mode.is_multibyte(), buf@, pos as int);
        }
        if !(is_blank_mbchar(mode, buf, pos) || first == 13) {
            return true;
        }
        pos = pos + crate::navigate::char_length(mode, buf, pos);
    }
}

} // verus!
