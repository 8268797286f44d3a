//! Decoding of the character that starts at a position of a buffer.

use vstd::prelude::*;
use crate::mode::{Encoding, using_utf8};

verus! {

/// The byte at offset `i`, with every offset outside the buffer reading as
/// the terminator.
pub open spec fn at(s: Seq<u8>, i: int) -> u8 {
    if 0 <= i < s.len() {
        s[i]
    } else {
        0
    }
}

/// A byte that can only stand inside a multibyte character, never at its start.
pub open spec fn is_continuation(b: u8) -> bool {
    0x80 <= b <= 0xBF
}

/// Whether `code` is a Unicode scalar value.
pub open spec fn is_scalar(code: int) -> bool {
    0 <= code <= 0xD7FF || 0xE000 <= code <= 0x10FFFF
}

/// The number of bytes that the multibyte encoding spends on `code`.
pub open spec fn code_width(code: int) -> int {
    if code < 0x80 {
        1
    } else if code < 0x800 {
        2
    } else if code < 0x10000 {
        3
    } else {
        4
    }
}

/// The value carried by a two-byte sequence.
pub open spec fn join2(b0: u8, b1: u8) -> int {
    (b0 - 0xC0) * 64 + (b1 - 0x80)
}

/// The value carried by a three-byte sequence.
pub open spec fn join3(b0: u8, b1: u8, b2: u8) -> int {
    (b0 - 0xE0) * 4096 + (b1 - 0x80) * 64 + (b2 - 0x80)
}

/// The value carried by a four-byte sequence.
pub open spec fn join4(b0: u8, b1: u8, b2: u8, b3: u8) -> int {
    (b0 - 0xF0) * 262144 + (b1 - 0x80) * 4096 + (b2 - 0x80) * 64 + (b3 - 0x80)
}

/// The code point of the multibyte character that starts at `p`, or `-1`
/// where the bytes there are no shortest-form encoding of a scalar value.
pub open spec fn multibyte_code(s: Seq<u8>, p: int) -> int {
    let b0 = at(s, p);
    let b1 = at(s, p + 1);
    let b2 = at(s, p + 2);
    let b3 = at(s, p + 3);
    if b0 < 0x80 {
        b0 as int
    } else if 0xC2 <= b0 <= 0xDF {
        if is_continuation(b1) {
            join2(b0, b1)
        } else {
            -1
        }
    } else if 0xE0 <= b0 <= 0xEF {
        if is_continuation(b1) && is_continuation(b2) && join3(b0, b1, b2) >= 0x800
            && is_scalar(join3(b0, b1, b2)) {
            join3(b0, b1, b2)
        } else {
            -1
        }
    } else if 0xF0 <= b0 <= 0xF4 {
        if is_continuation(b1) && is_continuation(b2) && is_continuation(b3)
            && 0x10000 <= join4(b0, b1, b2, b3) <= 0x10FFFF {
            join4(b0, b1, b2, b3)
        } else {
            -1
        }
    } else {
        -1
    }
}

/// The code point of the character at `p`, or `-1` where none decodes. In
/// single-byte text every byte is its own code point.
pub open spec fn code_at(multibyte: bool, s: Seq<u8>, p: int) -> int {
    if multibyte {
        multibyte_code(s, p)
    } else {
        at(s, p) as int
    }
}

/// Whether a character decodes at `p`.
pub open spec fn decodes(multibyte: bool, s: Seq<u8>, p: int) -> bool {
    code_at(multibyte, s, p) >= 0
}

/// The bytes that the unit at `p` takes: the width of its character, and one
/// byte where nothing decodes.
pub open spec fn width_at(multibyte: bool, s: Seq<u8>, p: int) -> int {
    if multibyte && decodes(multibyte, s, p) {
        code_width(code_at(multibyte, s, p))
    } else {
        1
    }
}

/// Whether a character starts at `p`, before the terminator.
pub open spec fn starts_char(multibyte: bool, s: Seq<u8>, p: int) -> bool {
    at(s, p) != 0 && decodes(multibyte, s, p)
}

/// What decoding at a position gives: a character with its byte length, or
/// the raw byte where the sequence is malformed.
#[derive(Clone, Copy, Debug, PartialEq, Eq)]
pub enum Decoded {
    Char { ch: char, len: usize },
    Raw { byte: u8 },
}

impl Decoded {
    /// Whether this is the outcome of decoding `s` at `p`.
    pub open spec fn outcome_of(self, multibyte: bool, s: Seq<u8>, p: int) -> bool {
        match self {
            Decoded::Char { ch, len } => decodes(multibyte, s, p) && ch as int == code_at(
                multibyte,
                s,
                p,
            ) && len as int == width_at(multibyte, s, p),
            Decoded::Raw { byte } => !decodes(multibyte, s, p) && byte == at(s, p),
        }
    }

    /// The bytes that the unit takes: a raw byte is one unit of one byte.
    pub open spec fn unit_width(self) -> int {
        match self {
            Decoded::Char { ch: _, len } => len as int,
            Decoded::Raw { byte: _ } => 1,
        }
    }

    /// The bytes to step over this unit.
    pub fn width(&self) -> (n: usize)
        ensures
            n == self.unit_width(),
    {
        match self {
            Decoded::Char { ch: _, len } => *len,
            Decoded::Raw { byte: _ } => 1,
        }
    }
}

/// Wraps `char::from_u32`, which gives the character of a scalar value; the
/// contract claims that the character's number is the one handed in.
#[verifier::external_body]
fn scalar_to_char(code: u32) -> (c: char)
    requires
        is_scalar(code as int),
    ensures
        c as u32 == code,
{
    match char::from_u32(code) {
        Some(c) => c,
        None => char::REPLACEMENT_CHARACTER,
    }
}

/// Reads the byte `ahead` places after `pos`; past the end of the slice it
/// reads the terminator.
pub fn peek(buf: &[u8], pos: usize, ahead: usize) -> (b: u8)
    ensures
        b == at(buf@, pos + ahead),
        b != 0 ==> pos + ahead < buf.len(),
{
    if pos < buf.len() && ahead < buf.len() - pos {
        buf[pos + ahead]
    } else {
        0
    }
}

/// Tells a continuation byte.
pub fn continues(b: u8) -> (r: bool)
    ensures
        r == is_continuation(b),
{
    0x80 <= b && b <= 0xBF
}

/// Decodes the character that starts at `pos`, tolerantly: a malformed
/// sequence gives its first byte back as a raw byte.
pub fn mbtowc(mode: &Encoding, buf: &[u8], pos: usize) -> (r: Decoded)
    ensures
        r.outcome_of(mode.is_multibyte(), buf@, pos as int),
{
    let b0 = peek(buf, pos, 0);
    if !using_utf8(mode) || b0 < 0x80 {
        return Decoded::Char { ch: scalar_to_char(b0 as u32), len: 1 };
    }
    let b1 = peek(buf, pos, 1);
    let b2 = peek(buf, pos, 2);
    let b3 = peek(buf, pos, 3);
    if 0xC2 <= b0 && b0 <= 0xDF {
        if continues(b1) {
            let code: u32 = (b0 as u32 - 0xC0) * 64 + (b1 as u32 - 0x80);
            return Decoded::Char { ch: scalar_to_char(code), len: 2 };
        }
    } else if 0xE0 <= b0 && b0 <= 0xEF {
        if continues(b1) && continues(b2) {
            let code: u32 = (b0 as u32 - 0xE0) * 4096 + (b1 as u32 - 0x80) * 64 + (b2 as u32
                - 0x80);
            if code >= 0x800 && !(0xD800 <= code && code <= 0xDFFF) {
                return Decoded::Char { ch: scalar_to_char(code), len: 3 };
            }
        }
    } else if 0xF0 <= b0 && b0 <= 0xF4 {
        if continues(b1) && continues(b2) && continues(b3) {
            let code: u32 = (b0 as u32 - 0xF0) * 262144 + (b1 as u32 - 0x80) * 4096 + (b2 as u32
                - 0x80) * 64 + (b3 as u32 - 0x80);
            if 0x10000 <= code && code <= 0x10FFFF {
                return Decoded::Char { ch: scalar_to_char(code), len: 4 };
            }
        }
    }
    Decoded::Raw { byte: b0 }
}

} // verus!
