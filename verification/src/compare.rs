//! Comparison of buffers, character by character without regard to case,
//! and byte by byte.

use vstd::prelude::*;
use crate::mode::Encoding;
use crate::decode::{Decoded, at, code_at, decodes, mbtowc, peek, width_at};
use crate::navigate::{count_from, lemma_width_fits};

verus! {

/// The first character of the lowercase form of `c`, as the standard
/// library's case tables give it.
pub uninterp spec fn lowercase_head(c: char) -> char;

/// Wraps `char::to_lowercase`, whose iterator gives the characters of the
/// lowercase form; the contract names the first of them, which depends on
/// the character alone.
#[verifier::external_body]
fn lower_head(c: char) -> (low: char)
    ensures
        low == lowercase_head(c),
{
    c.to_lowercase().next().unwrap_or(c)
}

/// The code point that `code` folds to.
pub open spec fn folded(code: int) -> int {
    lowercase_head(code as char) as int
}

/// How the units at `i` and `j` compare; zero where they agree. Two
/// characters compare by their folded code points. Where a unit does not
/// decode, differing first bytes decide, and with equal first bytes the
/// malformed unit is the greater.
pub open spec fn unit_order(multibyte: bool, a: Seq<u8>, i: int, b: Seq<u8>, j: int) -> int {
    let ok_a = decodes(multibyte, a, i);
    let ok_b = decodes(multibyte, b, j);
    if ok_a && ok_b {
        folded(code_at(multibyte, a, i)) - folded(code_at(multibyte, b, j))
    } else if at(a, i) != at(b, j) {
        at(a, i) - at(b, j)
    } else if ok_a != ok_b {
        if ok_a {
            -1
        } else {
            1
        }
    } else {
        0
    }
}

/// How at most `n` units from `i` and from `j` compare: the first unit
/// order that is not zero; where a terminator comes first, the difference
/// of the two bytes there; zero after `n` units that agree.
pub open spec fn order_from(
    multibyte: bool,
    a: Seq<u8>,
    i: int,
    b: Seq<u8>,
    j: int,
    n: int,
) -> int
    decreases n,
{
    if n <= 0 {
        0
    } else if at(a, i) == 0 || at(b, j) == 0 {
        at(a, i) - at(b, j)
    } else if unit_order(multibyte, a, i, b, j) != 0 {
        unit_order(multibyte, a, i, b, j)
    } else {
        order_from(
            multibyte,
            a,
            i + width_at(multibyte, a, i),
            b,
            j + width_at(multibyte, b, j),
            n - 1,
        )
    }
}

/// `order_from` on two whole buffers.
pub open spec fn order_within(multibyte: bool, a: Seq<u8>, b: Seq<u8>, n: usize) -> int {
    order_from(multibyte, a, 0, b, 0, n as int)
}

/// How at most `n` bytes from `i` and from `j` compare: the difference at
/// the first place where they differ, zero where a terminator or the end of
/// the `n` bytes comes first.
pub open spec fn bytes_order(a: Seq<u8>, i: int, b: Seq<u8>, j: int, n: int) -> int
    decreases n,
{
    if n <= 0 {
        0
    } else if at(a, i) != at(b, j) {
        at(a, i) - at(b, j)
    } else if at(a, i) == 0 {
        0
    } else {
        bytes_order(a, i + 1, b, j + 1, n - 1)
    }
}

/// The largest count that a signed offset can hold.
pub open spec fn highest_positive() -> usize {
    (usize::MAX / 2) as usize
}

/// `bytes_order` on two whole buffers.
pub open spec fn bytes_within(a: Seq<u8>, b: Seq<u8>, n: usize) -> int {
    bytes_order(a, 0, b, 0, n as int)
}

/// A buffer compares equal to itself, whatever the number of characters
/// compared.
pub proof fn law_order_reflexive(multibyte: bool, s: Seq<u8>, p: int, n: int)
    ensures
        order_from(multibyte, s, p, s, p, n) == 0,
    decreases n,
{
    if n > 0 && at(s, p) != 0 {
        law_order_reflexive(multibyte, s, p + width_at(multibyte, s, p), n - 1);
    }
}

/// A comparison that comes out as zero over `n` characters, against a
/// buffer that holds `n` or more from `j`, has found `n` characters from `i`.
pub proof fn lemma_equal_needs_length(
    multibyte: bool,
    a: Seq<u8>,
    i: int,
    b: Seq<u8>,
    j: int,
    n: int,
)
    requires
        order_from(multibyte, a, i, b, j, n) == 0,
        count_from(multibyte, b, j) >= n,
    ensures
        count_from(multibyte, a, i) >= n,
    decreases n,
{
    if n > 0 {
        lemma_equal_needs_length(
            multibyte,
            a,
            i + width_at(multibyte, a, i),
            b,
            j + width_at(multibyte, b, j),
            n - 1,
        );
    }
}

/// The difference of two bytes.
pub fn byte_difference(x: u8, y: u8) -> (d: isize)
    ensures
        d == x - y,
{
    x as isize - y as isize
}

/// The difference of two characters' code points.
pub fn code_difference(x: char, y: char) -> (d: isize)
    ensures
        d == x as int - y as int,
{
    (x as u32) as isize - (y as u32) as isize
}

/// How the two decoded units compare, given the first byte of each.
pub fn order_of_units(x: Decoded, first_x: u8, y: Decoded, first_y: u8) -> (d: isize)
    ensures
        d == match (x, y) {
            (Decoded::Char { ch: cx, len: _ }, Decoded::Char { ch: cy, len: _ }) => lowercase_head(
                cx,
            ) as int - lowercase_head(cy) as int,
            _ => if first_x != first_y {
                first_x - first_y
            } else {
                match (x, y) {
                    (Decoded::Raw { byte: _ }, Decoded::Char { ch: _, len: _ }) => 1int,
                    (Decoded::Char { ch: _, len: _ }, Decoded::Raw { byte: _ }) => -1int,
                    _ => 0int,
                }
            },
        },
{
    match (x, y) {
        (Decoded::Char { ch: cx, len: _ }, Decoded::Char { ch: cy, len: _ }) => code_difference(
            lower_head(cx),
            lower_head(cy),
        ),
        (Decoded::Raw { byte: _ }, Decoded::Char { ch: _, len: _ }) => {
            if first_x != first_y {
                byte_difference(first_x, first_y)
            } else {
                1
            }
        },
        (Decoded::Char { ch: _, len: _ }, Decoded::Raw { byte: _ }) => {
            if first_x != first_y {
                byte_difference(first_x, first_y)
            } else {
                -1
            }
        },
        (Decoded::Raw { byte: _ }, Decoded::Raw { byte: _ }) => byte_difference(first_x, first_y),
    }
}

/// Compares at most `n` characters of `a` from `i` with those of `b` from
/// `j`, without regard to case. A unit that does not decode is compared
/// by its first byte. The comparison ends at the first difference, at a
/// terminator, or after `n` characters.
pub fn compare_from(mode: &Encoding, a: &[u8], i: usize, b: &[u8], j: usize, n: usize) -> (d:
    isize)
    ensures
        d == order_from(mode.is_multibyte(), a@, i as int, b@, j as int, n as int),
{
    let mut p: usize = i;
    let mut q: usize = j;
    let mut left: usize = n;
    while left > 0
        invariant
            order_from(mode.is_multibyte(), a@, p as int, b@, q as int, left as int) == order_from(
                mode.is_multibyte(),
                a@,
                i as int,
                b@,
                j as int,
                n as int,
            ),
        decreases left,
    {
        let first_a = peek(a, p, 0);
        let first_b = peek(b, q, 0);
        if first_a == 0 || first_b == 0 {
            return byte_difference(first_a, first_b);
        }
        proof {
            lemma_width_fits(mode.is_multibyte(), a@, p as int);
            lemma_width_fits(mode.is_multibyte(), b@, q as int);
        }
        let x = mbtowc(mode, a, p);
        let y = mbtowc(mode, b, q);
        let d = order_of_units(x, first_a, y, first_b);
        if d != 0 {
            return d;
        }
        p = p + x.width();
        q = q + y.width();
        left = left - 1;
    }
    0
}

/// Compares at most `n` bytes of `a` from `i` with those of `b` from `j`
/// exactly, ending at the first difference or at a terminator.
pub fn bytes_from(a: &[u8], i: usize, b: &[u8], j: usize, n: usize) -> (d: isize)
    ensures
        d == bytes_order(a@, i as int, b@, j as int, n as int),
{
    let mut p: usize = i;
    let mut q: usize = j;
    let mut left: usize = n;
    while left > 0
        invariant
            bytes_order(a@, p as int, b@, q as int, left as int) == bytes_order(
                a@,
                i as int,
                b@,
                j as int,
                n as int,
            ),
        decreases left,
    {
        let first_a = peek(a, p, 0);
        let first_b = peek(b, q, 0);
        if first_a != first_b {
            return byte_difference(first_a, first_b);
        }
        if first_a == 0 {
            return 0;
        }
        p = p + 1;
        q = q + 1;
        left = left - 1;
    }
    0
}

/// Compares at most `n` characters of two buffers without regard to case.
pub fn mbstrncasecmp(mode: &Encoding, s1: &[u8], s2: &[u8], n: usize) -> (d: isize)
    ensures
        d == order_within(mode.is_multibyte(), s1@, s2@, n),
{
    compare_from(mode, s1, 0, s2, 0, n)
}

/// Compares two buffers without regard to case, up to the largest count
/// that a signed offset can hold.
pub fn mbstrcasecmp(mode: &Encoding, s1: &[u8], s2: &[u8]) -> (d: isize)
    ensures
        d == order_within(mode.is_multibyte(), s1@, s2@, highest_positive()),
{
    mbstrncasecmp(mode, s1, s2, usize::MAX / 2)
}

/// Compares at most `n` bytes of two buffers exactly.
pub fn strncmp(a: &[u8], b: &[u8], n: usize) -> (d: isize)
    ensures
        d == bytes_within(a@, b@, n),
{
    bytes_from(a, 0, b, 0, n)
}

/// Compares at most `n` bytes of two buffers without regard to case, each
/// byte being a character.
pub fn strncasecmp(a: &[u8], b: &[u8], n: usize) -> (d: isize)
    ensures
        d == order_within(false, a@, b@, n),
{
    let single = Encoding::new();
    compare_from(&single, a, 0, b, 0, n)
}

} // verus!
