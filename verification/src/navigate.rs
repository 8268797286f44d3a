//! Moving between character boundaries, and counting characters.

use vstd::prelude::*;
use crate::mode::{Encoding, using_utf8};
use crate::decode::{
    Decoded, at, continues, decodes, is_continuation, mbtowc, peek, starts_char, width_at,
};

verus! {

/// Characters lie end to end from `from` up to exactly `to`, each of them
/// decoding and none of them the terminator.
pub open spec fn chain(multibyte: bool, s: Seq<u8>, from: int, to: int) -> bool
    decreases to - from,
{
    if from >= to {
        from == to
    } else {
        starts_char(multibyte, s, from) && from + width_at(multibyte, s, from) <= to && chain(
            multibyte,
            s,
            from + width_at(multibyte, s, from),
            to,
        )
    }
}

/// A character boundary: an offset that whole characters lead to from the
/// start of the buffer.
pub open spec fn boundary(multibyte: bool, s: Seq<u8>, p: int) -> bool {
    0 <= p && chain(multibyte, s, 0, p)
}

/// Every character from `p` to the terminator decodes.
pub open spec fn well_formed(multibyte: bool, s: Seq<u8>, p: int) -> bool
    decreases s.len() - p,
{
    if at(s, p) == 0 {
        true
    } else {
        decodes(multibyte, s, p) && well_formed(multibyte, s, p + width_at(multibyte, s, p))
    }
}

/// The number of characters from `p` to the terminator, a malformed byte
/// counting as one.
pub open spec fn count_from(multibyte: bool, s: Seq<u8>, p: int) -> nat
    decreases s.len() - p,
{
    if at(s, p) == 0 {
        0
    } else {
        1 + count_from(multibyte, s, p + width_at(multibyte, s, p))
    }
}

/// The boundary after the character at `p`.
pub open spec fn right_of(multibyte: bool, s: Seq<u8>, p: int) -> int {
    p + width_at(multibyte, s, p)
}

/// Walking right from `from`, the start of the last unit that begins
/// before `to`.
pub open spec fn last_start(multibyte: bool, s: Seq<u8>, from: int, to: int) -> int
    decreases to - from,
{
    let next = from + width_at(multibyte, s, from);
    if next >= to {
        from
    } else {
        last_start(multibyte, s, next, to)
    }
}

/// Where the search for the start of the character before `p` begins: the
/// nearest of the four bytes before `p` that is no continuation byte, one
/// byte before `p` where all four are, and the start of the buffer where
/// fewer than four bytes come before `p`.
pub open spec fn probe(s: Seq<u8>, p: int) -> int {
    if p < 4 {
        0
    } else if !is_continuation(at(s, p - 1)) {
        p - 1
    } else if !is_continuation(at(s, p - 2)) {
        p - 2
    } else if !is_continuation(at(s, p - 3)) {
        p - 3
    } else if !is_continuation(at(s, p - 4)) {
        p - 4
    } else {
        p - 1
    }
}

/// The start of the unit before `p`: one byte back in single-byte text; in
/// multibyte text the last unit that a walk from the probed byte finds
/// before `p`. The start of the buffer has nothing before it and stays.
pub open spec fn left_of(multibyte: bool, s: Seq<u8>, p: int) -> int {
    if p <= 0 {
        0
    } else if multibyte {
        last_start(true, s, probe(s, p), p)
    } else {
        p - 1
    }
}

/// Where `n` steps to the right lead from `p`.
pub open spec fn steps_right(multibyte: bool, s: Seq<u8>, p: int, n: nat) -> int
    decreases n,
{
    if n == 0 {
        p
    } else {
        steps_right(multibyte, s, right_of(multibyte, s, p), (n - 1) as nat)
    }
}

/// A unit that starts before the terminator ends inside the buffer.
pub proof fn lemma_width_fits(multibyte: bool, s: Seq<u8>, p: int)
    requires
        at(s, p) != 0,
    ensures
        1 <= width_at(multibyte, s, p) <= 4,
        0 <= p,
        p + width_at(multibyte, s, p) <= s.len(),
{
}

/// A multibyte character starts with a byte that is no continuation byte and
/// goes on with continuation bytes only.
pub proof fn lemma_char_shape(s: Seq<u8>, p: int)
    requires
        starts_char(true, s, p),
    ensures
        !is_continuation(at(s, p)),
        width_at(true, s, p) >= 2 ==> is_continuation(at(s, p + 1)),
        width_at(true, s, p) >= 3 ==> is_continuation(at(s, p + 2)),
        width_at(true, s, p) >= 4 ==> is_continuation(at(s, p + 3)),
{
}

/// The last character of a chain: it starts where `last_start` says, ends
/// at the chain's end, and the chain leads up to it.
pub proof fn lemma_last_char(multibyte: bool, s: Seq<u8>, from: int, to: int)
    requires
        chain(multibyte, s, from, to),
        from < to,
    ensures
        from <= last_start(multibyte, s, from, to) < to,
        chain(multibyte, s, from, last_start(multibyte, s, from, to)),
        starts_char(multibyte, s, last_start(multibyte, s, from, to)),
        right_of(multibyte, s, last_start(multibyte, s, from, to)) == to,
    decreases to - from,
{
    let next = from + width_at(multibyte, s, from);
    if next < to {
        lemma_last_char(multibyte, s, next, to);
    }
}

/// A chain followed by one more character: that character is the last one.
pub proof fn lemma_last_after_chain(multibyte: bool, s: Seq<u8>, from: int, p: int)
    requires
        chain(multibyte, s, from, p),
    ensures
        last_start(multibyte, s, from, right_of(multibyte, s, p)) == p,
    decreases p - from,
{
    if from < p {
        let next = from + width_at(multibyte, s, from);
        lemma_last_after_chain(multibyte, s, next, p);
    }
}

/// The last unit before `to` starts in the range walked.
pub proof fn lemma_last_start_bounds(multibyte: bool, s: Seq<u8>, from: int, to: int)
    requires
        from < to,
    ensures
        from <= last_start(multibyte, s, from, to) < to,
    decreases to - from,
{
    let next = from + width_at(multibyte, s, from);
    if next < to {
        lemma_last_start_bounds(multibyte, s, next, to);
    }
}

/// At a boundary of multibyte text the probe lands on the start of the
/// character that ends there, so that the step to the left is the start
/// of that character.
pub proof fn lemma_left_of_boundary(multibyte: bool, s: Seq<u8>, p: int)
    requires
        boundary(multibyte, s, p),
        p > 0,
    ensures
        left_of(multibyte, s, p) == last_start(multibyte, s, 0, p),
{
    let start = last_start(multibyte, s, 0, p);
    lemma_last_char(multibyte, s, 0, p);
    if multibyte {
        lemma_char_shape(s, start);
        lemma_width_fits(true, s, start);
    }
}

/// Stepping right over a character and then left comes back to where the
/// character starts.
pub proof fn law_left_of_right(multibyte: bool, s: Seq<u8>, p: int)
    requires
        boundary(multibyte, s, p),
        starts_char(multibyte, s, p),
    ensures
        left_of(multibyte, s, right_of(multibyte, s, p)) == p,
        boundary(multibyte, s, right_of(multibyte, s, p)),
{
    lemma_last_after_chain(multibyte, s, 0, p);
    lemma_chain_extend(multibyte, s, 0, p);
    lemma_left_of_boundary(multibyte, s, right_of(multibyte, s, p));
}

/// Stepping left from a boundary other than the start and then right comes
/// back to that boundary; the step to the left ends on a boundary at which
/// a character starts.
pub proof fn law_right_of_left(multibyte: bool, s: Seq<u8>, p: int)
    requires
        boundary(multibyte, s, p),
        p > 0,
    ensures
        right_of(multibyte, s, left_of(multibyte, s, p)) == p,
        boundary(multibyte, s, left_of(multibyte, s, p)),
        starts_char(multibyte, s, left_of(multibyte, s, p)),
{
    lemma_last_char(multibyte, s, 0, p);
    lemma_left_of_boundary(multibyte, s, p);
}

/// A chain with the character after it is a chain again.
pub proof fn lemma_chain_extend(multibyte: bool, s: Seq<u8>, from: int, p: int)
    requires
        chain(multibyte, s, from, p),
        starts_char(multibyte, s, p),
    ensures
        chain(multibyte, s, from, right_of(multibyte, s, p)),
    decreases p - from,
{
    if from < p {
        let next = from + width_at(multibyte, s, from);
        lemma_chain_extend(multibyte, s, next, p);
    } else {
        let end = right_of(multibyte, s, p);
        assert(chain(multibyte, s, end, end));
    }
}

/// Two chains that meet make one.
pub proof fn lemma_chain_concat(multibyte: bool, s: Seq<u8>, from: int, mid: int, to: int)
    requires
        chain(multibyte, s, from, mid),
        chain(multibyte, s, mid, to),
    ensures
        chain(multibyte, s, from, to),
    decreases mid - from,
{
    if from < mid {
        lemma_chain_concat(multibyte, s, from + width_at(multibyte, s, from), mid, to);
    }
}

/// The last unit before `to` is the same from wherever on a chain the walk
/// sets out.
pub proof fn lemma_last_start_shift(multibyte: bool, s: Seq<u8>, from: int, mid: int, to: int)
    requires
        chain(multibyte, s, from, mid),
        mid < to,
    ensures
        last_start(multibyte, s, from, to) == last_start(multibyte, s, mid, to),
    decreases mid - from,
{
    if from < mid {
        lemma_last_start_shift(multibyte, s, from + width_at(multibyte, s, from), mid, to);
    }
}

/// Along a chain the number of characters left goes down, and stays the
/// same only where the chain is empty.
pub proof fn lemma_chain_counts(multibyte: bool, s: Seq<u8>, from: int, to: int)
    requires
        chain(multibyte, s, from, to),
    ensures
        from <= to,
        count_from(multibyte, s, from) >= count_from(multibyte, s, to),
        count_from(multibyte, s, from) == count_from(multibyte, s, to) ==> from == to,
    decreases to - from,
{
    if from < to {
        lemma_chain_counts(multibyte, s, from + width_at(multibyte, s, from), to);
    }
}

/// The character count is the number of steps to the right that reach the
/// terminator: that many steps end on it, and no fewer do.
pub proof fn law_count_is_steps(multibyte: bool, s: Seq<u8>, p: int, fewer: nat)
    ensures
        at(s, steps_right(multibyte, s, p, count_from(multibyte, s, p))) == 0,
        fewer < count_from(multibyte, s, p) ==> at(s, steps_right(multibyte, s, p, fewer)) != 0,
    decreases s.len() - p,
{
    if at(s, p) != 0 {
        if fewer > 0 {
            law_count_is_steps(multibyte, s, right_of(multibyte, s, p), (fewer - 1) as nat);
        } else {
            law_count_is_steps(multibyte, s, right_of(multibyte, s, p), 0);
        }
    }
}

/// The byte length of the unit at `pos`: the width of the character there,
/// and one byte where nothing decodes.
pub fn unit_length(mode: &Encoding, buf: &[u8], pos: usize) -> (n: usize)
    ensures
        n == width_at(mode.is_multibyte(), buf@, pos as int),
        1 <= n <= 4,
        at(buf@, pos as int) != 0 ==> pos + n <= buf.len(),
{
    proof {
        if at(buf@, pos as int) != 0 {
            lemma_width_fits(mode.is_multibyte(), buf@, pos as int);
        }
    }
    match mbtowc(mode, buf, pos) {
        Decoded::Char { ch: _, len } => len,
        Decoded::Raw { byte: _ } => 1,
    }
}

/// Whether a character starts at `pos`: the byte there is no terminator
/// and a character decodes from it.
pub fn starts_character(mode: &Encoding, buf: &[u8], pos: usize) -> (r: bool)
    ensures
        r == starts_char(mode.is_multibyte(), buf@, pos as int),
{
    if peek(buf, pos, 0) == 0 {
        return false;
    }
    match mbtowc(mode, buf, pos) {
        Decoded::Char { ch: _, len: _ } => true,
        Decoded::Raw { byte: _ } => false,
    }
}

/// Whether the whole text of the buffer decodes, character after character
/// up to its terminator.
pub fn is_well_formed(mode: &Encoding, buf: &[u8]) -> (r: bool)
    ensures
        r == well_formed(mode.is_multibyte(), buf@, 0),
{
    let mut pos: usize = 0;
    while peek(buf, pos, 0) != 0
        invariant
            well_formed(mode.is_multibyte(), buf@, pos as int) == well_formed(
                mode.is_multibyte(),
                buf@,
                0,
            ),
        decreases buf.len() - pos,
    {
        if !starts_character(mode, buf, pos) {
            return false;
        }
        pos = pos + unit_length(mode, buf, pos);
    }
    true
}

/// Whether `pos` is a character boundary of the buffer: whole characters
/// lead to it from the start.
pub fn is_boundary(mode: &Encoding, buf: &[u8], pos: usize) -> (r: bool)
    ensures
        r == boundary(mode.is_multibyte(), buf@, pos as int),
{
    let mut at_char: usize = 0;
    while at_char < pos
        invariant
            at_char <= pos,
            chain(mode.is_multibyte(), buf@, at_char as int, pos as int) == boundary(
                mode.is_multibyte(),
                buf@,
                pos as int,
            ),
        decreases pos - at_char,
    {
        if !starts_character(mode, buf, at_char) {
            return false;
        }
        let width = unit_length(mode, buf, at_char);
        if width > pos - at_char {
            return false;
        }
        at_char = at_char + width;
    }
    true
}

/// The byte length of the character that starts at `pos`.
pub fn char_length(mode: &Encoding, buf: &[u8], pos: usize) -> (n: usize)
    requires
        starts_char(mode.is_multibyte(), buf@, pos as int),
    ensures
        n == width_at(mode.is_multibyte(), buf@, pos as int),
        1 <= n <= 4,
        pos + n <= buf.len(),
{
    unit_length(mode, buf, pos)
}

/// Counts the units from `from` to the terminator.
pub fn unit_count(mode: &Encoding, buf: &[u8], from: usize) -> (n: usize)
    ensures
        n == count_from(mode.is_multibyte(), buf@, from as int),
{
    let mut pos: usize = from;
    let mut n: usize = 0;
    while peek(buf, pos, 0) != 0
        invariant
            n + count_from(mode.is_multibyte(), buf@, pos as int) == count_from(
                mode.is_multibyte(),
                buf@,
                from as int,
            ),
            from <= pos,
            n <= pos - from,
        decreases buf.len() - pos,
    {
        pos = pos + unit_length(mode, buf, pos);
        n = n + 1;
    }
    n
}

/// The number of characters in the buffer, from its start to its terminator.
pub fn mbstrlen(mode: &Encoding, buf: &[u8]) -> (n: usize)
    requires
        well_formed(mode.is_multibyte(), buf@, 0),
    ensures
        n == count_from(mode.is_multibyte(), buf@, 0),
{
    unit_count(mode, buf, 0)
}

/// The boundary after the character that starts at `pos`.
pub fn step_right(mode: &Encoding, buf: &[u8], pos: usize) -> (next: usize)
    requires
        starts_char(mode.is_multibyte(), buf@, pos as int),
    ensures
        next == right_of(mode.is_multibyte(), buf@, pos as int),
        pos < next <= buf.len(),
        boundary(mode.is_multibyte(), buf@, pos as int) ==> boundary(
            mode.is_multibyte(),
            buf@,
            next as int,
        ),
{
    proof {
        if boundary(mode.is_multibyte(), buf@, pos as int) {
            law_left_of_right(mode.is_multibyte(), buf@, pos as int);
        }
    }
    pos + char_length(mode, buf, pos)
}

/// The start of the character before `pos`. In multibyte text the
/// nearest of the four bytes before `pos` that is no continuation byte is
/// taken as a candidate, and a walk forward from it finds the width of the
/// unit that ends at `pos`; a malformed byte on the way is one unit. At a
/// boundary the result is the boundary before it.
pub fn step_left(mode: &Encoding, buf: &[u8], pos: usize) -> (prev: usize)
    ensures
        prev == left_of(mode.is_multibyte(), buf@, pos as int),
        pos > 0 ==> prev < pos,
        pos > 0 && boundary(mode.is_multibyte(), buf@, pos as int) ==> boundary(
            mode.is_multibyte(),
            buf@,
            prev as int,
        ) && starts_char(mode.is_multibyte(), buf@, prev as int) && right_of(
            mode.is_multibyte(),
            buf@,
            prev as int,
        ) == pos,
{
    proof {
        if pos > 0 && boundary(mode.is_multibyte(), buf@, pos as int) {
            law_right_of_left(mode.is_multibyte(), buf@, pos as int);
        }
    }
    if using_utf8(mode) {
        let mut before: usize;
        let mut charlen: usize = 0;
        if pos < 4 {
            before = 0;
        } else if !continues(peek(buf, pos - 1, 0)) {
            before = pos - 1;
        } else if !continues(peek(buf, pos - 2, 0)) {
            before = pos - 2;
        } else if !continues(peek(buf, pos - 3, 0)) {
            before = pos - 3;
        } else if !continues(peek(buf, pos - 4, 0)) {
            before = pos - 4;
        } else {
            before = pos - 1;
        }
        let ghost target = left_of(true, buf@, pos as int);
        proof {
            if pos > 0 {
                lemma_last_start_bounds(true, buf@, before as int, pos as int);
            }
        }
        while before < pos
            invariant
                mode.is_multibyte(),
                0 <= target,
                before < pos ==> last_start(true, buf@, before as int, pos as int) == target,
                before >= pos ==> before - charlen == target,
                pos > 0 ==> target < pos,
            decreases
                    (if before < pos {
                        pos - before
                    } else {
                        0
                    }),
        {
            charlen = unit_length(mode, buf, before);
            before = before + charlen;
        }
        before - charlen
    } else {
        if pos == 0 {
            0
        } else {
            pos - 1
        }
    }
}

} // verus!
