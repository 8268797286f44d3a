//! Searching a buffer for a needle, forward and in reverse.

use vstd::prelude::*;
use crate::mode::Encoding;
use crate::decode::{at, peek, width_at};
use crate::navigate::{
    boundary, chain, count_from, left_of, lemma_chain_concat, lemma_chain_counts, lemma_last_char,
    lemma_last_start_shift, lemma_left_of_boundary, lemma_width_fits, step_left, unit_count,
    unit_length, well_formed,
};
use crate::compare::{bytes_from, bytes_order, compare_from, lemma_equal_needs_length, order_from};

verus! {

/// A found position as a mathematical integer.
pub open spec fn found(r: Option<usize>) -> Option<int> {
    match r {
        Some(b) => Some(b as int),
        None => None,
    }
}

/// Stepping unit by unit from `from` lands on `q` without passing a
/// terminator.
pub open spec fn reaches(multibyte: bool, h: Seq<u8>, from: int, q: int) -> bool
    decreases q - from,
{
    if from >= q {
        from == q
    } else {
        at(h, from) != 0 && from + width_at(multibyte, h, from) <= q && reaches(
            multibyte,
            h,
            from + width_at(multibyte, h, from),
            q,
        )
    }
}

/// The first position, stepping unit by unit from `p` and stopping at the
/// terminator, at which `k` characters of the haystack compare equal to
/// the needle.
pub open spec fn find_from(multibyte: bool, h: Seq<u8>, p: int, needle: Seq<u8>, k: int) -> Option<
    int,
>
    decreases h.len() - p,
{
    if at(h, p) == 0 {
        None
    } else if order_from(multibyte, h, p, needle, 0, k) == 0 {
        Some(p)
    } else {
        find_from(multibyte, h, p + width_at(multibyte, h, p), needle, k)
    }
}

/// Where `d` steps to the left lead from `p`, and `-1` where the start of
/// the buffer comes first.
pub open spec fn back_by(multibyte: bool, h: Seq<u8>, p: int, d: int) -> int
    decreases d,
{
    if d <= 0 {
        p
    } else if p <= 0 {
        -1
    } else {
        back_by(multibyte, h, left_of(multibyte, h, p), d - 1)
    }
}

/// The first position, stepping left from `p` down to the start of the
/// buffer, at which `k` characters of the haystack compare equal to the
/// needle.
pub open spec fn rfind_from(multibyte: bool, h: Seq<u8>, p: int, needle: Seq<u8>, k: int) -> Option<
    int,
>
    decreases p,
{
    if p < 0 {
        None
    } else if order_from(multibyte, h, p, needle, 0, k) == 0 {
        Some(p)
    } else {
        let q = left_of(multibyte, h, p);
        if 0 <= q < p {
            rfind_from(multibyte, h, q, needle, k)
        } else {
            None
        }
    }
}

/// Where a reverse search from `p` begins: `p` itself where the tail from
/// `p` holds as many characters as the needle, and else as many characters
/// further left as the tail is short of.
pub open spec fn reverse_start(multibyte: bool, h: Seq<u8>, p: int, k: int) -> int {
    let tail = count_from(multibyte, h, p);
    if tail < k {
        back_by(multibyte, h, p, k - tail)
    } else {
        p
    }
}

/// The result of the reverse search for the needle without regard to case.
pub open spec fn reverse_find(multibyte: bool, h: Seq<u8>, needle: Seq<u8>, p: int) -> Option<int> {
    let k = count_from(multibyte, needle, 0) as int;
    rfind_from(multibyte, h, reverse_start(multibyte, h, p, k), needle, k)
}

/// The first position, going down byte by byte from `p` to the start of the
/// buffer, at which `k` bytes of the haystack equal the needle's.
pub open spec fn rfind_bytes(h: Seq<u8>, p: int, needle: Seq<u8>, k: int) -> Option<int>
    decreases p,
{
    if p < 0 {
        None
    } else if bytes_order(h, p, needle, 0, k) == 0 {
        Some(p)
    } else if p == 0 {
        None
    } else {
        rfind_bytes(h, p - 1, needle, k)
    }
}

/// The result of the reverse search for the needle's exact bytes.
pub open spec fn reverse_find_bytes(h: Seq<u8>, needle: Seq<u8>, p: int) -> Option<int> {
    let k = count_from(false, needle, 0) as int;
    let tail = count_from(false, h, p) as int;
    rfind_bytes(
        h,
        if tail < k {
            p - (k - tail)
        } else {
            p
        },
        needle,
        k,
    )
}

/// A needle that holds more characters than the rest of the haystack is not
/// found in it.
pub proof fn law_longer_needle_not_found(multibyte: bool, h: Seq<u8>, p: int, needle: Seq<u8>)
    requires
        count_from(multibyte, needle, 0) > count_from(multibyte, h, p),
    ensures
        find_from(multibyte, h, p, needle, count_from(multibyte, needle, 0) as int) is None,
    decreases h.len() - p,
{
    let k = count_from(multibyte, needle, 0) as int;
    if at(h, p) != 0 {
        if order_from(multibyte, h, p, needle, 0, k) == 0 {
            lemma_equal_needs_length(multibyte, h, p, needle, 0, k);
        }
        law_longer_needle_not_found(multibyte, h, p + width_at(multibyte, h, p), needle);
    }
}

/// What a forward search finds is a position that the steps from `p` reach
/// before the terminator, and the needle matches there.
pub proof fn law_found_matches(multibyte: bool, h: Seq<u8>, p: int, needle: Seq<u8>, k: int)
    requires
        find_from(multibyte, h, p, needle, k) is Some,
    ensures
        reaches(multibyte, h, p, find_from(multibyte, h, p, needle, k).unwrap()),
        at(h, find_from(multibyte, h, p, needle, k).unwrap()) != 0,
        order_from(multibyte, h, find_from(multibyte, h, p, needle, k).unwrap(), needle, 0, k) == 0,
    decreases h.len() - p,
{
    if order_from(multibyte, h, p, needle, 0, k) != 0 {
        lemma_width_fits(multibyte, h, p);
        law_found_matches(multibyte, h, p + width_at(multibyte, h, p), needle, k);
    }
}

/// In text that decodes throughout, every position that the steps reach is
/// the end of a chain of characters.
pub proof fn lemma_reached_on_chain(multibyte: bool, h: Seq<u8>, p: int, q: int)
    requires
        well_formed(multibyte, h, p),
        reaches(multibyte, h, p, q),
    ensures
        chain(multibyte, h, p, q),
    decreases q - p,
{
    if p < q {
        lemma_reached_on_chain(multibyte, h, p + width_at(multibyte, h, p), q);
    }
}

/// In a haystack that decodes throughout, what a forward search finds is a
/// character boundary.
pub proof fn law_found_on_boundary(multibyte: bool, h: Seq<u8>, needle: Seq<u8>, k: int)
    requires
        well_formed(multibyte, h, 0),
        find_from(multibyte, h, 0, needle, k) is Some,
    ensures
        boundary(multibyte, h, find_from(multibyte, h, 0, needle, k).unwrap()),
{
    law_found_matches(multibyte, h, 0, needle, k);
    lemma_reached_on_chain(multibyte, h, 0, find_from(multibyte, h, 0, needle, k).unwrap());
}

/// A forward search finds the first match: where the needle matches at a
/// position `q` that the steps from `p` reach before the terminator, the
/// search finds a position, and none after `q`.
pub proof fn law_found_is_first(
    multibyte: bool,
    h: Seq<u8>,
    p: int,
    needle: Seq<u8>,
    k: int,
    q: int,
)
    requires
        reaches(multibyte, h, p, q),
        at(h, q) != 0,
        order_from(multibyte, h, q, needle, 0, k) == 0,
    ensures
        find_from(multibyte, h, p, needle, k) is Some,
        find_from(multibyte, h, p, needle, k).unwrap() <= q,
    decreases q - p,
{
    if p < q && order_from(multibyte, h, p, needle, 0, k) != 0 {
        law_found_is_first(multibyte, h, p + width_at(multibyte, h, p), needle, k, q);
    }
}

/// What a reverse search from `p` finds lies at or before `p`, and the
/// needle matches there.
pub proof fn law_reverse_found_matches(
    multibyte: bool,
    h: Seq<u8>,
    p: int,
    needle: Seq<u8>,
    k: int,
)
    requires
        rfind_from(multibyte, h, p, needle, k) is Some,
    ensures
        0 <= rfind_from(multibyte, h, p, needle, k).unwrap() <= p,
        order_from(multibyte, h, rfind_from(multibyte, h, p, needle, k).unwrap(), needle, 0, k)
            == 0,
    decreases p,
{
    if p >= 0 && order_from(multibyte, h, p, needle, 0, k) != 0 {
        law_reverse_found_matches(multibyte, h, left_of(multibyte, h, p), needle, k);
    }
}

/// Going back `d` characters from the end of a chain that holds at least
/// `d` of them stays on the chain.
pub proof fn lemma_back_on_chain(multibyte: bool, h: Seq<u8>, b: int, p: int, d: int)
    requires
        boundary(multibyte, h, b),
        chain(multibyte, h, b, p),
        0 <= d <= count_from(multibyte, h, b) - count_from(multibyte, h, p),
    ensures
        chain(multibyte, h, b, back_by(multibyte, h, p, d)),
        chain(multibyte, h, back_by(multibyte, h, p, d), p),
    decreases d,
{
    if d > 0 {
        lemma_chain_counts(multibyte, h, b, p);
        lemma_chain_concat(multibyte, h, 0, b, p);
        lemma_left_of_boundary(multibyte, h, p);
        if b > 0 {
            lemma_last_start_shift(multibyte, h, 0, b, p);
        }
        lemma_last_char(multibyte, h, b, p);
        let prev = left_of(multibyte, h, p);
        assert(chain(multibyte, h, p, p));
        assert(chain(multibyte, h, prev, p));
        lemma_back_on_chain(multibyte, h, b, prev, d - 1);
        lemma_chain_concat(multibyte, h, back_by(multibyte, h, prev, d - 1), prev, p);
    } else {
        assert(chain(multibyte, h, p, p));
    }
}

/// A reverse search finds the nearest match: where the needle matches at
/// the boundary `b`, a chain of characters leads from `b` to `p`, and the
/// needle matches at no boundary after `b` up to `p`, the search from `p`
/// finds `b`.
pub proof fn law_reverse_finds_nearest(
    multibyte: bool,
    h: Seq<u8>,
    needle: Seq<u8>,
    k: int,
    p: int,
    b: int,
)
    requires
        boundary(multibyte, h, b),
        chain(multibyte, h, b, p),
        order_from(multibyte, h, b, needle, 0, k) == 0,
        forall|q: int|
            b < q <= p && chain(multibyte, h, b, q) && chain(multibyte, h, q, p) ==> #[trigger] order_from(
                multibyte,
                h,
                q,
                needle,
                0,
                k,
            ) != 0,
    ensures
        rfind_from(multibyte, h, p, needle, k) == Some(b),
    decreases p - b,
{
    lemma_chain_counts(multibyte, h, b, p);
    if b < p {
        assert(chain(multibyte, h, p, p));
        lemma_chain_concat(multibyte, h, 0, b, p);
        lemma_left_of_boundary(multibyte, h, p);
        if b > 0 {
            lemma_last_start_shift(multibyte, h, 0, b, p);
        }
        lemma_last_char(multibyte, h, b, p);
        let prev = left_of(multibyte, h, p);
        assert(chain(multibyte, h, prev, p));
        assert forall|q: int|
            b < q <= prev && chain(multibyte, h, b, q) && chain(
                multibyte,
                h,
                q,
                prev,
            ) implies #[trigger] order_from(multibyte, h, q, needle, 0, k) != 0 by {
            lemma_chain_concat(multibyte, h, q, prev, p);
        }
        law_reverse_finds_nearest(multibyte, h, needle, k, prev, b);
    }
}

/// A reverse search from the end of a buffer that holds the needle, in
/// whatever case, at exactly one boundary finds that boundary.
pub proof fn law_reverse_finds_single_occurrence(
    multibyte: bool,
    h: Seq<u8>,
    needle: Seq<u8>,
    end: int,
    b: int,
)
    requires
        boundary(multibyte, h, b),
        chain(multibyte, h, b, end),
        at(h, end) == 0,
        order_from(multibyte, h, b, needle, 0, count_from(multibyte, needle, 0) as int) == 0,
        forall|q: int|
            boundary(multibyte, h, q) && q != b ==> #[trigger] order_from(
                multibyte,
                h,
                q,
                needle,
                0,
                count_from(multibyte, needle, 0) as int,
            ) != 0,
    ensures
        reverse_find(multibyte, h, needle, end) == Some(b),
{
    let k = count_from(multibyte, needle, 0) as int;
    let start = reverse_start(multibyte, h, end, k);
    lemma_equal_needs_length(multibyte, h, b, needle, 0, k);
    lemma_back_on_chain(multibyte, h, b, end, k);
    assert forall|q: int|
        b < q <= start && chain(multibyte, h, b, q) && chain(
            multibyte,
            h,
            q,
            start,
        ) implies #[trigger] order_from(multibyte, h, q, needle, 0, k) != 0 by {
        lemma_chain_concat(multibyte, h, 0, b, q);
    }
    law_reverse_finds_nearest(multibyte, h, needle, k, start, b);
}

/// Searches the haystack for the needle without regard to case, sliding a
/// window of as many characters as the needle holds from the start of the
/// haystack to its terminator, one unit at a time.
pub fn mbstrcasestr(mode: &Encoding, haystack: &[u8], needle: &[u8]) -> (r: Option<usize>)
    ensures
        found(r) == find_from(
            mode.is_multibyte(),
            haystack@,
            0,
            needle@,
            count_from(mode.is_multibyte(), needle@, 0) as int,
        ),
        r matches Some(b) ==> b < haystack.len() && order_from(
            mode.is_multibyte(),
            haystack@,
            b as int,
            needle@,
            0,
            count_from(mode.is_multibyte(), needle@, 0) as int,
        ) == 0,
        count_from(mode.is_multibyte(), needle@, 0) > count_from(mode.is_multibyte(), haystack@, 0)
            ==> r is None,
{
    proof {
        if count_from(mode.is_multibyte(), needle@, 0) > count_from(
            mode.is_multibyte(),
            haystack@,
            0,
        ) {
            law_longer_needle_not_found(mode.is_multibyte(), haystack@, 0, needle@);
        }
    }
    let k = unit_count(mode, needle, 0);
    let mut pos: usize = 0;
    while peek(haystack, pos, 0) != 0
        invariant
            k == count_from(mode.is_multibyte(), needle@, 0),
            k > count_from(mode.is_multibyte(), haystack@, 0) ==> find_from(
                mode.is_multibyte(),
                haystack@,
                0,
                needle@,
                k as int,
            ) is None,
            find_from(mode.is_multibyte(), haystack@, pos as int, needle@, k as int) == find_from(
                mode.is_multibyte(),
                haystack@,
                0,
                needle@,
                k as int,
            ),
        decreases haystack.len() - pos,
    {
        if compare_from(mode, haystack, pos, needle, 0, k) == 0 {
            return Some(pos);
        }
        pos = pos + unit_length(mode, haystack, pos);
    }
    None
}

/// Searches the haystack in reverse for the needle without regard to case.
/// The scan starts at the boundary `pointer`, or further left where the
/// tail from there is shorter than the needle, and steps left one
/// character at a time down to the start of the haystack.
pub fn mbrevstrcasestr(mode: &Encoding, haystack: &[u8], needle: &[u8], pointer: usize) -> (r:
    Option<usize>)
    ensures
        found(r) == reverse_find(mode.is_multibyte(), haystack@, needle@, pointer as int),
        r matches Some(b) ==> order_from(
            mode.is_multibyte(),
            haystack@,
            b as int,
            needle@,
            0,
            count_from(mode.is_multibyte(), needle@, 0) as int,
        ) == 0,
{
    let needle_len = unit_count(mode, needle, 0);
    let tail_len = unit_count(mode, haystack, pointer);
    let mut pos: usize = pointer;
    if tail_len < needle_len {
        let mut short: usize = needle_len - tail_len;
        while short > 0
            invariant
                needle_len == count_from(mode.is_multibyte(), needle@, 0),
                tail_len == count_from(mode.is_multibyte(), haystack@, pointer as int),
                tail_len < needle_len,
                back_by(mode.is_multibyte(), haystack@, pos as int, short as int) == back_by(
                    mode.is_multibyte(),
                    haystack@,
                    pointer as int,
                    needle_len - tail_len,
                ),
            decreases short,
        {
            if pos == 0 {
                proof {
                    assert(back_by(mode.is_multibyte(), haystack@, 0, short as int) == -1);
                    assert(rfind_from(
                        mode.is_multibyte(),
                        haystack@,
                        -1,
                        needle@,
                        needle_len as int,
                    ) is None);
                }
                return None;
            }
            pos = step_left(mode, haystack, pos);
            short = short - 1;
        }
    }
    loop
        invariant
            needle_len == count_from(mode.is_multibyte(), needle@, 0),
            rfind_from(mode.is_multibyte(), haystack@, pos as int, needle@, needle_len as int)
                == reverse_find(mode.is_multibyte(), haystack@, needle@, pointer as int),
        decreases pos,
    {
        if compare_from(mode, haystack, pos, needle, 0, needle_len) == 0 {
            return Some(pos);
        }
        if pos == 0 {
            return None;
        }
        pos = step_left(mode, haystack, pos);
    }
}

/// Searches the haystack in reverse for the needle without regard to case,
/// every byte being a character.
pub fn revstrcasestr(haystack: &[u8], needle: &[u8], pointer: usize) -> (r: Option<usize>)
    ensures
        found(r) == reverse_find(false, haystack@, needle@, pointer as int),
{
    let single = Encoding::new();
    let needle_len = unit_count(&single, needle, 0);
    let tail_len = unit_count(&single, haystack, pointer);
    let mut pos: usize = pointer;
    if tail_len < needle_len {
        if pointer < needle_len - tail_len {
            proof {
                lemma_back_single(haystack@, pointer as int, needle_len - tail_len);
            }
            return None;
        }
        proof {
            lemma_back_single(haystack@, pointer as int, needle_len - tail_len);
        }
        pos = pointer - (needle_len - tail_len);
    }
    loop
        invariant
            !single.is_multibyte(),
            rfind_from(false, haystack@, pos as int, needle@, needle_len as int) == reverse_find(
                false,
                haystack@,
                needle@,
                pointer as int,
            ),
        decreases pos,
    {
        if compare_from(&single, haystack, pos, needle, 0, needle_len) == 0 {
            return Some(pos);
        }
        if pos == 0 {
            return None;
        }
        pos = pos - 1;
    }
}

/// Searches the haystack in reverse for the needle's exact bytes. The scan
/// starts at `pointer`, or further left where the tail from there is
/// shorter than the needle, and goes down byte by byte to the start.
pub fn revstrstr(haystack: &[u8], needle: &[u8], pointer: usize) -> (r: Option<usize>)
    ensures
        found(r) == reverse_find_bytes(haystack@, needle@, pointer as int),
{
    let single = Encoding::new();
    let needle_len = unit_count(&single, needle, 0);
    let tail_len = unit_count(&single, haystack, pointer);
    let mut pos: usize = pointer;
    if tail_len < needle_len {
        if pointer < needle_len - tail_len {
            proof {
                assert(rfind_bytes(
                    haystack@,
                    pointer - (needle_len - tail_len),
                    needle@,
                    needle_len as int,
                ) is None);
            }
            return None;
        }
        pos = pointer - (needle_len - tail_len);
    }
    loop
        invariant
            rfind_bytes(haystack@, pos as int, needle@, needle_len as int) == reverse_find_bytes(
                haystack@,
                needle@,
                pointer as int,
            ),
        decreases pos,
    {
        if bytes_from(haystack, pos, needle, 0, needle_len) == 0 {
            return Some(pos);
        }
        if pos == 0 {
            return None;
        }
        pos = pos - 1;
    }
}

/// In single-byte text, `d` steps to the left are `d` bytes, where the
/// buffer has that many before `p`.
pub proof fn lemma_back_single(h: Seq<u8>, p: int, d: int)
    requires
        0 <= p,
        0 <= d,
    ensures
        back_by(false, h, p, d) == if d <= p {
            p - d
        } else {
            -1
        },
    decreases d,
{
    if d > 0 && p > 0 {
        lemma_back_single(h, p - 1, d - 1);
    }
}

} // verus!
