use mbchars::{
    bytes_from, compare_from, mbrevstrcasestr, mbstrcasecmp, mbstrcasestr, mbstrlen,
    mbstrncasecmp, revstrcasestr, revstrstr, strncasecmp, strncmp, utf8_init, Encoding,
};

fn multibyte() -> Encoding {
    let mut mode = Encoding::new();
    utf8_init(&mut mode);
    mode
}

#[test]
fn search_finds_accented_word_in_other_case() {
    let mb = multibyte();
    let buffer = "H\u{e9}llo".as_bytes();
    assert_eq!(mbstrcasestr(&mb, buffer, "H\u{c9}LLO".as_bytes()), Some(0));
    assert_eq!(mbstrcasestr(&mb, buffer, b"xyz"), None);
}

#[test]
fn compare_folds_case() {
    let mb = multibyte();
    assert_eq!(mbstrncasecmp(&mb, b"Hello", b"hELLO", 5), 0);
    assert_eq!(mbstrncasecmp(&mb, "\u{c9}t\u{e9}".as_bytes(), "\u{e9}T\u{c9}".as_bytes(), 3), 0);
    assert_eq!(mbstrcasecmp(&mb, b"Hello", b"hELLO"), 0);
    assert_eq!(mbstrcasecmp(&mb, b"", b""), 0);
}

#[test]
fn compare_gives_difference_of_folded_code_points() {
    let mb = multibyte();
    assert_eq!(mbstrncasecmp(&mb, b"a", b"b", 1), -1);
    assert_eq!(mbstrncasecmp(&mb, b"B", b"a", 1), 1);
    assert_eq!(mbstrncasecmp(&mb, b"abZ", b"abc", 3), 23);
    assert_eq!(
        mbstrncasecmp(&mb, "\u{20ac}".as_bytes(), b"a", 1),
        0x20AC - 0x61
    );
    assert_eq!(
        mbstrncasecmp(&mb, b"a", "\u{1f600}".as_bytes(), 1),
        0x61 - 0x1F600
    );
}

#[test]
fn compare_is_reflexive() {
    let mb = multibyte();
    for text in ["", "a", "H\u{e9}llo", "\u{1f600}x\u{20ac}"] {
        let buf = text.as_bytes();
        let count = mbstrlen(&mb, buf);
        for n in 0..=count + 1 {
            assert_eq!(mbstrncasecmp(&mb, buf, buf, n), 0);
        }
    }
    let broken = [b'a', 0xFF, 0xC3, b'b'];
    assert_eq!(mbstrncasecmp(&mb, &broken, &broken, 4), 0);
}

#[test]
fn compare_stops_after_max_chars() {
    let mb = multibyte();
    assert_eq!(mbstrncasecmp(&mb, b"abcX", b"abcY", 3), 0);
    assert_eq!(mbstrncasecmp(&mb, b"abcX", b"abcY", 4), -1);
    assert_eq!(mbstrncasecmp(&mb, b"x", b"y", 0), 0);
    assert_eq!(mbstrncasecmp(&mb, "\u{e9}\u{e9}a".as_bytes(), "\u{e9}\u{e9}b".as_bytes(), 2), 0);
}

#[test]
fn compare_stops_at_terminator() {
    let mb = multibyte();
    assert_eq!(mbstrncasecmp(&mb, b"abc", b"ab", 5), 99);
    assert_eq!(mbstrncasecmp(&mb, b"ab", b"abc", 5), -99);
    assert_eq!(mbstrncasecmp(&mb, b"ab\0x", b"ab\0y", 5), 0);
    assert_eq!(mbstrcasecmp(&mb, b"abc", b"abcd"), -100);
}

#[test]
fn compare_malformed_units() {
    let mb = multibyte();
    // differing raw bytes decide at once
    assert_eq!(mbstrncasecmp(&mb, &[0xFF], &[0xFE], 1), 1);
    assert_eq!(mbstrncasecmp(&mb, &[0xFE], &[0xFF], 1), -1);
    assert_eq!(mbstrncasecmp(&mb, &[0xFF], b"a", 1), 0xFF - 0x61);
    assert_eq!(mbstrncasecmp(&mb, b"A", &[0xFF], 1), 0x41 - 0xFF);
    // equal first bytes: the unit that does not decode is the greater
    assert_eq!(mbstrncasecmp(&mb, &[0xC3, 0x28], &[0xC3, 0xA9], 1), 1);
    assert_eq!(mbstrncasecmp(&mb, &[0xC3, 0xA9], &[0xC3, 0x28], 1), -1);
    // both malformed with equal bytes: a tie, and one byte is consumed
    assert_eq!(mbstrncasecmp(&mb, &[0xFF, b'a'], &[0xFF, b'A'], 2), 0);
    assert_eq!(mbstrncasecmp(&mb, &[0xFF, b'a'], &[0xFF, b'b'], 2), -1);
}

#[test]
fn compare_from_offsets() {
    let mb = multibyte();
    let a = "xxH\u{e9}llo".as_bytes();
    let b = "yh\u{c9}LLO!".as_bytes();
    assert_eq!(compare_from(&mb, a, 2, b, 1, 5), 0);
    assert_eq!(compare_from(&mb, a, 2, b, 1, 6), -33);
    assert_eq!(compare_from(&mb, a, 0, b, 0, 1), -1);
    assert_eq!(compare_from(&mb, a, 100, b, 100, 3), 0);
}

#[test]
fn single_byte_compare() {
    assert_eq!(strncasecmp(b"Hello", b"hELLO", 5), 0);
    assert_eq!(strncasecmp(&[0xC9], &[0xE9], 1), 0);
    assert_eq!(strncasecmp(b"abc", b"abd", 2), 0);
    assert_eq!(strncasecmp(b"abc", b"abd", 3), -1);
    assert_eq!(mbstrncasecmp(&Encoding::new(), &[0xC3, 0x28], &[0xC3, 0xA9], 2), 0x28 - 0xA9);
}

#[test]
fn exact_byte_compare() {
    assert_eq!(strncmp(b"abc", b"abc", 3), 0);
    assert_eq!(strncmp(b"abc", b"abd", 2), 0);
    assert_eq!(strncmp(b"abc", b"abd", 3), -1);
    assert_eq!(strncmp(b"abc", b"Abc", 3), 32);
    assert_eq!(strncmp(b"ab", b"abc", 3), -99);
    assert_eq!(strncmp(b"ab\0x", b"ab\0y", 4), 0);
    assert_eq!(strncmp(&[0xFF], &[0x01], 1), 254);
    assert_eq!(bytes_from(b"xxabc", 2, b"yabc", 1, 3), 0);
    assert_eq!(bytes_from(b"xxabc", 2, b"yabc", 0, 3), -24);
}

#[test]
fn search_returns_first_match() {
    let mb = multibyte();
    assert_eq!(mbstrcasestr(&mb, b"abcABCabc", b"BCA"), Some(1));
    assert_eq!(mbstrcasestr(&mb, "\u{e9}\u{e9}x\u{c9}X".as_bytes(), "\u{c9}x".as_bytes()), Some(2));
    assert_eq!(mbstrcasestr(&mb, b"hello world", b"WORLD"), Some(6));
    assert_eq!(mbstrcasestr(&mb, b"hello\0world", b"world"), None);
}

#[test]
fn search_needle_longer_than_haystack() {
    let mb = multibyte();
    assert_eq!(mbstrcasestr(&mb, b"ab", b"abc"), None);
    assert_eq!(mbstrcasestr(&mb, "\u{e9}\u{e9}".as_bytes(), b"abc"), None);
    assert_eq!(mbstrcasestr(&mb, b"", b"a"), None);
}

#[test]
fn search_empty_needle_and_haystack() {
    let mb = multibyte();
    assert_eq!(mbstrcasestr(&mb, b"abc", b""), Some(0));
    assert_eq!(mbstrcasestr(&mb, b"", b""), None);
}

#[test]
fn search_never_matches_inside_a_character() {
    let mb = multibyte();
    // the needle's bytes occur only from the middle of the three-byte character
    let haystack = [0xE2, 0x82, 0xAC, b'a'];
    assert_eq!(mbstrcasestr(&mb, &haystack, &[0x82, 0xAC]), None);
    assert_eq!(mbstrcasestr(&mb, &haystack, b"A"), Some(3));
}

#[test]
fn search_steps_over_malformed_bytes() {
    let mb = multibyte();
    let haystack = [0xFF, 0xC3, b'a', b'B'];
    assert_eq!(mbstrcasestr(&mb, &haystack, b"ab"), Some(2));
    assert_eq!(mbstrcasestr(&mb, &haystack, &[0xC3, b'A']), Some(1));
}

#[test]
fn search_single_byte_mode() {
    let single = Encoding::new();
    assert_eq!(mbstrcasestr(&single, b"Hello", b"LLO"), Some(2));
    assert_eq!(mbstrcasestr(&single, &[b'a', 0xC9, b'b'], &[0xE9, b'B']), Some(1));
}

#[test]
fn reverse_search_finds_single_occurrence_from_end() {
    let mb = multibyte();
    let haystack = "xxH\u{e9}LLoxx".as_bytes();
    let needle = "h\u{c9}llo".as_bytes();
    assert_eq!(mbrevstrcasestr(&mb, haystack, needle, haystack.len()), Some(2));
    let plain = b"one TWO three";
    assert_eq!(mbrevstrcasestr(&mb, plain, b"two", plain.len()), Some(4));
}

#[test]
fn reverse_search_returns_nearest_match_at_or_before_start() {
    let mb = multibyte();
    let haystack = b"abcabcabc";
    assert_eq!(mbrevstrcasestr(&mb, haystack, b"ABC", 9), Some(6));
    assert_eq!(mbrevstrcasestr(&mb, haystack, b"ABC", 6), Some(6));
    assert_eq!(mbrevstrcasestr(&mb, haystack, b"ABC", 5), Some(3));
    assert_eq!(mbrevstrcasestr(&mb, haystack, b"ABC", 2), Some(0));
    assert_eq!(mbrevstrcasestr(&mb, haystack, b"ABC", 0), Some(0));
    assert_eq!(mbrevstrcasestr(&mb, haystack, b"xyz", 9), None);
}

#[test]
fn reverse_search_clamps_start_when_tail_is_short() {
    let mb = multibyte();
    // the needle fills the whole buffer: the scan has to come back to its head
    assert_eq!(mbrevstrcasestr(&mb, b"abc", b"ABC", 3), Some(0));
    assert_eq!(mbrevstrcasestr(&mb, b"abc", b"ABC", 2), Some(0));
    assert_eq!(mbrevstrcasestr(&mb, b"abc", b"ABC", 1), Some(0));
    // one character more than the buffer holds: the start falls before its head
    assert_eq!(mbrevstrcasestr(&mb, b"abc", b"abcd", 3), None);
    assert_eq!(mbrevstrcasestr(&mb, b"abc", b"abcd", 0), None);
    assert_eq!(mbrevstrcasestr(&mb, b"", b"a", 0), None);
    assert_eq!(mbrevstrcasestr(&mb, b"", b"", 0), Some(0));
    // counted in characters, not bytes
    let wide = "\u{e9}\u{e9}\u{e9}".as_bytes();
    assert_eq!(mbrevstrcasestr(&mb, wide, "\u{c9}\u{c9}\u{c9}".as_bytes(), 6), Some(0));
    assert_eq!(mbrevstrcasestr(&mb, wide, "\u{c9}\u{c9}".as_bytes(), 6), Some(2));
    assert_eq!(mbrevstrcasestr(&mb, wide, "\u{c9}\u{c9}\u{c9}\u{c9}".as_bytes(), 6), None);
}

#[test]
fn reverse_search_single_byte_forms() {
    assert_eq!(revstrcasestr(b"abcABC", b"abc", 6), Some(3));
    assert_eq!(revstrcasestr(b"abcABC", b"abc", 2), Some(0));
    assert_eq!(revstrcasestr(b"abc", b"abcd", 3), None);
    assert_eq!(revstrcasestr(b"abc", b"xyz", 3), None);
    assert_eq!(revstrcasestr(&[b'a', 0xC9, b'b'], &[0xE9, b'B'], 3), Some(1));
    assert_eq!(
        mbrevstrcasestr(&Encoding::new(), b"abcABC", b"abc", 6),
        revstrcasestr(b"abcABC", b"abc", 6)
    );
}

#[test]
fn reverse_exact_search() {
    assert_eq!(revstrstr(b"abcabc", b"abc", 6), Some(3));
    assert_eq!(revstrstr(b"abcabc", b"abc", 2), Some(0));
    assert_eq!(revstrstr(b"abcabc", b"ABC", 6), None);
    assert_eq!(revstrstr(b"abcABC", b"abc", 6), Some(0));
    assert_eq!(revstrstr(b"abc", b"abcd", 3), None);
    assert_eq!(revstrstr(b"abc", b"abc", 3), Some(0));
    assert_eq!(revstrstr(b"abc", b"", 3), Some(3));
    assert_eq!(revstrstr(b"", b"", 0), Some(0));
}
