use mbchars::{
    control_rep, first_char, is_alnum_mbchar, is_alpha_mbchar, is_ascii_cntrl_char,
    is_blank_mbchar, is_byte, is_cntrl_mbchar, is_punct_mbchar, is_valid_unicode, utf8_init,
    white_string, Encoding,
};

fn multibyte() -> Encoding {
    let mut mode = Encoding::new();
    utf8_init(&mut mode);
    mode
}

#[test]
fn is_byte_is_signed_byte_range() {
    assert!(is_byte(0));
    assert!(is_byte(127));
    assert!(is_byte(-128));
    assert!(!is_byte(128));
    assert!(!is_byte(-129));
    assert!(!is_byte(255));
    assert!(!is_byte(i32::MAX));
    assert!(!is_byte(i32::MIN));
}

#[test]
fn ascii_control_is_below_space() {
    assert!(is_ascii_cntrl_char(0));
    assert!(is_ascii_cntrl_char(31));
    assert!(!is_ascii_cntrl_char(32));
    assert!(!is_ascii_cntrl_char(127));
    assert!(!is_ascii_cntrl_char(-1));
}

#[test]
fn first_char_decodes_by_mode() {
    let buf = "\u{e9}".as_bytes();
    assert_eq!(first_char(&multibyte(), buf, 0), '\u{e9}');
    assert_eq!(first_char(&Encoding::new(), buf, 0), '\u{c3}');
}

#[test]
fn letters_and_digits() {
    let mb = multibyte();
    let buf = "a\u{e9}5 !".as_bytes();
    assert!(is_alpha_mbchar(&mb, buf, 0));
    assert!(is_alpha_mbchar(&mb, buf, 1));
    assert!(!is_alpha_mbchar(&mb, buf, 3));
    assert!(!is_alpha_mbchar(&mb, buf, 4));
    assert!(is_alnum_mbchar(&mb, buf, 0));
    assert!(is_alnum_mbchar(&mb, buf, 1));
    assert!(is_alnum_mbchar(&mb, buf, 3));
    assert!(!is_alnum_mbchar(&mb, buf, 4));
    assert!(!is_alnum_mbchar(&mb, buf, 5));
}

#[test]
fn blanks_and_punctuation() {
    let mb = multibyte();
    let buf = " \t\u{3000}a!~\u{2014}".as_bytes();
    assert!(is_blank_mbchar(&mb, buf, 0));
    assert!(is_blank_mbchar(&mb, buf, 1));
    assert!(is_blank_mbchar(&mb, buf, 2));
    assert!(!is_blank_mbchar(&mb, buf, 5));
    assert!(!is_punct_mbchar(&mb, buf, 0));
    assert!(!is_punct_mbchar(&mb, buf, 5));
    assert!(is_punct_mbchar(&mb, buf, 6));
    assert!(is_punct_mbchar(&mb, buf, 7));
    assert!(!is_punct_mbchar(&mb, buf, 8));
}

#[test]
fn punctuation_ranges() {
    let single = Encoding::new();
    for byte in 1u8..=127 {
        let expected = (33..=47).contains(&byte)
            || (58..=64).contains(&byte)
            || (91..=96).contains(&byte)
            || (123..=126).contains(&byte);
        assert_eq!(is_punct_mbchar(&single, &[byte], 0), expected);
    }
}

#[test]
fn control_detection_multibyte() {
    let mb = multibyte();
    assert!(is_cntrl_mbchar(&mb, &[0x01], 0));
    assert!(is_cntrl_mbchar(&mb, &[0x1F], 0));
    assert!(!is_cntrl_mbchar(&mb, &[0x20], 0));
    assert!(is_cntrl_mbchar(&mb, &[0x7F], 0));
    assert!(is_cntrl_mbchar(&mb, &[0xC2, 0x80], 0));
    assert!(is_cntrl_mbchar(&mb, &[0xC2, 0x9F], 0));
    assert!(!is_cntrl_mbchar(&mb, &[0xC2, 0xA0], 0));
    assert!(!is_cntrl_mbchar(&mb, &[0xC2], 0));
    assert!(!is_cntrl_mbchar(&mb, &[0xC3, 0x80], 0));
    assert!(!is_cntrl_mbchar(&mb, &[0x85], 0));
    assert!(!is_cntrl_mbchar(&mb, b"a", 0));
    // the terminator is a byte below the space
    assert!(is_cntrl_mbchar(&mb, b"", 0));
}

#[test]
fn control_detection_single_byte() {
    let single = Encoding::new();
    assert!(is_cntrl_mbchar(&single, &[0x01], 0));
    assert!(is_cntrl_mbchar(&single, &[0x7F], 0));
    assert!(is_cntrl_mbchar(&single, &[0x80], 0));
    assert!(is_cntrl_mbchar(&single, &[0x9F], 0));
    assert!(!is_cntrl_mbchar(&single, &[0xA0], 0));
    assert!(!is_cntrl_mbchar(&single, &[0xC2, 0x80], 0));
    assert!(!is_cntrl_mbchar(&single, b"a", 0));
}

#[test]
fn control_detection_tolerates_malformed_input() {
    let mb = multibyte();
    assert!(!is_cntrl_mbchar(&mb, &[0xFF, 0xFE], 0));
    assert!(!is_cntrl_mbchar(&mb, &[0xE2, 0x82], 0));
    assert!(!is_cntrl_mbchar(&mb, &[0xE2, 0x82], 1));
    // past the end of the slice stands the terminator
    assert!(is_cntrl_mbchar(&mb, &[0xE2, 0x82], 9));
}

#[test]
fn control_glyphs() {
    assert_eq!(control_rep(0x7F), b'?' as i8);
    assert_eq!(control_rep(1), 65);
    assert_eq!(control_rep(1), b'A' as i8);
    assert_eq!(control_rep(-97), b'=' as i8);
    assert_eq!(control_rep(0), b'@' as i8);
    assert_eq!(control_rep(31), b'_' as i8);
    assert_eq!(control_rep(-128), 96);
    assert_eq!(control_rep(-127), 97);
    assert_eq!(control_rep(-98), 126);
}

#[test]
fn control_glyphs_cover_every_byte() {
    for c in i8::MIN..=i8::MAX {
        let expected = if c == 127 {
            63
        } else if c == -97 {
            61
        } else if c < 0 {
            (c as i16 + 224) as i8
        } else {
            c.wrapping_add(64)
        };
        assert_eq!(control_rep(c), expected);
    }
}

#[test]
fn code_point_validity() {
    assert!(!is_valid_unicode(0xD800));
    assert!(is_valid_unicode(0x41));
    // the last code point is a noncharacter: its low sixteen bits are 0xFFFF
    assert!(!is_valid_unicode(0x10FFFF));
    assert!(is_valid_unicode(0x10FFFD));
    assert!(!is_valid_unicode(0x10FFFE));
    assert!(!is_valid_unicode(0x110000));
}

#[test]
fn code_point_validity_at_range_edges() {
    assert!(is_valid_unicode(0));
    assert!(is_valid_unicode(0xD7FF));
    assert!(!is_valid_unicode(0xDFFF));
    assert!(is_valid_unicode(0xE000));
    assert!(is_valid_unicode(0xFDCF));
    assert!(!is_valid_unicode(0xFDD0));
    assert!(!is_valid_unicode(0xFDEF));
    assert!(is_valid_unicode(0xFDF0));
    assert!(is_valid_unicode(0xFFFD));
    assert!(!is_valid_unicode(0xFFFE));
    assert!(!is_valid_unicode(0xFFFF));
    assert!(is_valid_unicode(0x10000));
    assert!(is_valid_unicode(0x1FFFD));
    assert!(!is_valid_unicode(0x1FFFE));
    assert!(!is_valid_unicode(0x1FFFF));
    assert!(!is_valid_unicode(u32::MAX));
}

#[test]
fn white_string_tells_what_follows_the_blanks() {
    let mb = multibyte();
    assert!(!white_string(&mb, b""));
    assert!(!white_string(&mb, b"  \t\r "));
    assert!(!white_string(&mb, "\u{3000} ".as_bytes()));
    assert!(white_string(&mb, b"  a "));
    assert!(white_string(&mb, b"a"));
    assert!(!white_string(&mb, b" \0a"));
    assert!(!white_string(&Encoding::new(), b" \r\n"));
    assert!(white_string(&Encoding::new(), b" \r\nx"));
}
