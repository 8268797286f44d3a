//! Encoding-aware primitives for scanning and comparing text buffers.
//!
//! A buffer is a borrowed byte slice whose text ends at its first zero byte,
//! or at the end of the slice when it holds none. Positions are byte offsets
//! into such a slice. An [`Encoding`] value selects between single-byte text,
//! where every byte is a character, and multibyte text, where a character
//! takes one to four bytes.

pub mod mode;
pub mod decode;
pub mod navigate;
pub mod classify;
pub mod compare;
pub mod search;

pub use mode::{Encoding, utf8_init, using_utf8};
pub use decode::{Decoded, mbtowc, peek};
pub use navigate::{
    char_length, is_boundary, is_well_formed, mbstrlen, starts_character, step_left, step_right,
    unit_count, unit_length,
};
pub use compare::{
    bytes_from, compare_from, mbstrcasecmp, mbstrncasecmp, strncasecmp, strncmp,
};
pub use search::{mbrevstrcasestr, mbstrcasestr, revstrcasestr, revstrstr};
pub use classify::{
    control_rep, first_char, is_alnum_mbchar, is_alpha_mbchar, is_ascii_cntrl_char,
    is_blank_mbchar, is_byte, is_cntrl_mbchar, is_punct_mbchar, is_valid_unicode, white_string,
};
