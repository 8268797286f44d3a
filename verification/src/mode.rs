//! The encoding mode: single-byte until multibyte scanning is switched on.

use vstd::prelude::*;

verus! {

/// Selects how buffers are scanned. A fresh value stands for single-byte
/// text; once switched to multibyte it never goes back.
#[derive(Clone, Copy, Debug)]
pub struct Encoding {
    multibyte: bool,
}

impl Encoding {
    /// Whether multibyte scanning is on.
    pub closed spec fn is_multibyte(&self) -> bool {
        self.multibyte
    }

    /// The conservative default: single-byte text.
    pub fn new() -> (mode: Encoding)
        ensures
            !mode.is_multibyte(),
    {
        Encoding { multibyte: false }
    }
}

/// Switches multibyte scanning on. Doing so again changes nothing.
pub fn utf8_init(mode: &mut Encoding)
    ensures
        final(mode).is_multibyte(),
{
    mode.multibyte = true;
}

/// Reads the mode: `true` once multibyte scanning was switched on.
pub fn using_utf8(mode: &Encoding) -> (on: bool)
    ensures
        on == mode.is_multibyte(),
{
    mode.multibyte
}

} // verus!
