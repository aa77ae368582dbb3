//! TrueType fonts: validated on load; rasterizing happens outside the library.

use vstd::prelude::*;

use ab_glyph::FontRef;

verus! {

/// Whether ab_glyph's `FontRef::try_from_slice` accepts some bytes as a font.
pub uninterp spec fn font_parses(data: Seq<u8>) -> bool;

/// Parses bytes with ab_glyph's `FontRef::try_from_slice`, keeping only whether it
/// succeeded.
/// Claimed: the answer is `font_parses` of the bytes.
#[verifier::external_body]
fn try_parse_font(data: &[u8]) -> (r: bool)
    ensures
        r == font_parses(data@),
{
    FontRef::try_from_slice(data).is_ok()
}

/// Why font data was refused.
#[derive(Debug, Clone, Copy, PartialEq, Eq, Structural)]
pub enum TtfError {
    /// The data is not a font ab_glyph can read.
    InvalidFont,
}

/// A TrueType (or OpenType) font whose data parsed.
pub struct TtfRenderer {
    font_data: Vec<u8>,
}

impl TtfRenderer {
    /// The font data.
    pub closed spec fn data(&self) -> Seq<u8> {
        self.font_data@
    }

    /// Validate font data and keep it: refused when ab_glyph cannot parse it.
    pub fn new(font_data: Vec<u8>) -> (r: Result<Self, TtfError>)
        ensures
            match r {
                Ok(t) => font_parses(font_data@) && t.data() == font_data@,
                Err(e) => !font_parses(font_data@) && e == TtfError::InvalidFont,
            },
    {
        if !try_parse_font(font_data.as_slice()) {
            return Err(TtfError::InvalidFont);
        }
        Ok(TtfRenderer { font_data })
    }

    /// The font data.
    pub fn font_data(&self) -> (r: &[u8])
        ensures
            r@ == self.data(),
    {
        self.font_data.as_slice()
    }
}

} // verus!
