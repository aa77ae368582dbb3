//! The fonts loaded for drawing text, each under an id.

use vstd::prelude::*;

use std::collections::HashMap;

use crate::render::font::fnt_parser::BitmapFont;
use crate::render::font::ttf_renderer::TtfRenderer;

verus! {

broadcast use vstd::std_specs::hash::group_hash_axioms;

/// Loaded font data: TrueType or bitmap.
pub enum FontData {
    TrueType(TtfRenderer),
    Bitmap(BitmapFont),
}

/// The id under which a font was loaded.
#[derive(Debug, Clone, Copy, PartialEq, Eq, Hash, Structural)]
pub struct FontId(pub u64);

/// The kind of font file an extension names.
#[derive(Debug, Clone, Copy, PartialEq, Eq, Structural)]
pub enum FontFormat {
    /// `.ttf` or `.otf`.
    TrueType,
    /// `.fnt` (BMFont text).
    Bitmap,
}

/// A character lowered as `str::to_lowercase` lowers the letters A-Z (other characters
/// that could lower into `ttf`, `otf` or `fnt` do not exist).
pub open spec fn ascii_lower(c: char) -> char {
    if 'A' <= c <= 'Z' {
        ((c as u32) + 32) as char
    } else {
        c
    }
}

/// Whether an extension equals a lower-case word, ignoring case.
pub open spec fn ext_is(ext: Seq<char>, word: Seq<char>) -> bool {
    ext.len() == word.len() && forall|i: int| 0 <= i < ext.len() ==> ascii_lower(#[trigger] ext[i]) == word[i]
}

/// The font format of a file extension: `ttf` and `otf` are TrueType, `fnt` is bitmap,
/// in any case; anything else is unsupported.
pub open spec fn format_of(ext: Seq<char>) -> Option<FontFormat> {
    if ext_is(ext, seq!['t', 't', 'f']) || ext_is(ext, seq!['o', 't', 'f']) {
        Some(FontFormat::TrueType)
    } else if ext_is(ext, seq!['f', 'n', 't']) {
        Some(FontFormat::Bitmap)
    } else {
        None
    }
}

fn lower(c: char) -> (r: char)
    ensures
        r == ascii_lower(c),
{
    match c {
        'A' => 'a',
        'B' => 'b',
        'C' => 'c',
        'D' => 'd',
        'E' => 'e',
        'F' => 'f',
        'G' => 'g',
        'H' => 'h',
        'I' => 'i',
        'J' => 'j',
        'K' => 'k',
        'L' => 'l',
        'M' => 'm',
        'N' => 'n',
        'O' => 'o',
        'P' => 'p',
        'Q' => 'q',
        'R' => 'r',
        'S' => 's',
        'T' => 't',
        'U' => 'u',
        'V' => 'v',
        'W' => 'w',
        'X' => 'x',
        'Y' => 'y',
        'Z' => 'z',
        _ => c,
    }
}

fn ext_matches(ext: &Vec<char>, word: &Vec<char>) -> (r: bool)
    ensures
        r == ext_is(ext@, word@),
{
    if ext.len() != word.len() {
        return false;
    }
    let mut i: usize = 0;
    while i < ext.len()
        invariant
            ext@.len() == word@.len(),
            i <= ext@.len(),
            forall|k: int| 0 <= k < i ==> ascii_lower(#[trigger] ext@[k]) == word@[k],
        decreases ext@.len() - i,
    {
        if lower(ext[i]) != word[i] {
            return false;
        }
        i = i + 1;
    }
    true
}

impl FontFormat {
    /// The font format of a file extension (without the dot).
    pub fn from_extension(ext: &str) -> (r: Option<FontFormat>)
        ensures
            r == format_of(ext@),
    {
        let mut chars: Vec<char> = Vec::new();
        for c in it: ext.chars()
            invariant
                chars@ == it.seq().take(it.index() as int),
        {
            assert(it.seq().take(it.index() + 1) =~= it.seq().take(it.index() as int).push(c));
            chars.push(c);
        }
        assert(chars@ =~= ext@);
        let ttf = vec!['t', 't', 'f'];
        let otf = vec!['o', 't', 'f'];
        let fnt = vec!['f', 'n', 't'];
        assert(ttf@ =~= seq!['t', 't', 'f']);
        assert(otf@ =~= seq!['o', 't', 'f']);
        assert(fnt@ =~= seq!['f', 'n', 't']);
        if ext_matches(&chars, &ttf) || ext_matches(&chars, &otf) {
            Some(FontFormat::TrueType)
        } else if ext_matches(&chars, &fnt) {
            Some(FontFormat::Bitmap)
        } else {
            None
        }
    }
}

/// Manages the loaded fonts.
pub struct TextManager {
    fonts: HashMap<u64, FontData>,
    next_id: u64,
}

impl TextManager {
    /// The fonts by id.
    pub closed spec fn fonts(&self) -> Map<u64, FontData> {
        self.fonts@
    }

    /// The id the next font will get.
    pub closed spec fn next(&self) -> u64 {
        self.next_id
    }

    /// No fonts; ids start at 1.
    pub fn new() -> (r: Self)
        ensures
            r.fonts() == Map::<u64, FontData>::empty(),
            r.next() == 1,
    {
        TextManager { fonts: HashMap::new(), next_id: 1 }
    }

    /// The id the next font will get.
    pub fn next_id(&self) -> (r: u64)
        ensures
            r == self.next(),
    {
        self.next_id
    }

    /// Keep a loaded font under the next id, and return that id.
    pub fn add_font(&mut self, font: FontData) -> (r: FontId)
        requires
            old(self).next() < u64::MAX,
        ensures
            r.0 == old(self).next(),
            final(self).next() == old(self).next() + 1,
            final(self).fonts() == old(self).fonts().insert(r.0, font),
    {
        let id = FontId(self.next_id);
        self.next_id = self.next_id + 1;
        self.fonts.insert(id.0, font);
        id
    }

    /// The font loaded under an id.
    pub fn get(&self, id: FontId) -> (r: Option<&FontData>)
        ensures
            match r {
                Some(f) => self.fonts().contains_key(id.0) && *f == self.fonts()[id.0],
                None => !self.fonts().contains_key(id.0),
            },
    {
        self.fonts.get(&id.0)
    }
}

impl Default for TextManager {
    fn default() -> (r: Self)
        ensures
            r.fonts() == Map::<u64, FontData>::empty(),
            r.next() == 1,
    {
        Self::new()
    }
}

} // verus!
