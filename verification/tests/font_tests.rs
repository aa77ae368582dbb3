use brs::render::font::fnt_parser::{kerning_key, parse_fnt, FntError};
use brs::render::font::ttf_renderer::{TtfError, TtfRenderer};
use brs::render::text::{FontData, FontFormat, FontId, TextManager};

const SAMPLE_FNT: &str = r#"info face="TestFont" size=32 bold=0 italic=0
common lineHeight=36 base=28 scaleW=256 scaleH=256 pages=1
page id=0 file="test_font.png"
chars count=3
char id=65 x=0 y=0 width=20 height=30 xoffset=1 yoffset=2 xadvance=22 page=0
char id=66 x=20 y=0 width=18 height=30 xoffset=1 yoffset=2 xadvance=20 page=0
char id=67 x=38 y=0 width=19 height=30 xoffset=1 yoffset=2 xadvance=21 page=0
kerning first=65 second=66 amount=-1
kerning first=66 second=67 amount=-2
"#;

#[test]
fn test_parse_fnt_info() {
    let font = parse_fnt(SAMPLE_FNT).unwrap();
    assert_eq!(font.face, "TestFont");
    assert_eq!(font.size, 32);
}

#[test]
fn test_parse_fnt_common() {
    let font = parse_fnt(SAMPLE_FNT).unwrap();
    assert_eq!(font.line_height, 36);
    assert_eq!(font.base, 28);
}

#[test]
fn test_parse_fnt_pages() {
    let font = parse_fnt(SAMPLE_FNT).unwrap();
    assert_eq!(font.pages.len(), 1);
    assert_eq!(font.pages[0], "test_font.png");
}

#[test]
fn test_parse_fnt_glyphs() {
    let font = parse_fnt(SAMPLE_FNT).unwrap();
    assert_eq!(font.glyphs.len(), 3);

    let a = font.glyphs.get(&65).unwrap();
    assert_eq!(a.x, 0);
    assert_eq!(a.y, 0);
    assert_eq!(a.width, 20);
    assert_eq!(a.height, 30);
    assert_eq!(a.xoffset, 1);
    assert_eq!(a.yoffset, 2);
    assert_eq!(a.xadvance, 22);
    assert_eq!(a.page, 0);
}

#[test]
fn test_parse_fnt_kerning() {
    let font = parse_fnt(SAMPLE_FNT).unwrap();
    assert_eq!(font.kernings.len(), 2);
    assert_eq!(font.kerning(65, 66), Some(-1));
    assert_eq!(font.kerning(66, 67), Some(-2));
}

#[test]
fn test_parse_fnt_empty_pages_error() {
    let content = "info face=\"Test\" size=16\ncommon lineHeight=20 base=16\n";
    let result = parse_fnt(content);
    assert!(result.is_err());
}

#[test]
fn test_parse_fnt_negative_offsets() {
    let content = r#"info face="Test" size=16
common lineHeight=20 base=16 scaleW=128 scaleH=128 pages=1
page id=0 file="test.png"
char id=48 x=0 y=0 width=10 height=14 xoffset=-2 yoffset=-1 xadvance=12 page=0
"#;
    let font = parse_fnt(content).unwrap();
    let glyph = font.glyphs.get(&48).unwrap();
    assert_eq!(glyph.xoffset, -2);
    assert_eq!(glyph.yoffset, -1);
}

#[test]
fn fnt_values_that_do_not_parse_read_as_zero() {
    let content = "  info face=\"Big\" size=99999999999\r\n\
                   page file=\"a.png\"\n\
                   page id=1\n\
                   char id=7 xoffset=--3 yoffset=-2147483648 xadvance=2147483648\n\
                   unknown stuff\n";
    let font = parse_fnt(content).unwrap();
    assert_eq!(font.face, "Big");
    assert_eq!(font.size, 0);
    assert_eq!(font.pages, vec!["a.png".to_string(), String::new()]);
    let g = font.glyphs.get(&7).unwrap();
    assert_eq!(g.xoffset, 0);
    assert_eq!(g.yoffset, i32::MIN);
    assert_eq!(g.xadvance, 0);
    assert_eq!(g.width, 0);
}

#[test]
fn fnt_later_glyph_replaces_earlier() {
    let content = "page file=\"p.png\"\nchar id=5 width=1\nchar id=5 width=9\n";
    let font = parse_fnt(content).unwrap();
    assert_eq!(font.glyphs.len(), 1);
    assert_eq!(font.glyphs.get(&5).unwrap().width, 9);
}

#[test]
fn fnt_error_message() {
    assert_eq!(parse_fnt("").unwrap_err(), FntError::NoPages);
    assert_eq!(FntError::NoPages.message(), "no page definitions found in FNT file");
}

#[test]
fn font_format_by_extension_ignores_case() {
    assert_eq!(FontFormat::from_extension("ttf"), Some(FontFormat::TrueType));
    assert_eq!(FontFormat::from_extension("TTF"), Some(FontFormat::TrueType));
    assert_eq!(FontFormat::from_extension("OtF"), Some(FontFormat::TrueType));
    assert_eq!(FontFormat::from_extension("fnt"), Some(FontFormat::Bitmap));
    assert_eq!(FontFormat::from_extension("FNT"), Some(FontFormat::Bitmap));
    assert_eq!(FontFormat::from_extension("png"), None);
    assert_eq!(FontFormat::from_extension(""), None);
    assert_eq!(FontFormat::from_extension("ttff"), None);
}

#[test]
fn ttf_renderer_refuses_bytes_that_are_no_font() {
    assert_eq!(TtfRenderer::new(vec![1, 2, 3]).err(), Some(TtfError::InvalidFont));
    assert_eq!(TtfRenderer::new(Vec::new()).err(), Some(TtfError::InvalidFont));
}

#[test]
fn text_manager_hands_out_increasing_ids() {
    let mut tm = TextManager::new();
    assert_eq!(tm.next_id(), 1);
    assert!(tm.get(FontId(1)).is_none());
    let a = tm.add_font(FontData::Bitmap(parse_fnt(SAMPLE_FNT).unwrap()));
    let b = tm.add_font(FontData::Bitmap(parse_fnt("page file=\"x.png\"\n").unwrap()));
    assert_eq!(a, FontId(1));
    assert_eq!(b, FontId(2));
    assert_eq!(tm.next_id(), 3);
    match tm.get(a) {
        Some(FontData::Bitmap(f)) => assert_eq!(f.face, "TestFont"),
        _ => panic!("font 1 missing"),
    }
    match tm.get(b) {
        Some(FontData::Bitmap(f)) => assert_eq!(f.pages, vec!["x.png".to_string()]),
        _ => panic!("font 2 missing"),
    }
    assert!(tm.get(FontId(3)).is_none());
    let d = TextManager::default();
    assert!(d.get(FontId(1)).is_none());
}

#[test]
fn kernings_are_keyed_by_pair() {
    assert_eq!(kerning_key(65, 66), (65u64 << 32) | 66);
    assert_ne!(kerning_key(65, 66), kerning_key(66, 65));
    let font = parse_fnt(SAMPLE_FNT).unwrap();
    assert_eq!(font.kernings[&kerning_key(65, 66)], -1);
    assert_eq!(font.kerning(66, 65), None);
    assert_eq!(font.kerning(65, 67), None);
}

#[test]
fn no_kerning_lines_give_no_kernings() {
    let content = [
        r#"info face="Test" size=16"#,
        "common lineHeight=20 base=16 scaleW=128 scaleH=128 pages=1",
        r#"page id=0 file="test.png""#,
        "char id=48 x=0 y=0 width=10 height=14 xoffset=-2 yoffset=-1 xadvance=12 page=0",
    ]
    .join("\n");
    let font = parse_fnt(&content).unwrap();
    assert!(font.kernings.is_empty());
    assert_eq!(font.glyphs.len(), 1);
}
