use pdf_engine_core::error::PdfError;
use pdf_engine_core::font::{hex_bytes_to_u32, hex_bytes_to_unicode_string, u32_to_unicode_string, CMap, TrueTypeFont};

/// A two-glyph TrueType font: `.notdef` and `A` (code 0x41, advance 540).
const SMALL_FONT: [u8; 400] = [
    0x00, 0x01, 0x00, 0x00, 0x00, 0x07, 0x00, 0x40, 0x00, 0x02, 0x00, 0x30, 0x63, 0x6d, 0x61, 0x70,
    0x00, 0x09, 0x00, 0x76, 0x00, 0x00, 0x01, 0x00, 0x00, 0x00, 0x00, 0x2c, 0x67, 0x6c, 0x79, 0x66,
    0xf1, 0xcb, 0x66, 0x98, 0x00, 0x00, 0x01, 0x34, 0x00, 0x00, 0x00, 0x5c, 0x68, 0x65, 0x61, 0x64,
    0xf2, 0x35, 0xdd, 0xf8, 0x00, 0x00, 0x00, 0x7c, 0x00, 0x00, 0x00, 0x36, 0x68, 0x68, 0x65, 0x61,
    0x06, 0x61, 0x00, 0xca, 0x00, 0x00, 0x00, 0xb4, 0x00, 0x00, 0x00, 0x24, 0x68, 0x6d, 0x74, 0x78,
    0x04, 0x74, 0x00, 0x6a, 0x00, 0x00, 0x00, 0xf8, 0x00, 0x00, 0x00, 0x08, 0x6c, 0x6f, 0x63, 0x61,
    0x00, 0x2e, 0x00, 0x14, 0x00, 0x00, 0x01, 0x2c, 0x00, 0x00, 0x00, 0x06, 0x6d, 0x61, 0x78, 0x70,
    0x00, 0x05, 0x00, 0x0b, 0x00, 0x00, 0x00, 0xd8, 0x00, 0x00, 0x00, 0x20, 0x00, 0x01, 0x00, 0x00,
    0x00, 0x01, 0x00, 0x00, 0xf5, 0x9c, 0x29, 0x44, 0x5f, 0x0f, 0x3c, 0xf5, 0x00, 0x02, 0x03, 0xe8,
    0x00, 0x00, 0x00, 0x00, 0xb4, 0x92, 0xf4, 0x00, 0x00, 0x00, 0x00, 0x00, 0xdc, 0x2f, 0xa6, 0x5c,
    0x00, 0x06, 0x00, 0x00, 0x02, 0x58, 0x02, 0xbc, 0x00, 0x00, 0x00, 0x03, 0x00, 0x02, 0x00, 0x00,
    0x00, 0x00, 0x00, 0x00, 0x00, 0x01, 0x00, 0x00, 0x04, 0x00, 0xfe, 0x70, 0x00, 0x00, 0x02, 0x58,
    0x00, 0x06, 0xff, 0xff, 0x02, 0x58, 0x00, 0x01, 0x00, 0x00, 0x00, 0x00, 0x00, 0x00, 0x00, 0x00,
    0x00, 0x00, 0x00, 0x00, 0x00, 0x00, 0x00, 0x02, 0x00, 0x01, 0x00, 0x00, 0x00, 0x02, 0x00, 0x0b,
    0x00, 0x02, 0x00, 0x00, 0x00, 0x00, 0x00, 0x00, 0x00, 0x00, 0x00, 0x00, 0x00, 0x00, 0x00, 0x00,
    0x00, 0x00, 0x00, 0x00, 0x00, 0x00, 0x00, 0x00, 0x02, 0x58, 0x00, 0x64, 0x02, 0x1c, 0x00, 0x06,
    0x00, 0x00, 0x00, 0x01, 0x00, 0x00, 0x00, 0x03, 0x00, 0x00, 0x00, 0x0c, 0x00, 0x04, 0x00, 0x20,
    0x00, 0x00, 0x00, 0x04, 0x00, 0x04, 0x00, 0x01, 0x00, 0x00, 0x00, 0x41, 0xff, 0xff, 0x00, 0x00,
    0x00, 0x41, 0xff, 0xff, 0xff, 0xc0, 0x00, 0x01, 0x00, 0x00, 0x00, 0x00, 0x00, 0x00, 0x00, 0x14,
    0x00, 0x2e, 0x00, 0x00, 0x00, 0x02, 0x00, 0x64, 0x00, 0x00, 0x02, 0x58, 0x02, 0xbc, 0x00, 0x03,
    0x00, 0x07, 0x00, 0x00, 0x33, 0x11, 0x21, 0x11, 0x25, 0x21, 0x11, 0x21, 0x64, 0x01, 0xf4, 0xfe,
    0x34, 0x01, 0xa4, 0xfe, 0x5c, 0x02, 0xbc, 0xfd, 0x44, 0x28, 0x02, 0x6c, 0x00, 0x02, 0x00, 0x06,
    0x00, 0x00, 0x02, 0x1d, 0x02, 0x90, 0x00, 0x02, 0x00, 0x0a, 0x00, 0x00, 0x13, 0x33, 0x03, 0x01,
    0x13, 0x33, 0x13, 0x23, 0x27, 0x23, 0x07, 0xad, 0xc4, 0x63, 0xfe, 0xf8, 0xda, 0x60, 0xdd, 0x59,
    0x3e, 0xef, 0x42, 0x01, 0x0b, 0x01, 0x40, 0xfd, 0xb5, 0x02, 0x90, 0xfd, 0x70, 0xc8, 0xc8, 0x00,
];


#[test]
fn test_parse_bfchar() {
    let cmap_data = b"
            beginbfchar
            <01> <0041>
            <02> <0042>
            endbfchar
        ";
    let cmap = CMap::parse(cmap_data).unwrap();
    assert_eq!(cmap.mapping.get(&1).unwrap(), "A");
    assert_eq!(cmap.mapping.get(&2).unwrap(), "B");
    let decoded = cmap.decode_string(&[0x01, 0x02]);
    assert_eq!(decoded, "AB");
}

#[test]
fn test_parse_bfrange_sequential() {
    let cmap_data = b"
            beginbfrange
            <01> <05> <0041>
            endbfrange
        ";
    let cmap = CMap::parse(cmap_data).unwrap();
    assert_eq!(cmap.mapping.get(&1).unwrap(), "A");
    assert_eq!(cmap.mapping.get(&5).unwrap(), "E");
    let decoded = cmap.decode_string(&[0x01, 0x05]);
    assert_eq!(decoded, "AE");
}

#[test]
fn test_parse_bfrange_array() {
    let cmap_data = b"
            beginbfrange
            <01> <03> [ <0041> <0042> <0043> ]
            endbfrange
        ";
    let cmap = CMap::parse(cmap_data).unwrap();
    assert_eq!(cmap.mapping.get(&1).unwrap(), "A");
    assert_eq!(cmap.mapping.get(&2).unwrap(), "B");
    assert_eq!(cmap.mapping.get(&3).unwrap(), "C");
}

#[test]
fn hex_helpers_read_digits_and_utf16() {
    assert_eq!(hex_bytes_to_u32(b"00FF"), 255);
    assert_eq!(hex_bytes_to_u32(b"1a"), 26);
    assert_eq!(hex_bytes_to_unicode_string(b"00480069"), "Hi");
    assert_eq!(hex_bytes_to_unicode_string(b"D83DDE00"), "\u{1F600}");
    assert_eq!(u32_to_unicode_string(0x41), "A");
    assert_eq!(u32_to_unicode_string(0xD800), "\u{FFFD}");
    assert_eq!(u32_to_unicode_string(0x10041), "A");
}

#[test]
fn test_parse_invalid_truetype() {
    let garbage = b"Not a TrueType Font!";
    let result = TrueTypeFont::parse(garbage);
    assert!(matches!(result, Err(PdfError::InvalidTrueTypeFont(_))));
}

#[test]
fn truetype_glyph_width_of_mapped_and_unmapped_chars() {
    let font = TrueTypeFont::parse(&SMALL_FONT).unwrap();
    assert_eq!(font.get_glyph_width('A'), Some(540));
    assert_eq!(font.get_glyph_width('B'), None);
}

#[test]
fn checked_cmap_parse_refuses_unterminated_block_and_overflow() {
    assert!(CMap::parse_checked(b"beginbfchar <01> <0041>").is_none());
    assert!(CMap::parse_checked(b"beginbfrange <01> <02> <FFFFFFFF> endbfrange").is_none());
    let cmap = CMap::parse_checked(b"beginbfchar <01> <0041> endbfchar").unwrap().unwrap();
    assert_eq!(cmap.decode_string(&[1]), "A");
    assert!(matches!(CMap::parse_checked(b"beginbfchar <01> /A endbfchar"), Some(Err(PdfError::InvalidCMap))));
}
