use flate2::write::ZlibEncoder;
use flate2::Compression;
use pdf_engine_core::error::PdfError;
use pdf_engine_core::filter::decode_stream;
use pdf_engine_core::object::{PdfDictionary, PdfObject, PdfStream};
use std::io::Write;

#[test]
fn test_no_filter() {
    let stream = PdfStream { dict: PdfDictionary::new(), data: b"Hello World".to_vec() };
    let decoded = decode_stream(&stream).unwrap();
    assert_eq!(decoded, b"Hello World");
}

#[test]
fn test_flate_decode() {
    let mut encoder = ZlibEncoder::new(Vec::new(), Compression::default());
    encoder.write_all(b"Compressed PDF stream data!").unwrap();
    let compressed_bytes = encoder.finish().unwrap();
    let mut dict = PdfDictionary::new();
    dict.insert("Filter", PdfObject::Name("FlateDecode".into()));
    let stream = PdfStream { dict, data: compressed_bytes };
    let decoded = decode_stream(&stream).unwrap();
    assert_eq!(decoded, b"Compressed PDF stream data!");
}

#[test]
fn test_ascii_hex_decode() {
    let mut dict = PdfDictionary::new();
    dict.insert("Filter", PdfObject::Name("ASCIIHexDecode".into()));
    let stream = PdfStream { dict, data: b"48 656c6c6F>".to_vec() };
    let decoded = decode_stream(&stream).unwrap();
    assert_eq!(decoded, b"Hello");
}

#[test]
fn test_unsupported_filter() {
    let mut dict = PdfDictionary::new();
    dict.insert("Filter", PdfObject::Name("LZWDecode".into()));
    let stream = PdfStream { dict, data: b"fake lzw data".to_vec() };
    let result = decode_stream(&stream);
    assert!(matches!(result, Err(PdfError::UnsupportedFilter(_))));
}

#[test]
fn ascii_hex_odd_digit_count_pads_with_zero() {
    let mut dict = PdfDictionary::new();
    dict.insert("Filter", PdfObject::Name("AHx".into()));
    let stream = PdfStream { dict, data: b"4 1 7".to_vec() };
    assert_eq!(decode_stream(&stream).unwrap(), vec![0x41, 0x70]);
}

#[test]
fn ascii_hex_invalid_character_is_refused() {
    let mut dict = PdfDictionary::new();
    dict.insert("Filter", PdfObject::Name("ASCIIHexDecode".into()));
    let stream = PdfStream { dict, data: b"4G".to_vec() };
    assert_eq!(
        decode_stream(&stream),
        Err(PdfError::FilterDecodeError("Invalid character in ASCIIHexDecode".into()))
    );
}

#[test]
fn filter_chain_applies_in_order() {
    let mut encoder = ZlibEncoder::new(Vec::new(), Compression::default());
    encoder.write_all(b"414243>").unwrap();
    let compressed = encoder.finish().unwrap();
    let mut dict = PdfDictionary::new();
    dict.insert(
        "Filter",
        PdfObject::Array(vec![
            PdfObject::Name("FlateDecode".into()),
            PdfObject::Name("ASCIIHexDecode".into()),
        ]),
    );
    let stream = PdfStream { dict, data: compressed };
    assert_eq!(decode_stream(&stream).unwrap(), b"ABC");
}

#[test]
fn filter_errors_name_the_problem() {
    let mut dict = PdfDictionary::new();
    dict.insert("Filter", PdfObject::Integer(3));
    let stream = PdfStream { dict, data: vec![] };
    assert_eq!(
        decode_stream(&stream),
        Err(PdfError::InvalidSyntax("Filter must be a Name or Array of Names".into()))
    );
    let mut dict = PdfDictionary::new();
    dict.insert("Filter", PdfObject::Array(vec![PdfObject::Integer(3)]));
    let stream = PdfStream { dict, data: vec![] };
    assert_eq!(
        decode_stream(&stream),
        Err(PdfError::InvalidSyntax("Filter array contains non-Name object".into()))
    );
    let mut dict = PdfDictionary::new();
    dict.insert("Filter", PdfObject::Name("A85".into()));
    let stream = PdfStream { dict, data: vec![] };
    assert_eq!(decode_stream(&stream), Err(PdfError::UnsupportedFilter("ASCII85Decode".into())));
}

#[test]
fn broken_flate_data_is_a_decode_error() {
    let mut dict = PdfDictionary::new();
    dict.insert("Filter", PdfObject::Name("Fl".into()));
    let stream = PdfStream { dict, data: b"not zlib".to_vec() };
    assert!(matches!(decode_stream(&stream), Err(PdfError::FilterDecodeError(_))));
}
