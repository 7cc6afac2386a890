use pdf_engine_core::error::PdfError;
use pdf_engine_core::image::{decode_jpeg, load_image_xobject};
use pdf_engine_core::object::{PdfDictionary, PdfObject};

#[test]
fn test_unsupported_image_filter() {
    let mut dict = PdfDictionary::new();
    dict.insert("Filter", PdfObject::Name("JPXDecode".into()));
    let result = load_image_xobject(&dict, b"fake data");
    assert!(matches!(result, Err(PdfError::UnsupportedFilter(_))));
    assert_eq!(result, Err(PdfError::UnsupportedFilter("Image Filter: JPXDecode".to_string())));
}

#[test]
fn image_without_filter_is_unsupported() {
    let dict = PdfDictionary::new();
    let result = load_image_xobject(&dict, b"raw");
    assert_eq!(result, Err(PdfError::UnsupportedFilter("Image Filter: None".to_string())));
}

#[test]
fn garbage_jpeg_is_a_decode_error() {
    match decode_jpeg(b"definitely not a jpeg") {
        Err(PdfError::FilterDecodeError(msg)) => assert!(msg.starts_with("JPEG Decode error: ")),
        other => panic!("unexpected {:?}", other),
    }
    let mut dict = PdfDictionary::new();
    dict.insert("Filter", PdfObject::Name("DCTDecode".into()));
    assert!(matches!(load_image_xobject(&dict, b"xx"), Err(PdfError::FilterDecodeError(_))));
}
