use pdf_engine_core::catalog::DocumentCatalog;
use pdf_engine_core::document::PdfDocument;
use pdf_engine_core::error::PdfError;
use pdf_engine_core::object::{ObjectId, PdfDictionary, PdfObject};
use pdf_engine_core::xref::XrefEntry;

#[test]
fn document_test_valid_pdf_signature() {
    let doc = PdfDocument::from_bytes(b"%PDF-1.4\n%binary data\n".to_vec()).unwrap();
    assert_eq!(doc.version, "1.4");
}

#[test]
fn document_test_valid_pdf_signature_offset() {
    let doc = PdfDocument::from_bytes(b"garbage bytes \r\n%PDF-1.7\n%binary data\n".to_vec()).unwrap();
    assert_eq!(doc.version, "1.7");
}

#[test]
fn document_test_invalid_pdf_signature() {
    let result = PdfDocument::from_bytes(b"PK\x03\x04This is a zip file, not a PDF".to_vec());
    assert!(matches!(result, Err(PdfError::InvalidFileSignature)));
}

#[test]
fn document_test_file_too_small() {
    let result = PdfDocument::from_bytes(b"123".to_vec());
    assert!(matches!(result, Err(PdfError::FileTooSmall)));
}

#[test]
fn lib_test_valid_pdf_signature() {
    let doc = PdfDocument::from_bytes(b"%PDF-1.4\n%binary data\n".to_vec()).unwrap();
    assert_eq!(doc.version, "1.4");
}

#[test]
fn lib_test_valid_pdf_signature_offset() {
    let doc = PdfDocument::from_bytes(b"garbage bytes \r\n%PDF-1.7\n%binary data\n".to_vec()).unwrap();
    assert_eq!(doc.version, "1.7");
}

#[test]
fn lib_test_invalid_pdf_signature() {
    let result = PdfDocument::from_bytes(b"PK\x03\x04This is a zip file, not a PDF".to_vec());
    assert!(matches!(result, Err(PdfError::InvalidFileSignature)));
}

#[test]
fn lib_test_file_too_small() {
    let result = PdfDocument::from_bytes(b"123".to_vec());
    assert!(matches!(result, Err(PdfError::FileTooSmall)));
}

#[test]
fn test_get_raw_object_bytes() {
    let data = b"%PDF-1.4\n%binary\n10 0 obj\n<< /Type /Page >>\nendobj\n";
    let mut doc = PdfDocument::from_bytes(data.to_vec()).unwrap();
    doc.xref_table.entries.insert(10, XrefEntry::InUse { byte_offset: 17, generation_number: 0 });
    let obj_id = ObjectId { object_number: 10, generation_number: 0 };
    let bytes = doc.get_raw_object_bytes(obj_id).unwrap();
    assert_eq!(bytes, b"10 0 obj\n<< /Type /Page >>\nendobj");
}

#[test]
fn raw_object_errors_follow_the_table() {
    let data = b"%PDF-1.4\n%binary\n10 0 obj\n<< /Type /Page >>\n";
    let mut doc = PdfDocument::from_bytes(data.to_vec()).unwrap();
    let id = |n| ObjectId { object_number: n, generation_number: 0 };
    assert_eq!(doc.get_raw_object_bytes(id(10)), Err(PdfError::ObjectNotFound(10)));
    doc.xref_table.entries.insert(10, XrefEntry::InUse { byte_offset: 17, generation_number: 0 });
    assert_eq!(doc.get_raw_object_bytes(id(10)), Err(PdfError::MalformedIndirectObject(10)));
    doc.xref_table.entries.insert(11, XrefEntry::Free { next_free_object: 0, generation_number: 1 });
    assert_eq!(doc.get_raw_object_bytes(id(11)), Err(PdfError::ObjectIsFree(11)));
    doc.xref_table.entries.insert(
        12,
        XrefEntry::Compressed { object_stream_num: 5, index_in_stream: 0 },
    );
    assert_eq!(doc.get_raw_object_bytes(id(12)), Err(PdfError::ObjectRequiresDecompression(12)));
    doc.xref_table.entries.insert(13, XrefEntry::InUse { byte_offset: 1000, generation_number: 0 });
    assert_eq!(doc.get_raw_object_bytes(id(13)), Err(PdfError::MalformedIndirectObject(13)));
}

#[test]
fn header_without_line_end_takes_rest_of_window() {
    let doc = PdfDocument::from_bytes(b"%PDF-2.0 trailing".to_vec()).unwrap();
    assert_eq!(doc.version, "2.0");
    assert_eq!(doc.data(), b"%PDF-2.0 trailing");
}

#[test]
fn test_traverse_page_tree() {
    let pdf_data = b"%PDF-1.4\n\
1 0 obj\n<< /Type /Catalog /Pages 2 0 R >>\nendobj\n\
2 0 obj\n<< /Type /Pages /Kids [ 3 0 R 4 0 R ] >>\nendobj\n\
3 0 obj\n<< /Type /Page >>\nendobj\n\
4 0 obj\n<< /Type /Page >>\nendobj\n";
    let mut doc = PdfDocument::from_bytes(pdf_data.to_vec()).unwrap();
    doc.xref_table.entries.insert(1, XrefEntry::InUse { byte_offset: 9, generation_number: 0 });
    doc.xref_table.entries.insert(2, XrefEntry::InUse { byte_offset: 58, generation_number: 0 });
    doc.xref_table.entries.insert(3, XrefEntry::InUse { byte_offset: 114, generation_number: 0 });
    doc.xref_table.entries.insert(4, XrefEntry::InUse { byte_offset: 147, generation_number: 0 });
    let mut trailer = PdfDictionary::new();
    trailer.insert(
        "Root",
        PdfObject::Reference(ObjectId { object_number: 1, generation_number: 0 }),
    );
    doc.xref_table.trailer_dict = Some(trailer);

    let pages = DocumentCatalog::get_all_pages(&mut doc).unwrap();
    assert_eq!(pages.len(), 2);
    assert_eq!(pages[0].object_number, 3);
    assert_eq!(pages[1].object_number, 4);
}

#[test]
fn page_tree_without_trailer_or_root_is_refused() {
    let pdf_data = b"%PDF-1.4\n1 0 obj\n<< /Type /Catalog >>\nendobj\n";
    let mut doc = PdfDocument::from_bytes(pdf_data.to_vec()).unwrap();
    assert_eq!(DocumentCatalog::get_all_pages(&doc), Err(PdfError::InvalidTrailer));
    doc.xref_table.trailer_dict = Some(PdfDictionary::new());
    assert_eq!(DocumentCatalog::get_all_pages(&doc), Err(PdfError::MissingRoot));
    let mut trailer = PdfDictionary::new();
    trailer.insert(
        "Root",
        PdfObject::Reference(ObjectId { object_number: 1, generation_number: 0 }),
    );
    doc.xref_table.trailer_dict = Some(trailer);
    doc.xref_table.entries.insert(1, XrefEntry::InUse { byte_offset: 9, generation_number: 0 });
    assert_eq!(DocumentCatalog::get_all_pages(&doc), Err(PdfError::InvalidPageTree));
}

#[test]
fn parse_object_from_stream_reads_an_indirect_object() {
    let pdf_data = b"%PDF-1.4\n1 0 obj\n<< /Type /Catalog >>\nendobj\n";
    let mut doc = PdfDocument::from_bytes(pdf_data.to_vec()).unwrap();
    doc.xref_table.entries.insert(1, XrefEntry::InUse { byte_offset: 9, generation_number: 0 });
    let obj = doc.parse_object_from_stream(ObjectId { object_number: 1, generation_number: 0 }).unwrap();
    let mut expected = PdfDictionary::new();
    expected.insert("Type", PdfObject::Name("Catalog".to_string()));
    assert_eq!(obj, PdfObject::Dictionary(expected));
    assert_eq!(
        doc.parse_object_from_stream(ObjectId { object_number: 2, generation_number: 0 }),
        Err(PdfError::ObjectNotFound(2))
    );
}
