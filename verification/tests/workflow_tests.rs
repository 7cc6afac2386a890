use pdf_engine_core::catalog::DocumentCatalog;
use pdf_engine_core::content::{page_operations, parse_page_contents};
use pdf_engine_core::document::PdfDocument;
use pdf_engine_core::edit::{count_text_matches, replace_text_in_operations, serialize_content_operations};
use pdf_engine_core::graphics::operation_text;
use pdf_engine_core::image::bgra_to_rgba;
use pdf_engine_core::object::{ObjectId, PdfDictionary, PdfObject};
use pdf_engine_core::xref::XrefEntry;

const ONE_PAGE: &[u8] = b"%PDF-1.4\n\
1 0 obj\n<< /Type /Catalog /Pages 2 0 R >>\nendobj\n\
2 0 obj\n<< /Type /Pages /Kids [ 3 0 R ] >>\nendobj\n\
3 0 obj\n<< /Type /Page /Contents 4 0 R >>\nendobj\n\
4 0 obj\n<< /Length 45 >>\nstream\n\
BT\n\
/F1 12 Tf\n\
100 200 Td\n\
(Hello World) Tj\n\
ET\n\
endstream\nendobj\n\
xref\n0 5\n\
0000000000 65535 f \n\
0000000009 00000 n \n\
0000000051 00000 n \n\
0000000087 00000 n \n\
0000000129 00000 n \n\
trailer\n<< /Size 5 /Root 1 0 R >>\nstartxref\n199\n%%EOF";

fn one_page_document() -> PdfDocument {
    let mut doc = PdfDocument::from_bytes(ONE_PAGE.to_vec()).unwrap();
    let text = std::str::from_utf8(ONE_PAGE).unwrap();
    for n in 1..=4u32 {
        let off = text.find(&format!("{} 0 obj", n)).unwrap() as u64;
        doc.xref_table.entries.insert(n, XrefEntry::InUse { byte_offset: off, generation_number: 0 });
    }
    let mut trailer = PdfDictionary::new();
    trailer.insert("Root", PdfObject::Reference(ObjectId { object_number: 1, generation_number: 0 }));
    doc.xref_table.trailer_dict = Some(trailer);
    doc
}

/// Open, list pages, read the page's text, replace it, serialize and rewrite.
#[test]
fn document_lifecycle_without_rendering() {
    let doc = one_page_document();
    let pages = DocumentCatalog::get_all_pages(&doc).unwrap();
    assert_eq!(pages.len(), 1);
    let mut ops = parse_page_contents(&doc, pages[0]).unwrap();
    let texts: Vec<String> = ops.iter().filter_map(operation_text).collect();
    assert_eq!(texts, vec!["Hello World".to_string()]);

    assert_eq!(count_text_matches(&ops, "Hello World"), Some(1));
    let replacements = replace_text_in_operations(&mut ops, "Hello World", "PDFgear Rules");
    assert_eq!(replacements, 1);
    assert_eq!(count_text_matches(&ops, "Hello World"), Some(0));

    let new_stream_bytes = serialize_content_operations(&ops);
    assert!(String::from_utf8_lossy(&new_stream_bytes).contains("PDFgear Rules"));

    let out = doc.optimized_file_bytes().unwrap();
    assert!(out.starts_with(b"%PDF-1.4\n"));
    assert!(String::from_utf8_lossy(&out).contains("(Hello World) Tj"));
}

#[test]
fn page_operations_by_index() {
    let doc = one_page_document();
    let ops = page_operations(&doc, 0, 16).unwrap();
    assert_eq!(ops.len(), 5);
    assert_eq!(ops[3].operator, "Tj");
    assert!(page_operations(&doc, 1, 16).is_none());
    assert!(page_operations(&doc, 0, 0).is_none());
}

#[test]
fn bounded_page_listing_stops_on_a_cycle() {
    let data: &[u8] = b"%PDF-1.4\n\
1 0 obj\n<< /Type /Catalog /Pages 2 0 R >>\nendobj\n\
2 0 obj\n<< /Type /Pages /Kids [ 2 0 R ] >>\nendobj\n";
    let text = std::str::from_utf8(data).unwrap();
    let mut doc = PdfDocument::from_bytes(data.to_vec()).unwrap();
    for n in 1..=2u32 {
        let off = text.find(&format!("{} 0 obj", n)).unwrap() as u64;
        doc.xref_table.entries.insert(n, XrefEntry::InUse { byte_offset: off, generation_number: 0 });
    }
    let mut trailer = PdfDictionary::new();
    trailer.insert("Root", PdfObject::Reference(ObjectId { object_number: 1, generation_number: 0 }));
    doc.xref_table.trailer_dict = Some(trailer);
    assert!(DocumentCatalog::get_pages_within(&doc, 50).is_none());
}

#[test]
fn bounded_page_listing_matches_full_listing() {
    let doc = one_page_document();
    let full = DocumentCatalog::get_all_pages(&doc);
    assert_eq!(DocumentCatalog::get_pages_within(&doc, 2), Some(full));
    assert_eq!(DocumentCatalog::get_pages_within(&doc, 1), None);
}

#[test]
fn bgra_bytes_become_rgba() {
    let bgra = [1u8, 2, 3, 4, 10, 20, 30, 40, 99];
    assert_eq!(bgra_to_rgba(&bgra), vec![3, 2, 1, 4, 30, 20, 10, 40]);
    assert_eq!(bgra_to_rgba(&[]), Vec::<u8>::new());
}
