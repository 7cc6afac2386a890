use pdf_engine_core::content::{parse_content_stream, parse_page_contents, ContentOperation};
use pdf_engine_core::document::PdfDocument;
use pdf_engine_core::edit::{replace_text_in_operations, serialize_content_operations, serialize_object};
use pdf_engine_core::error::PdfError;
use pdf_engine_core::object::{ObjectId, PdfDictionary, PdfObject, PdfReal, PdfStream};
use pdf_engine_core::xref::XrefEntry;

#[test]
fn test_parse_content_stream() {
    let stream_data = b"0.1 0 0 0.1 100 200 cm\n/F1 12 Tf\n(Hello World) Tj\n";
    let ops = parse_content_stream(stream_data).unwrap();

    assert_eq!(ops.len(), 3);

    assert_eq!(ops[0].operator, "cm");
    assert_eq!(ops[0].operands.len(), 6);
    assert_eq!(ops[0].operands[0], PdfObject::Real(PdfReal::from_scaled(1, 1)));
    assert_eq!(ops[0].operands[4], PdfObject::Integer(100));

    assert_eq!(ops[1].operator, "Tf");
    assert_eq!(ops[1].operands.len(), 2);
    assert_eq!(ops[1].operands[0], PdfObject::Name("F1".to_string()));
    assert_eq!(ops[1].operands[1], PdfObject::Integer(12));

    assert_eq!(ops[2].operator, "Tj");
    assert_eq!(ops[2].operands.len(), 1);
    assert_eq!(ops[2].operands[0], PdfObject::String(b"Hello World".to_vec()));
}

#[test]
fn content_arrays_booleans_and_dropped_numbers() {
    let ops = parse_content_stream(b"[(A) -120 <42> /N] TJ true null 1.2.3 q").unwrap();
    assert_eq!(ops.len(), 2);
    assert_eq!(ops[0].operator, "TJ");
    assert_eq!(
        ops[0].operands,
        vec![PdfObject::Array(vec![
            PdfObject::String(b"A".to_vec()),
            PdfObject::Integer(-120),
            PdfObject::String(b"42".to_vec()),
            PdfObject::Name("N".into()),
        ])]
    );
    assert_eq!(ops[1].operator, "q");
    assert_eq!(ops[1].operands, vec![PdfObject::Boolean(true), PdfObject::Null]);
}

#[test]
fn content_errors() {
    assert_eq!(
        parse_content_stream(b"<< /W 1 >> BI"),
        Err(PdfError::InvalidSyntax("Inline Image Dictionaries (EI) not yet supported".into()))
    );
    assert_eq!(
        parse_content_stream(b"[ [ 1 ] ] Tj"),
        Err(PdfError::InvalidSyntax(
            "Complex nested objects in content stream array not fully supported yet".into()
        ))
    );
    assert_eq!(parse_content_stream(b"] Tj"), Err(PdfError::UnexpectedToken));
    assert_eq!(parse_content_stream(b"1 2 (open"), Err(PdfError::UnexpectedEof));
}

#[test]
fn trailing_operands_belong_to_no_operation() {
    let ops = parse_content_stream(b"1 0 0 RG 5 6").unwrap();
    assert_eq!(ops.len(), 1);
    assert_eq!(ops[0].operands.len(), 3);
}

fn page_document() -> PdfDocument {
    let pdf_data = b"%PDF-1.4\n\
1 0 obj\n<< /Type /Page /Contents [ 2 0 R 3 0 R ] >>\nendobj\n\
2 0 obj\n<< /Length 5 >>\nstream\nBT q\nendstream\nendobj\n\
3 0 obj\n<< /Filter /ASCIIHexDecode >>\nstream\n4554>\nendstream\nendobj\n";
    let text = std::str::from_utf8(pdf_data).unwrap();
    let mut doc = PdfDocument::from_bytes(pdf_data.to_vec()).unwrap();
    for n in 1..=3u32 {
        let off = text.find(&format!("{} 0 obj", n)).unwrap() as u64;
        doc.xref_table.entries.insert(n, XrefEntry::InUse { byte_offset: off, generation_number: 0 });
    }
    doc
}

#[test]
fn page_contents_join_decoded_streams() {
    let doc = page_document();
    let ops = parse_page_contents(&doc, ObjectId { object_number: 1, generation_number: 0 }).unwrap();
    let names: Vec<&str> = ops.iter().map(|o| o.operator.as_str()).collect();
    assert_eq!(names, vec!["BT", "q", "ET"]);
}

#[test]
fn page_contents_errors() {
    let doc = page_document();
    assert_eq!(
        parse_page_contents(&doc, ObjectId { object_number: 2, generation_number: 0 }),
        Err(PdfError::InvalidPageTree)
    );
    assert_eq!(
        parse_page_contents(&doc, ObjectId { object_number: 3, generation_number: 0 }),
        Err(PdfError::InvalidPageTree)
    );
    assert_eq!(
        parse_page_contents(&doc, ObjectId { object_number: 9, generation_number: 0 }),
        Err(PdfError::ObjectNotFound(9))
    );
}

#[test]
fn test_serialize_objects() {
    assert_eq!(serialize_object(&PdfObject::Integer(42)), b"42");
    assert_eq!(serialize_object(&PdfObject::Name("Font1".into())), b"/Font1");
    assert_eq!(
        serialize_object(&PdfObject::String(b"Hello (World)".to_vec())),
        b"(Hello \\(World\\))"
    );
}

#[test]
fn serialize_every_kind_of_object() {
    assert_eq!(serialize_object(&PdfObject::Null), b"null");
    assert_eq!(serialize_object(&PdfObject::Boolean(false)), b"false");
    assert_eq!(serialize_object(&PdfObject::Integer(-7)), b"-7");
    assert_eq!(serialize_object(&PdfObject::Real(PdfReal::from_scaled(-45, 1))), b"-4.5");
    assert_eq!(serialize_object(&PdfObject::Real(PdfReal::from_scaled(5, 3))), b"0.005");
    assert_eq!(serialize_object(&PdfObject::Real(PdfReal::from_scaled(1200, 1))), b"120");
    assert_eq!(
        serialize_object(&PdfObject::Array(vec![PdfObject::Integer(1), PdfObject::Null])),
        b"[ 1 null ]"
    );
    let mut dict = PdfDictionary::new();
    dict.insert("Type", PdfObject::Name("Page".into()));
    dict.insert("P", PdfObject::Reference(ObjectId { object_number: 3, generation_number: 1 }));
    assert_eq!(serialize_object(&PdfObject::Dictionary(dict)), b"<<\n/Type /Page\n/P 3 1 R\n>>");
    let stream = PdfStream { dict: PdfDictionary::new(), data: b"xy".to_vec() };
    assert_eq!(serialize_object(&PdfObject::Stream(stream)), b"<<\n>>\nstream\nxy\nendstream");
    assert_eq!(serialize_object(&PdfObject::String(b"a\\b".to_vec())), b"(a\\\\b)");
}

#[test]
fn test_replace_text() {
    let mut ops = vec![
        ContentOperation {
            operator: "Tf".into(),
            operands: vec![PdfObject::Name("F1".into()), PdfObject::Integer(12)],
        },
        ContentOperation { operator: "Tj".into(), operands: vec![PdfObject::String(b"Hello".to_vec())] },
    ];
    let count = replace_text_in_operations(&mut ops, "Hello", "Goodbye");
    assert_eq!(count, 1);
    let serialized = serialize_content_operations(&ops);
    let expected = b"/F1 12 Tf\n(Goodbye) Tj\n";
    assert_eq!(serialized, expected);
}

#[test]
fn replace_in_tj_arrays_then_nothing_is_left() {
    let mut ops = vec![
        ContentOperation {
            operator: "TJ".into(),
            operands: vec![PdfObject::Array(vec![
                PdfObject::String(b"ab".to_vec()),
                PdfObject::Integer(-50),
                PdfObject::String(b"ab".to_vec()),
            ])],
        },
        ContentOperation { operator: "Td".into(), operands: vec![PdfObject::String(b"ab".to_vec())] },
    ];
    assert_eq!(replace_text_in_operations(&mut ops, "ab", "cd"), 2);
    assert_eq!(replace_text_in_operations(&mut ops, "ab", "cd"), 0);
    assert_eq!(ops[1].operands[0], PdfObject::String(b"ab".to_vec()));
    assert_eq!(serialize_content_operations(&ops), b"[ (cd) -50 (cd) ] TJ\n(ab) Td\n");
}

#[test]
fn replace_with_same_text_changes_nothing() {
    let mut ops = parse_content_stream(b"(x) Tj [(x)] TJ").unwrap();
    let before = serialize_content_operations(&ops);
    assert_eq!(replace_text_in_operations(&mut ops, "x", "x"), 2);
    assert_eq!(serialize_content_operations(&ops), before);
}
