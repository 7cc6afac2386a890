use pdf_engine_core::ast_parser::{parse_object_bytes, Parser};
use pdf_engine_core::edit::serialize_object;
use pdf_engine_core::lexer::Lexer;
use pdf_engine_core::object::{ObjectId, PdfDictionary, PdfObject};

fn read_back(obj: &PdfObject) -> PdfObject {
    let bytes = serialize_object(obj);
    let mut parser = Parser::new(Lexer::new(&bytes)).unwrap();
    parser.parse_object().unwrap()
}

#[test]
fn written_dictionary_reads_back() {
    let mut inner = PdfDictionary::new();
    inner.insert("A", PdfObject::Name("B".to_string()));
    let mut dict = PdfDictionary::new();
    dict.insert("Type", PdfObject::Name("Page".to_string()));
    dict.insert("Count", PdfObject::Integer(3));
    dict.insert(
        "Kids",
        PdfObject::Array(vec![
            PdfObject::Reference(ObjectId { object_number: 1, generation_number: 0 }),
            PdfObject::Integer(-7),
            PdfObject::Integer(0),
            PdfObject::Reference(ObjectId { object_number: 12, generation_number: 3 }),
            PdfObject::Boolean(true),
            PdfObject::Null,
            PdfObject::String(b"Hi there".to_vec()),
        ]),
    );
    dict.insert("Nested", PdfObject::Dictionary(inner));
    let obj = PdfObject::Dictionary(dict);
    assert_eq!(read_back(&obj), obj);
}

#[test]
fn written_scalars_read_back() {
    let values = vec![
        PdfObject::Null,
        PdfObject::Boolean(false),
        PdfObject::Integer(i32::MIN),
        PdfObject::Integer(i32::MAX),
        PdfObject::Name("Font1".to_string()),
        PdfObject::Name("Caf\u{e9}".to_string()),
        PdfObject::String(b"plain".to_vec()),
        PdfObject::Reference(ObjectId { object_number: u32::MAX, generation_number: u16::MAX }),
        PdfObject::Array(vec![]),
        PdfObject::Array(vec![PdfObject::Integer(1), PdfObject::Integer(2)]),
    ];
    for v in values {
        assert_eq!(read_back(&v), v);
        assert_eq!(parse_object_bytes(&serialize_object(&v)).unwrap(), v);
    }
}
