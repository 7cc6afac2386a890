use pdf_engine_core::ast_parser::Parser;
use pdf_engine_core::error::PdfError;
use pdf_engine_core::lexer::Lexer;
use pdf_engine_core::object::{ObjectId, PdfObject, PdfReal};

#[test]
fn test_parse_primitives() {
    let lexer = Lexer::new(b"/Name (String) 123 -4.5 true false null");
    let mut parser = Parser::new(lexer).unwrap();

    assert_eq!(parser.parse_object().unwrap(), PdfObject::Name("Name".into()));
    assert_eq!(parser.parse_object().unwrap(), PdfObject::String(b"String".to_vec()));
    assert_eq!(parser.parse_object().unwrap(), PdfObject::Integer(123));
    assert_eq!(parser.parse_object().unwrap(), PdfObject::Real(PdfReal::from_scaled(-45, 1)));
    assert_eq!(parser.parse_object().unwrap(), PdfObject::Boolean(true));
    assert_eq!(parser.parse_object().unwrap(), PdfObject::Boolean(false));
    assert_eq!(parser.parse_object().unwrap(), PdfObject::Null);
}

#[test]
fn test_parse_reference() {
    let lexer = Lexer::new(b"10 0 R");
    let mut parser = Parser::new(lexer).unwrap();

    assert_eq!(parser.parse_object().unwrap(), PdfObject::Reference(ObjectId {
        object_number: 10,
        generation_number: 0,
    }));
}

#[test]
fn test_parse_indirect_object() {
    let lexer = Lexer::new(b"10 0 obj\n/Page\nendobj");
    let mut parser = Parser::new(lexer).unwrap();

    assert_eq!(parser.parse_object().unwrap(), PdfObject::Name("Page".into()));
}

#[test]
fn test_parse_stream() {
    let lexer = Lexer::new(b"<< /Length 11 >>\nstream\nHELLO WORLD\nendstream");
    let mut parser = Parser::new(lexer).unwrap();

    let obj = parser.parse_object().unwrap();
    if let PdfObject::Stream(s) = obj {
        assert_eq!(s.dict.get("Length").unwrap(), &PdfObject::Integer(11));
        assert_eq!(s.data, b"HELLO WORLD");
    } else {
        panic!("Expected Stream");
    }
}

#[test]
fn test_parse_array() {
    let lexer = Lexer::new(b"[ 1 2 /Three ]");
    let mut parser = Parser::new(lexer).unwrap();

    let obj = parser.parse_object().unwrap();
    if let PdfObject::Array(arr) = obj {
        assert_eq!(arr.len(), 3);
        assert_eq!(arr[2], PdfObject::Name("Three".into()));
    } else {
        panic!("Expected array");
    }
}

#[test]
fn test_parse_dictionary() {
    let lexer = Lexer::new(b"<< /Type /Page /Count 3 >>");
    let mut parser = Parser::new(lexer).unwrap();

    let obj = parser.parse_object().unwrap();
    if let PdfObject::Dictionary(dict) = obj {
        assert_eq!(dict.get("Type").unwrap(), &PdfObject::Name("Page".into()));
        assert_eq!(dict.get("Count").unwrap(), &PdfObject::Integer(3));
    } else {
        panic!("Expected dictionary");
    }
}

#[test]
fn parse_reals_are_exact_decimals() {
    let mut parser = Parser::new(Lexer::new(b"0.10 .5 -0.0 5. 3000000000")).unwrap();
    assert_eq!(parser.parse_object().unwrap(), PdfObject::Real(PdfReal::from_scaled(1, 1)));
    assert_eq!(parser.parse_object().unwrap(), PdfObject::Real(PdfReal::from_scaled(5, 1)));
    assert_eq!(parser.parse_object().unwrap(), PdfObject::Real(PdfReal::from_scaled(0, 0)));
    assert_eq!(parser.parse_object().unwrap(), PdfObject::Real(PdfReal::from_scaled(5, 0)));
    assert_eq!(parser.parse_object().unwrap(), PdfObject::Real(PdfReal::from_scaled(3000000000, 0)));
}

#[test]
fn parse_bad_number_is_syntax_error() {
    let mut parser = Parser::new(Lexer::new(b"1.2.3")).unwrap();
    assert_eq!(
        parser.parse_object(),
        Err(PdfError::InvalidSyntax("Invalid number format: 1.2.3".to_string()))
    );
}

#[test]
fn parse_errors_of_each_kind() {
    let mut p = Parser::new(Lexer::new(b"")).unwrap();
    assert_eq!(p.parse_object(), Err(PdfError::UnexpectedEof));
    let mut p = Parser::new(Lexer::new(b"<< 1 2 >>")).unwrap();
    assert_eq!(p.parse_object(), Err(PdfError::ExpectedDictKeyName));
    let mut p = Parser::new(Lexer::new(b"foo")).unwrap();
    assert_eq!(p.parse_object(), Err(PdfError::UnexpectedToken));
    let mut p = Parser::new(Lexer::new(b"1 0 obj 5 foo")).unwrap();
    assert_eq!(p.parse_object(), Err(PdfError::UnexpectedEndObj));
    let mut p = Parser::new(Lexer::new(b"[ 1 2")).unwrap();
    assert_eq!(p.parse_object(), Err(PdfError::UnexpectedEof));
    let mut p = Parser::new(Lexer::new(b"99999999999 0 R")).unwrap();
    assert_eq!(p.parse_object(), Err(PdfError::UnexpectedToken));
}

#[test]
fn parse_nested_structures() {
    let mut p = Parser::new(Lexer::new(b"<< /A [ 1 << /B 2 0 R >> ] /A 7 >>")).unwrap();
    if let PdfObject::Dictionary(d) = p.parse_object().unwrap() {
        assert_eq!(d.len(), 1);
        assert_eq!(d.get("A"), Some(&PdfObject::Integer(7)));
    } else {
        panic!("Expected dictionary");
    }
}
