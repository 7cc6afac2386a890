use pdf_engine_core::lexer::{Lexer, PdfToken};

#[test]
fn test_lex_dict() {
    let data = b"<< /Type /Page /Count 3 >>";
    let mut lexer = Lexer::new(data);

    assert_eq!(lexer.next_token().unwrap(), Some(PdfToken::DictStart));
    assert_eq!(lexer.next_token().unwrap(), Some(PdfToken::Name("Type".into())));
    assert_eq!(lexer.next_token().unwrap(), Some(PdfToken::Name("Page".into())));
    assert_eq!(lexer.next_token().unwrap(), Some(PdfToken::Name("Count".into())));
    assert_eq!(lexer.next_token().unwrap(), Some(PdfToken::Number("3".into())));
    assert_eq!(lexer.next_token().unwrap(), Some(PdfToken::DictEnd));
    assert_eq!(lexer.next_token().unwrap(), None);
}

#[test]
fn test_lex_strings() {
    let data = b"(Hello World) <48656C6C6F>";
    let mut lexer = Lexer::new(data);

    assert_eq!(lexer.next_token().unwrap(), Some(PdfToken::StringLiteral(b"Hello World".to_vec())));
    assert_eq!(lexer.next_token().unwrap(), Some(PdfToken::HexString(b"48656C6C6F".to_vec())));
}

#[test]
fn test_lex_array_and_keywords() {
    let data = b"[ 1 0 R true false null ] % comment\n obj";
    let mut lexer = Lexer::new(data);

    assert_eq!(lexer.next_token().unwrap(), Some(PdfToken::ArrayStart));
    assert_eq!(lexer.next_token().unwrap(), Some(PdfToken::Number("1".into())));
    assert_eq!(lexer.next_token().unwrap(), Some(PdfToken::Number("0".into())));
    assert_eq!(lexer.next_token().unwrap(), Some(PdfToken::Keyword("R".into())));
    assert_eq!(lexer.next_token().unwrap(), Some(PdfToken::Keyword("true".into())));
    assert_eq!(lexer.next_token().unwrap(), Some(PdfToken::Keyword("false".into())));
    assert_eq!(lexer.next_token().unwrap(), Some(PdfToken::Keyword("null".into())));
    assert_eq!(lexer.next_token().unwrap(), Some(PdfToken::ArrayEnd));
    assert_eq!(lexer.next_token().unwrap(), Some(PdfToken::Keyword("obj".into())));
}

#[test]
fn lex_nested_literal_keeps_inner_parentheses_and_escapes() {
    let mut lexer = Lexer::new(b"(a (b) \\) c)");
    assert_eq!(lexer.next_token().unwrap(), Some(PdfToken::StringLiteral(b"a (b) \\) c".to_vec())));
    assert_eq!(lexer.next_token().unwrap(), None);
}

#[test]
fn lex_unterminated_literal_is_eof_error() {
    let mut lexer = Lexer::new(b"(abc");
    assert_eq!(lexer.next_token(), Err(pdf_engine_core::error::PdfError::UnexpectedEof));
}

#[test]
fn lex_single_gt_is_syntax_error() {
    let mut lexer = Lexer::new(b"  > x");
    assert_eq!(
        lexer.next_token(),
        Err(pdf_engine_core::error::PdfError::InvalidSyntax("Unexpected single '>'".to_string()))
    );
}

#[test]
fn lex_closing_brace_is_unexpected_character() {
    let mut lexer = Lexer::new(b"}");
    assert_eq!(
        lexer.next_token(),
        Err(pdf_engine_core::error::PdfError::InvalidSyntax("Unexpected character: }".to_string()))
    );
}

#[test]
fn lex_stream_data_between_keywords() {
    let mut lexer = Lexer::new(b"stream\r\nABC\r\nendstream x");
    assert_eq!(lexer.next_token().unwrap(), Some(PdfToken::StreamData(b"ABC".to_vec())));
    assert_eq!(lexer.next_token().unwrap(), Some(PdfToken::Keyword("x".into())));
}

#[test]
fn lex_hex_string_skips_non_hex_characters() {
    let mut lexer = Lexer::new(b"<4 8g6>");
    assert_eq!(lexer.next_token().unwrap(), Some(PdfToken::HexString(b"486".to_vec())));
}

#[test]
fn lexer_end_repeats_and_tokens_take_bytes() {
    let data = b"/Type true 12 % trailing comment\n  ";
    let mut lexer = Lexer::new(data);
    let mut tokens = 0;
    while let Ok(Some(_)) = lexer.next_token() {
        tokens += 1;
    }
    assert_eq!(tokens, 3);
    assert!(tokens <= data.len());
    assert_eq!(lexer.next_token(), Ok(None));
    assert_eq!(lexer.next_token(), Ok(None));
}

#[test]
fn ascii_names_and_keywords_read_as_written() {
    let mut lexer = Lexer::new(b"/Type true");
    assert_eq!(lexer.next_token(), Ok(Some(PdfToken::Name("Type".to_string()))));
    assert_eq!(lexer.next_token(), Ok(Some(PdfToken::Keyword("true".to_string()))));
}
