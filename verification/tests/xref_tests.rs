use pdf_engine_core::ast_parser::Parser as AstParser;
use pdf_engine_core::error::PdfError;
use pdf_engine_core::object::{ObjectId, PdfObject};
use pdf_engine_core::parser::{
    find_last_subsequence, find_startxref, parse_obj_header_backwards, parse_xref_table, parse_xref_table_checked,
    read_line_limited, rebuild_xref_from_linear_scan,
};
use pdf_engine_core::xref::XrefEntry;

#[test]
fn test_read_line_limited_normal() {
    let data = b"short line\n";
    let mut reader: &[u8] = &data[..];
    let mut line = String::new();
    let bytes_read = read_line_limited(&mut reader, &mut line, 1024).unwrap();
    assert_eq!(bytes_read, 11);
    assert_eq!(line, "short line\n");
}

#[test]
fn test_read_line_limited_exceeded() {
    let data = b"this is a long line without a newline";
    let mut reader: &[u8] = &data[..];
    let mut line = String::new();
    let result = read_line_limited(&mut reader, &mut line, 10);
    assert!(result.is_err());
    let err = result.unwrap_err();
    assert_eq!(err.kind(), std::io::ErrorKind::InvalidData);
}

#[test]
fn read_line_limited_takes_one_line_at_a_time() {
    let data = b"one\ntwo\nthree";
    let mut reader: &[u8] = &data[..];
    let mut line = String::new();
    assert_eq!(read_line_limited(&mut reader, &mut line, 1024).unwrap(), 4);
    assert_eq!(line, "one\n");
    assert_eq!(read_line_limited(&mut reader, &mut line, 1024).unwrap(), 4);
    assert_eq!(line, "one\ntwo\n");
    assert_eq!(read_line_limited(&mut reader, &mut line, 1024).unwrap(), 5);
    assert_eq!(line, "one\ntwo\nthree");
    assert_eq!(read_line_limited(&mut reader, &mut line, 1024).unwrap(), 0);
    assert_eq!(reader, b"");
}

#[test]
fn read_line_limited_refuses_invalid_utf8_and_keeps_buffer() {
    let data = b"\xff\xfe\n";
    let mut reader: &[u8] = &data[..];
    let mut line = String::from("kept");
    let err = read_line_limited(&mut reader, &mut line, 1024).unwrap_err();
    assert_eq!(err.kind(), std::io::ErrorKind::InvalidData);
    assert_eq!(line, "kept");
}

#[test]
fn test_find_startxref_standard() {
    let offset = find_startxref(b"dummy data\nstartxref\n12345\n%%EOF\n").unwrap();
    assert_eq!(offset, 12345);
}

#[test]
fn test_find_startxref_crlf() {
    let offset = find_startxref(b"dummy data\r\nstartxref\r\n6789\r\n%%EOF\r\n").unwrap();
    assert_eq!(offset, 6789);
}

#[test]
fn test_missing_startxref() {
    let result = find_startxref(b"dummy data no marker here %%EOF");
    assert!(matches!(result, Err(PdfError::MissingStartXref)));
}

#[test]
fn startxref_errors() {
    assert_eq!(find_startxref(b"startxref 1"), Err(PdfError::FileTooSmall));
    assert_eq!(
        find_startxref(b"0123456789 startxref\nxx"),
        Err(PdfError::InvalidStartXrefOffset)
    );
    assert_eq!(
        find_startxref(b"0123456789 startxref 99999999999999999999999"),
        Err(PdfError::InvalidStartXrefOffset)
    );
    assert_eq!(find_startxref(b"startxref 1 startxref 22 end"), Ok(22));
}

#[test]
fn test_parse_xref_table_with_trailer() {
    let xref_data = b"xref\n0 2\n0000000000 65535 f \n0000000010 00000 n \ntrailer\n<< /Size 2 /Root 1 0 R >>\nstartxref\n100\n%%EOF";
    let table = parse_xref_table(xref_data, 0).unwrap();
    assert_eq!(table.entries.len(), 2);
    let trailer = table.trailer().expect("Trailer should be parsed");
    assert_eq!(trailer.get("Size").unwrap(), &PdfObject::Integer(2));
    assert_eq!(
        trailer.get("Root").unwrap(),
        &PdfObject::Reference(ObjectId { object_number: 1, generation_number: 0 })
    );
}

#[test]
fn test_parse_xref_table_invalid_keyword() {
    let xref_data = b"0 1\n0000000000 65535 f \ntrailer\n";
    let result = parse_xref_table(xref_data, 0);
    assert!(matches!(result, Err(PdfError::InvalidXrefFormat)));
}

#[test]
fn xref_table_entries_and_subsections() {
    let data = b"junk\nxref\n0 1\n0000000000 65535 f \n\n5 2\n0000000100 00002 n\r\n0000000200 00000 n \n";
    let table = parse_xref_table(data, 5).unwrap();
    assert_eq!(table.entries.len(), 3);
    assert_eq!(
        table.entries.get(&0),
        Some(&XrefEntry::Free { next_free_object: 0, generation_number: 65535 })
    );
    assert_eq!(
        table.entries.get(&5),
        Some(&XrefEntry::InUse { byte_offset: 100, generation_number: 2 })
    );
    assert_eq!(
        table.entries.get(&6),
        Some(&XrefEntry::InUse { byte_offset: 200, generation_number: 0 })
    );
    assert!(table.trailer().is_none());
}

#[test]
fn xref_table_bad_lines_are_refused() {
    assert_eq!(parse_xref_table(b"xref\n0 1 2\n", 0).unwrap_err(), PdfError::InvalidXrefFormat);
    assert_eq!(parse_xref_table(b"xref\n0 1\n0000000000 x f\n", 0).unwrap_err(), PdfError::InvalidXrefFormat);
    assert_eq!(parse_xref_table(b"xref\n0 1\n0000000000 00000 q\n", 0).unwrap_err(), PdfError::InvalidXrefFormat);
    assert_eq!(parse_xref_table(b"xref\n0 1\n", 0).unwrap_err(), PdfError::InvalidXrefFormat);
    assert_eq!(parse_xref_table(b"xref\ntrailer 5", 0).unwrap_err(), PdfError::InvalidTrailer);
    assert_eq!(parse_xref_table(b"xref", 100).unwrap_err(), PdfError::InvalidXrefFormat);
}

#[test]
fn xref_trailer_on_the_same_line() {
    let table = parse_xref_table(b"xref\ntrailer << /Size 1 >>", 0).unwrap();
    assert_eq!(table.trailer().unwrap().get("Size"), Some(&PdfObject::Integer(1)));
}

#[test]
fn xref_line_over_the_limit_is_an_io_error() {
    let mut data = b"xref\n".to_vec();
    data.extend(std::iter::repeat(b'7').take(2000));
    assert_eq!(
        parse_xref_table(&data, 0).unwrap_err(),
        PdfError::Io("Line length limit exceeded".into())
    );
}

#[test]
fn test_rebuild_xref_from_linear_scan() {
    let pdf_data = b"%PDF-1.4\n\
1 0 obj\n<< /Type /Catalog /Pages 2 0 R >>\nendobj\n\
2 0 obj\n<< /Type /Pages /Kids [] >>\nendobj\n\
trailer\n<< /Size 3 /Root 1 0 R >>\n";
    let table = rebuild_xref_from_linear_scan(pdf_data).unwrap();
    assert_eq!(table.entries.len(), 2);
    if let Some(XrefEntry::InUse { byte_offset, .. }) = table.entries.get(&1) {
        assert_eq!(*byte_offset, 9);
    } else {
        panic!("Object 1 not recovered");
    }
    if let Some(XrefEntry::InUse { byte_offset, .. }) = table.entries.get(&2) {
        assert_eq!(*byte_offset, 58);
    } else {
        panic!("Object 2 not recovered");
    }
    let trailer = table.trailer().expect("Trailer not recovered");
    assert_eq!(trailer.get("Size").unwrap(), &PdfObject::Integer(3));
}

#[test]
fn rebuild_without_trailer_is_refused() {
    let data = b"%PDF-1.4\n1 0 obj\n<< >>\nendobj\n";
    assert_eq!(rebuild_xref_from_linear_scan(data).unwrap_err(), PdfError::InvalidTrailer);
}

#[test]
fn test_rebuild_xref_from_linear_scan_in_memory() {
    let data = b"%PDF-1.4\n1 0 obj\n<< /Type /Catalog >>\nendobj\n2 0 obj\n<< /Type /Pages >>\nendobj\ntrailer\n<< /Root 1 0 R >>";
    let table = AstParser::rebuild_xref_from_linear_scan_bytes(data).unwrap();
    assert_eq!(table.entries.len(), 2);
    let root_dict = table.trailer_dict.unwrap();
    assert!(root_dict.contains_key("Root"));
}

#[test]
fn in_memory_rebuild_reads_offsets_and_defaults_trailer() {
    let data = b"x 12 3 obj\nendobj";
    let table = AstParser::rebuild_xref_from_linear_scan_bytes(data).unwrap();
    assert_eq!(
        table.entries.get(&12),
        Some(&XrefEntry::InUse { byte_offset: 2, generation_number: 3 })
    );
    assert_eq!(table.trailer_dict.unwrap().len(), 0);
}

#[test]
fn header_backwards_and_last_subsequence() {
    let data = b"..\n12 7 obj";
    assert_eq!(parse_obj_header_backwards(data, 8), Some((12, 7, 3)));
    assert_eq!(parse_obj_header_backwards(b"7 obj", 2), None);
    assert_eq!(find_last_subsequence(b"abcabc", b"bc"), Some(4));
    assert_eq!(find_last_subsequence(b"abc", b"x"), None);
}

#[test]
fn checked_table_read_stops_at_object_number_overflow() {
    let data = b"xref\n4294967295 2\n0000000000 65535 f \n0000000009 00000 n \ntrailer\n<< /Size 1 >>\n";
    assert!(parse_xref_table_checked(data, 0).is_none());
    let ok = b"xref\n0 1\n0000000000 65535 f \ntrailer\n<< /Size 1 >>\n";
    let table = parse_xref_table_checked(ok, 0).unwrap().unwrap();
    let plain = parse_xref_table(ok, 0).unwrap();
    assert_eq!(table.entries, plain.entries);
    assert_eq!(table.trailer_dict, plain.trailer_dict);
    assert_eq!(table.entries.len(), 1);
}

#[test]
fn rebuilt_offsets_start_at_object_numbers() {
    let data: &[u8] = b"%PDF-1.4\n7 0 obj\n<< >>\nendobj\n  12 3 obj\n(x)\nendobj\n\ntrailer\n<< /Root 7 0 R >>\n";
    let table = rebuild_xref_from_linear_scan(data).unwrap();
    assert_eq!(table.entries.len(), 2);
    for (num, entry) in table.entries.iter() {
        match entry {
            XrefEntry::InUse { byte_offset, .. } => {
                let text = num.to_string();
                assert!(data[*byte_offset as usize..].starts_with(text.as_bytes()));
            }
            other => panic!("unexpected entry {:?}", other),
        }
    }
}

#[test]
fn header_backwards_at_end_of_buffer() {
    assert_eq!(parse_obj_header_backwards(b"x12 7 ", 6), Some((12, 7, 1)));
    assert_eq!(parse_obj_header_backwards(b"", 0), None);
    assert_eq!(parse_obj_header_backwards(b"", 1), None);
}
