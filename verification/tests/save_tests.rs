use pdf_engine_core::document::PdfDocument;
use pdf_engine_core::error::PdfError;
use pdf_engine_core::object::{ObjectId, PdfDictionary, PdfObject};
use pdf_engine_core::parser::find_startxref;
use pdf_engine_core::xref::XrefEntry;

fn contains(hay: &[u8], needle: &[u8]) -> bool {
    hay.windows(needle.len()).any(|w| w == needle)
}

#[test]
fn test_incremental_save() {
    let original: &[u8] = b"%PDF-1.4\n1 0 obj\n<< /Old true >>\nendobj\nxref\n0 2\n0000000000 65535 f \n0000000009 00000 n \ntrailer\n<< /Size 2 >>\nstartxref\n34\n%%EOF";
    let mut doc = PdfDocument::from_bytes(original.to_vec()).unwrap();
    doc.original_startxref = Some(34);
    let modified = vec![(
        ObjectId { object_number: 1, generation_number: 0 },
        PdfObject::Dictionary(PdfDictionary::new()),
    )];
    let appended = doc.incremental_update_bytes(original.len() as u64, &modified);
    let mut content = original.to_vec();
    content.extend_from_slice(&appended);
    assert!(contains(&content, b"1 0 obj"));
    assert!(contains(&content, b"<<\n>>"));
    assert!(contains(&content, b"startxref"));
    assert!(contains(&content, b"%%EOF"));
    assert!(contains(&content, b"/Prev 34"));
    let o = original.len() + 1;
    let x = original.len() + 22;
    let expected = format!(
        "\n1 0 obj\n<<\n>>\nendobj\nxref\n1 1\n{:010} 00000 n\r\ntrailer\n<< /Size 2 /Prev 34 >>\nstartxref\n{}\n%%EOF\n",
        o, x
    );
    assert_eq!(appended, expected.into_bytes());
    assert!(content[o..].starts_with(b"1 0 obj\n"));
    assert_eq!(find_startxref(&content), Ok(x as u64));
    assert!(content[x..].starts_with(b"xref\n"));
}

#[test]
fn incremental_update_exact_bytes() {
    let mut doc = PdfDocument::from_bytes(b"%PDF-1.7\n".to_vec()).unwrap();
    doc.xref_table.entries.insert(3, XrefEntry::InUse { byte_offset: 9, generation_number: 0 });
    let modified = vec![(ObjectId { object_number: 2, generation_number: 1 }, PdfObject::Integer(7))];
    let appended = doc.incremental_update_bytes(100, &modified);
    assert_eq!(
        appended,
        b"\n2 1 obj\n7\nendobj\nxref\n2 1\n0000000101 00001 n\r\ntrailer\n<< /Size 4>>\nstartxref\n118\n%%EOF\n"
            .to_vec()
    );
}

#[test]
fn test_save_optimized_garbage_collection() {
    let data: &[u8] = b"%PDF-1.4\n\
1 0 obj\n<< /Type /Catalog /Pages 2 0 R >>\nendobj\n\
2 0 obj\n<< /Type /Pages /Kids [] >>\nendobj\n\
3 0 obj\n<< /Type /OrphanedGarbage >>\nendobj\n\
xref\n0 4\n\
0000000000 65535 f \n0000000009 00000 n \n0000000052 00000 n \n0000000092 00000 n \n\
trailer\n<< /Size 4 /Root 1 0 R >>\nstartxref\n138\n%%EOF";
    let mut doc = PdfDocument::from_bytes(data.to_vec()).unwrap();
    doc.xref_table.entries.insert(1, XrefEntry::InUse { byte_offset: 9, generation_number: 0 });
    doc.xref_table.entries.insert(2, XrefEntry::InUse { byte_offset: 51, generation_number: 0 });
    doc.xref_table.entries.insert(3, XrefEntry::InUse { byte_offset: 89, generation_number: 0 });
    let mut trailer = PdfDictionary::new();
    trailer.insert("Root", PdfObject::Reference(ObjectId { object_number: 1, generation_number: 0 }));
    doc.xref_table.trailer_dict = Some(trailer);

    let out = doc.optimized_file_bytes().unwrap();
    assert!(out.starts_with(b"%PDF-1.4\n%\xE2\xE3\xCF\xD3\n1 0 obj\n"));
    assert!(!contains(&out, b"OrphanedGarbage"));
    assert!(contains(&out, b"xref\n0 3\n0000000000 65535 f \r\n0000000015 00000 n\r\n"));
    assert!(contains(&out, b"trailer\n<<\n/Root 1 0 R\n/Size 3\n>>\n"));
}

#[test]
fn optimized_rewrite_keeps_reachable_objects_in_order() {
    let data: &[u8] = b"%PDF-1.4\n\
1 0 obj\n<< /Type /Catalog /Pages 2 0 R >>\nendobj\n\
2 0 obj\n<< /Type /Pages /Kids [] >>\nendobj\n\
3 0 obj\n<< /Type /OrphanedGarbage >>\nendobj\n";
    let text = std::str::from_utf8(data).unwrap();
    let mut doc = PdfDocument::from_bytes(data.to_vec()).unwrap();
    for n in 1..=3u32 {
        let off = text.find(&format!("{} 0 obj", n)).unwrap() as u64;
        doc.xref_table.entries.insert(n, XrefEntry::InUse { byte_offset: off, generation_number: 0 });
    }
    let mut trailer = PdfDictionary::new();
    trailer.insert("Root", PdfObject::Reference(ObjectId { object_number: 1, generation_number: 0 }));
    trailer.insert("Prev", PdfObject::Integer(10));
    doc.xref_table.trailer_dict = Some(trailer);
    let out = doc.optimized_file_bytes().unwrap();
    let expected_objects: &[u8] = b"%PDF-1.4\n%\xE2\xE3\xCF\xD3\n\
1 0 obj\n<<\n/Type /Catalog\n/Pages 2 0 R\n>>\nendobj\n\
2 0 obj\n<<\n/Type /Pages\n/Kids [ ]\n>>\nendobj\n";
    assert!(out.starts_with(expected_objects));
    let rest = &out[expected_objects.len()..];
    assert_eq!(
        rest,
        &b"xref\n0 3\n0000000000 65535 f \r\n0000000015 00000 n\r\n0000000064 00000 n\r\ntrailer\n<<\n/Root 1 0 R\n/Size 3\n>>\nstartxref\n108\n%%EOF\n"[..]
    );
}

#[test]
fn optimized_rewrite_needs_trailer_and_root() {
    let mut doc = PdfDocument::from_bytes(b"%PDF-1.4\n".to_vec()).unwrap();
    assert_eq!(doc.optimized_file_bytes(), Err(PdfError::InvalidTrailer));
    doc.xref_table.trailer_dict = Some(PdfDictionary::new());
    assert_eq!(doc.optimized_file_bytes(), Err(PdfError::MissingRoot));
}

#[test]
fn checked_incremental_update_refuses_offsets_past_u64() {
    let doc = PdfDocument::from_bytes(b"%PDF-1.7\n".to_vec()).unwrap();
    let modified = vec![(ObjectId { object_number: 2, generation_number: 0 }, PdfObject::Integer(7))];
    assert_eq!(doc.incremental_update_bytes_checked(u64::MAX, &modified), None);
    assert_eq!(doc.incremental_update_bytes_checked(u64::MAX - 5, &modified), None);
    assert_eq!(
        doc.incremental_update_bytes_checked(100, &modified),
        Some(doc.incremental_update_bytes(100, &modified))
    );
}

#[test]
fn checked_incremental_update_refuses_largest_object_number() {
    let mut doc = PdfDocument::from_bytes(b"%PDF-1.7\n".to_vec()).unwrap();
    doc.xref_table.entries.insert(u32::MAX, XrefEntry::Free { next_free_object: 0, generation_number: 0 });
    let modified: Vec<(ObjectId, PdfObject)> = Vec::new();
    assert_eq!(doc.incremental_update_bytes_checked(10, &modified), None);
}

#[test]
fn checked_rewrite_matches_plain_rewrite() {
    let mut doc = PdfDocument::from_bytes(b"%PDF-1.4\n1 0 obj\n<< /Type /Catalog >>\nendobj\n".to_vec()).unwrap();
    assert_eq!(doc.optimized_file_bytes_checked(), Some(Err(PdfError::InvalidTrailer)));
    doc.xref_table.entries.insert(1, XrefEntry::InUse { byte_offset: 9, generation_number: 0 });
    let mut trailer = PdfDictionary::new();
    trailer.insert("Root", PdfObject::Reference(ObjectId { object_number: 1, generation_number: 0 }));
    doc.xref_table.trailer_dict = Some(trailer);
    let plain = doc.optimized_file_bytes().unwrap();
    assert_eq!(doc.optimized_file_bytes_checked(), Some(Ok(plain.clone())));
    assert!(plain.starts_with(b"%PDF-1.4\n%\xE2\xE3\xCF\xD3\n1 0 obj\n<<\n/Type /Catalog\n>>\nendobj\n"));
}

#[test]
fn rewrite_table_offsets_point_at_object_headers() {
    let data: &[u8] = b"%PDF-1.4\n\
1 0 obj\n<< /Type /Catalog /Pages 2 0 R >>\nendobj\n\
2 0 obj\n<< /Type /Pages /Kids [] >>\nendobj\n";
    let text = std::str::from_utf8(data).unwrap();
    let mut doc = PdfDocument::from_bytes(data.to_vec()).unwrap();
    for n in 1..=2u32 {
        let off = text.find(&format!("{} 0 obj", n)).unwrap() as u64;
        doc.xref_table.entries.insert(n, XrefEntry::InUse { byte_offset: off, generation_number: 0 });
    }
    let mut trailer = PdfDictionary::new();
    trailer.insert("Root", PdfObject::Reference(ObjectId { object_number: 1, generation_number: 0 }));
    doc.xref_table.trailer_dict = Some(trailer);
    let out = doc.optimized_file_bytes().unwrap();
    let find = |needle: &[u8]| out.windows(needle.len()).position(|w| w == needle).unwrap();
    let xref_at = find(b"xref\n");
    let after = &out[find(b"startxref\n") + 10..];
    let digits: Vec<u8> = after.iter().copied().take_while(|b| b.is_ascii_digit()).collect();
    let startxref: usize = std::str::from_utf8(&digits).unwrap().parse().unwrap();
    assert_eq!(startxref, xref_at);
    assert_eq!(find_startxref(&out), Ok(xref_at as u64));
    let table = std::str::from_utf8(&out[xref_at..]).unwrap();
    let lines: Vec<&str> = table.split("\r\n").collect();
    let off1: usize = lines[1][..10].parse().unwrap();
    let off2: usize = lines[2][..10].parse().unwrap();
    assert!(out[off1..].starts_with(b"1 0 obj\n"));
    assert!(out[off2..].starts_with(b"2 0 obj\n"));
}
