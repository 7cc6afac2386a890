use pdf_engine_core::object::{PdfDictionary, PdfObject};

#[test]
fn test_pdf_dictionary() {
    let mut dict = PdfDictionary::new();
    dict.insert("Type", PdfObject::Name("Page".to_string()));
    dict.insert(
        "MediaBox",
        PdfObject::Array(vec![
            PdfObject::Integer(0),
            PdfObject::Integer(0),
            PdfObject::Integer(612),
            PdfObject::Integer(792),
        ]),
    );

    assert_eq!(dict.get("Type"), Some(&PdfObject::Name("Page".to_string())));

    if let Some(PdfObject::Array(arr)) = dict.get("MediaBox") {
        assert_eq!(arr.len(), 4);
        assert_eq!(arr[2], PdfObject::Integer(612));
    } else {
        panic!("MediaBox was not an array");
    }
}

#[test]
fn test_object_sizes() {
    assert!(std::mem::size_of::<PdfObject>() <= 80);
}

#[test]
fn dictionary_insert_replaces_and_keeps_keys_distinct() {
    let mut dict = PdfDictionary::new();
    dict.insert("A", PdfObject::Integer(1));
    dict.insert("B", PdfObject::Integer(2));
    dict.insert("A", PdfObject::Integer(3));
    assert_eq!(dict.len(), 2);
    assert_eq!(dict.get("A"), Some(&PdfObject::Integer(3)));
    assert_eq!(dict.get("B"), Some(&PdfObject::Integer(2)));
    assert!(dict.contains_key("A"));
    assert!(!dict.contains_key("C"));
    assert_eq!(dict.remove("A"), Some(PdfObject::Integer(3)));
    assert!(!dict.contains_key("A"));
    assert_eq!(dict.len(), 1);
}
