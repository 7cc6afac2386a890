use md5::Digest;
use pdf_engine_core::crypto::{EncryptionAlgorithm, EncryptionHandler};

#[test]
fn test_rc4_decryption_scaffold() {
    let key = b"testkey123".to_vec();
    let handler = EncryptionHandler::new(EncryptionAlgorithm::Rc4, key);
    let encrypted = vec![0x1a, 0x2b, 0x3c];
    let decrypted = handler.decrypt_stream(&encrypted, 10, 0);
    assert!(decrypted.is_err());
}

#[test]
fn object_key_is_md5_of_key_and_ids_truncated() {
    let handler = EncryptionHandler::new(EncryptionAlgorithm::Rc4, b"abc".to_vec());
    let key = handler.compute_object_key(1, 0);
    assert_eq!(key.len(), 8);
    let mut input = b"abc".to_vec();
    input.extend_from_slice(&[1, 0, 0, 0, 0]);
    let full = md5::Md5::digest(&input);
    assert_eq!(key, full[0..8].to_vec());
}

#[test]
fn aes256_object_key_is_the_document_key() {
    let handler = EncryptionHandler::new(EncryptionAlgorithm::Aes256, vec![7u8; 32]);
    assert_eq!(handler.compute_object_key(5, 2), vec![7u8; 32]);
}

#[test]
fn aes128_object_key_is_salted() {
    let handler = EncryptionHandler::new(EncryptionAlgorithm::Aes128, vec![1u8; 16]);
    let key = handler.compute_object_key(0x010203, 0x0405);
    let mut input = vec![1u8; 16];
    input.extend_from_slice(&[3, 2, 1, 5, 4]);
    input.extend_from_slice(b"sAlT");
    let full = md5::Md5::digest(&input);
    assert_eq!(key, full.to_vec());
}
