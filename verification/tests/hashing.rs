use texture_sync::hash::{compute_git_blob_sha, git_blob_frame};

#[test]
fn blob_frame_exact_bytes() {
    let content: Vec<u8> = b"abc".to_vec();
    assert_eq!(git_blob_frame(&content), b"blob 3\0abc".to_vec());
}

#[test]
fn blob_frame_multi_digit_length() {
    let content: Vec<u8> = vec![0u8; 12];
    let mut expected: Vec<u8> = b"blob 12\0".to_vec();
    expected.extend_from_slice(&[0u8; 12]);
    assert_eq!(git_blob_frame(&content), expected);
}

#[test]
fn empty_blob_identifier() {
    // the well-known git identifier of the empty blob
    let content: Vec<u8> = Vec::new();
    assert_eq!(
        compute_git_blob_sha(&content),
        "e69de29bb2d1d6434b8b29ae775ad8c2e48c5391"
    );
}

#[test]
fn hello_blob_identifier() {
    // the well-known git identifier of the blob "hello\n"
    let content: Vec<u8> = b"hello\n".to_vec();
    assert_eq!(
        compute_git_blob_sha(&content),
        "ce013625030ba8dba906f756967f9e9ca394464a"
    );
}

#[test]
fn identifier_is_forty_lowercase_hex_digits() {
    let content: Vec<u8> = b"some texture bytes".to_vec();
    let id = compute_git_blob_sha(&content);
    assert_eq!(id.len(), 40);
    assert!(id.chars().all(|c| c.is_ascii_hexdigit() && !c.is_ascii_uppercase()));
}
