use lila::blob::{locate, write_chunks, FileStorage, UploadSession};
use lila::digest::content_etag;
use lila::error::AppError;
use lila::models::{default_max_upload_size, max_upload_bytes};

const HELLO_SHA256: &str = "2cf24dba5fb0a30e26e83b2ac5b9e29e1b161e5c1fa7425e73043362938b9824";
const EMPTY_SHA256: &str = "e3b0c44298fc1c149afbf4c8996fb92427ae41e4649b934ca495991b7852b855";

#[test]
fn locate_hashes_the_key() {
    let loc = locate("hello");
    assert_eq!(loc.file_name, HELLO_SHA256);
    assert_eq!(loc.subdir, "2c");
}

#[test]
fn locate_is_deterministic_and_separates_keys() {
    let a = locate("a/b.txt");
    let b = locate("a/b.txt");
    let c = locate("a/c.txt");
    assert_eq!(a.file_name, b.file_name);
    assert_eq!(a.subdir, b.subdir);
    assert_ne!(a.file_name, c.file_name);
    assert_eq!(a.file_name.len(), 64);
    assert_eq!(&a.file_name[..2], a.subdir.as_str());
}

#[test]
fn object_path_joins_base_subdir_and_digest() {
    let store = FileStorage::new("/data/objects");
    assert_eq!(store.get_object_path_string("hello"), format!("/data/objects/2c/{}", HELLO_SHA256));
    let slash = FileStorage::new("/data/objects/");
    assert_eq!(slash.get_object_path("hello"), format!("/data/objects/2c/{}", HELLO_SHA256));
    let bare = FileStorage::new("");
    assert_eq!(bare.get_object_path("hello"), format!("2c/{}", HELLO_SHA256));
}

#[test]
fn content_etag_is_sha256_hex() {
    assert_eq!(content_etag(b"hello"), HELLO_SHA256);
    assert_eq!(content_etag(b""), EMPTY_SHA256);
}

#[test]
fn chunked_upload_etag_matches_whole_payload() {
    let chunks = vec![b"he".to_vec(), b"llo".to_vec()];
    match write_chunks(&chunks, 5) {
        Ok((etag, size)) => {
            assert_eq!(etag, content_etag(b"hello"));
            assert_eq!(size, 5);
        }
        Err(e) => panic!("unexpected {:?}", e),
    }
}

#[test]
fn upload_one_byte_over_cap_is_rejected() {
    let chunks = vec![b"hel".to_vec(), b"lo!".to_vec()];
    match write_chunks(&chunks, 5) {
        Err(AppError::PayloadTooLarge(limit)) => assert_eq!(limit, 5),
        other => panic!("unexpected {:?}", other),
    }
}

#[test]
fn empty_upload_has_size_zero() {
    let chunks: Vec<Vec<u8>> = Vec::new();
    match write_chunks(&chunks, 0) {
        Ok((etag, size)) => {
            assert_eq!(etag, EMPTY_SHA256);
            assert_eq!(size, 0);
        }
        Err(e) => panic!("unexpected {:?}", e),
    }
}

#[test]
fn session_rejects_chunk_past_cap_and_keeps_state() {
    let mut s = UploadSession::new(4);
    assert!(s.accept(b"hell").is_ok());
    assert_eq!(s.size(), 4);
    match s.accept(b"o") {
        Err(AppError::PayloadTooLarge(limit)) => assert_eq!(limit, 4),
        other => panic!("unexpected {:?}", other),
    }
    assert_eq!(s.size(), 4);
    assert!(s.accept(b"").is_ok());
    let (etag, size) = s.finish();
    assert_eq!(etag, content_etag(b"hell"));
    assert_eq!(size, 4);
}

#[test]
fn upload_cap_in_bytes() {
    assert_eq!(default_max_upload_size(), 100);
    assert_eq!(max_upload_bytes(100), Some(104_857_600));
    assert_eq!(max_upload_bytes(0), Some(0));
    assert_eq!(max_upload_bytes(usize::MAX), None);
}
