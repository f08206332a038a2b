use lila::catalog::MemoryCatalog;
use lila::error::AppError;
use lila::models::ObjectMetadata;
use lila::service::{
    content_type_or_default, group_listing, list_objects, normalize_folder_prefix,
    settle_blob_delete, ListQuery,
};

fn rec(key: &str) -> ObjectMetadata {
    ObjectMetadata {
        id: key.to_string(),
        key: key.to_string(),
        size: 1,
        content_type: "x".to_string(),
        etag: "e".to_string(),
        created_at: 0,
    }
}

fn keys(v: &[ObjectMetadata]) -> Vec<String> {
    v.iter().map(|r| r.key.clone()).collect()
}

#[test]
fn folder_emulation_splits_objects_and_prefixes() {
    let records = vec![rec("a/b.txt"), rec("a/c/d.txt"), rec("a/e.txt")];
    let r = group_listing(&records, "a/", "/");
    assert_eq!(keys(&r.objects), vec!["a/b.txt", "a/e.txt"]);
    assert_eq!(r.prefixes, vec!["a/c/"]);
    assert_eq!(r.total, 2);
}

#[test]
fn folders_are_sorted_and_deduplicated() {
    let records = vec![rec("z/1"), rec("m/1"), rec("z/2"), rec("a/x/y"), rec("top")];
    let r = group_listing(&records, "", "/");
    assert_eq!(r.prefixes, vec!["a/", "m/", "z/"]);
    assert_eq!(keys(&r.objects), vec!["top"]);
}

#[test]
fn listing_skips_records_outside_prefix() {
    let records = vec![rec("b/1"), rec("a/1")];
    let r = group_listing(&records, "a/", "/");
    assert_eq!(keys(&r.objects), vec!["a/1"]);
    assert!(r.prefixes.is_empty());
}

#[test]
fn listing_with_other_delimiter() {
    let records = vec![rec("x-y-z"), rec("x-w"), rec("xq")];
    let r = group_listing(&records, "x-", "-");
    assert_eq!(keys(&r.objects), vec!["x-w"]);
    assert_eq!(r.prefixes, vec!["x-y-"]);
}

#[test]
fn list_objects_over_catalog_uses_default_delimiter() {
    let mut c = MemoryCatalog::new();
    for k in ["a/e.txt", "a/c/d.txt", "a/b.txt", "ab"] {
        c.insert(&rec(k));
    }
    let q = ListQuery { prefix: Some("a/".to_string()), limit: None, delimiter: None };
    let r = list_objects(&c, &q);
    assert_eq!(keys(&r.objects), vec!["a/b.txt", "a/e.txt"]);
    assert_eq!(r.prefixes, vec!["a/c/"]);
    assert_eq!(r.total, 2);
    let all = ListQuery { prefix: None, limit: None, delimiter: None };
    let r = list_objects(&c, &all);
    assert_eq!(keys(&r.objects), vec!["ab"]);
    assert_eq!(r.prefixes, vec!["a/"]);
}

#[test]
fn folder_prefix_gets_trailing_slash() {
    assert_eq!(normalize_folder_prefix("docs"), "docs/");
    assert_eq!(normalize_folder_prefix("docs/"), "docs/");
    assert_eq!(normalize_folder_prefix(""), "/");
}

#[test]
fn content_type_defaults_to_octet_stream() {
    assert_eq!(content_type_or_default(None), "application/octet-stream");
    assert_eq!(content_type_or_default(Some("text/plain")), "text/plain");
}

#[test]
fn missing_blob_does_not_block_delete() {
    assert!(settle_blob_delete(Err(AppError::NotFound("k".to_string()))).is_ok());
    assert!(settle_blob_delete(Ok(())).is_ok());
    assert!(matches!(settle_blob_delete(Err(AppError::Io("disk".to_string()))), Err(AppError::Io(_))));
}

#[test]
fn error_status_codes() {
    assert_eq!(AppError::NotFound("k".to_string()).status_code(), 404);
    assert_eq!(AppError::PayloadTooLarge(1).status_code(), 413);
    assert_eq!(AppError::Unauthorized.status_code(), 401);
    assert_eq!(AppError::Database("x".to_string()).status_code(), 500);
    assert_eq!(AppError::Internal.status_code(), 500);
    assert!(AppError::NotFound("k".to_string()).is_not_found());
    assert!(!AppError::Internal.is_not_found());
}
