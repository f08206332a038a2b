use lila::catalog::{search_clauses, MemoryCatalog, SearchClause, SearchQuery};
use lila::error::AppError;
use lila::models::ObjectMetadata;
use lila::service::finish_delete;

fn rec(key: &str, size: i64, content_type: &str, created_at: i64) -> ObjectMetadata {
    ObjectMetadata {
        id: format!("id-{}", key),
        key: key.to_string(),
        size,
        content_type: content_type.to_string(),
        etag: format!("etag-{}", size),
        created_at,
    }
}

fn catalog_of(records: &[ObjectMetadata]) -> MemoryCatalog {
    let mut c = MemoryCatalog::new();
    for r in records {
        c.insert(r);
    }
    c
}

fn keys(v: &[ObjectMetadata]) -> Vec<String> {
    v.iter().map(|r| r.key.clone()).collect()
}

fn query() -> SearchQuery {
    SearchQuery { key: None, content_type: None, min_size: None, max_size: None, limit: None }
}

#[test]
fn get_returns_inserted_record() {
    let c = catalog_of(&[rec("a.txt", 3, "text/plain", 1)]);
    let got = c.get("a.txt").expect("present");
    assert_eq!(got.key, "a.txt");
    assert_eq!(got.size, 3);
    assert_eq!(got.id, "id-a.txt");
    assert!(c.get("b.txt").is_none());
}

#[test]
fn upsert_replaces_every_field() {
    let mut c = catalog_of(&[rec("k", 3, "text/plain", 1)]);
    let mut newer = rec("k", 9, "image/png", 2);
    newer.id = "second".to_string();
    c.insert(&newer);
    assert_eq!(c.len(), 1);
    let got = c.get("k").expect("present");
    assert_eq!(got.id, "second");
    assert_eq!(got.size, 9);
    assert_eq!(got.content_type, "image/png");
    assert_eq!(got.created_at, 2);
}

#[test]
fn last_upsert_of_a_key_wins() {
    let mut c = MemoryCatalog::new();
    c.insert(&rec("same", 10, "a/b", 1));
    c.insert(&rec("same", 20, "a/b", 2));
    let got = c.get("same").expect("present");
    assert_eq!(got.size, 20);
    assert_eq!(got.etag, "etag-20");
}

#[test]
fn delete_twice_reports_not_found() {
    let mut c = catalog_of(&[rec("k", 1, "x", 1)]);
    assert!(finish_delete("k", c.delete("k")).is_ok());
    let second = c.delete("k");
    assert!(!second);
    match finish_delete("k", second) {
        Err(AppError::NotFound(k)) => assert_eq!(k, "k"),
        other => panic!("unexpected {:?}", other),
    }
}

#[test]
fn delete_on_fresh_catalog_reports_not_found() {
    let mut c = MemoryCatalog::new();
    assert!(!c.delete("nothing"));
    assert!(matches!(finish_delete("nothing", false), Err(AppError::NotFound(_))));
}

#[test]
fn delete_by_prefix_respects_boundary() {
    let mut c = catalog_of(&[
        rec("a/b.txt", 1, "x", 1),
        rec("a/c/d.txt", 1, "x", 2),
        rec("ab", 1, "x", 3),
        rec("b", 1, "x", 4),
    ]);
    assert_eq!(c.delete_by_prefix("a/"), 2);
    assert!(c.get("a/b.txt").is_none());
    assert!(c.get("a/c/d.txt").is_none());
    assert!(c.get("ab").is_some());
    assert!(c.get("b").is_some());
    assert_eq!(c.delete_by_prefix("zzz/"), 0);
}

#[test]
fn list_is_in_key_order_and_capped() {
    let c = catalog_of(&[
        rec("b", 1, "x", 1),
        rec("a/2", 1, "x", 2),
        rec("a/1", 1, "x", 3),
        rec("c", 1, "x", 4),
    ]);
    assert_eq!(keys(&c.list(None, None)), vec!["a/1", "a/2", "b", "c"]);
    assert_eq!(keys(&c.list(Some("a/"), None)), vec!["a/1", "a/2"]);
    assert_eq!(keys(&c.list(None, Some(2))), vec!["a/1", "a/2"]);
    assert_eq!(keys(&c.list(None, Some(-1))), vec!["a/1", "a/2", "b", "c"]);
    assert!(c.list(Some("A/"), None).is_empty());
}

#[test]
fn search_size_range_is_conjunctive() {
    let c = catalog_of(&[
        rec("small", 10, "x", 1),
        rec("medium", 50, "x", 2),
        rec("large", 200, "x", 3),
    ]);
    let mut q = query();
    q.min_size = Some(20);
    q.max_size = Some(100);
    assert_eq!(keys(&c.search(&q)), vec!["medium"]);
}

#[test]
fn search_filters_key_and_type_newest_first() {
    let c = catalog_of(&[
        rec("docs/a.txt", 1, "text/plain", 5),
        rec("docs/b.png", 1, "image/png", 6),
        rec("img/docs.txt", 1, "text/plain", 9),
        rec("other", 1, "text/plain", 7),
    ]);
    let mut q = query();
    q.key = Some("docs".to_string());
    assert_eq!(keys(&c.search(&q)), vec!["img/docs.txt", "docs/b.png", "docs/a.txt"]);
    q.content_type = Some("text/plain".to_string());
    assert_eq!(keys(&c.search(&q)), vec!["img/docs.txt", "docs/a.txt"]);
    q.limit = Some(1);
    assert_eq!(keys(&c.search(&q)), vec!["img/docs.txt"]);
    let mut upper = query();
    upper.key = Some("DOCS".to_string());
    assert!(c.search(&upper).is_empty());
}

#[test]
fn search_without_filters_returns_all() {
    let c = catalog_of(&[rec("a", 1, "x", 1), rec("b", 1, "x", 2)]);
    assert_eq!(keys(&c.search(&query())), vec!["b", "a"]);
    let mut q = query();
    q.limit = Some(0);
    assert!(c.search(&q).is_empty());
}

#[test]
fn search_clauses_follow_fixed_order() {
    let mut q = query();
    q.max_size = Some(9);
    q.key = Some("k".to_string());
    let clauses = search_clauses(&q);
    assert_eq!(clauses.len(), 2);
    assert!(matches!(&clauses[0], SearchClause::KeyContains(t) if t == "k"));
    assert!(matches!(clauses[1], SearchClause::MaxSize(9)));
    assert_eq!(clauses[0].condition(), "instr(key, ?) > 0");
    assert_eq!(clauses[1].condition(), "size <= ?");
    assert!(search_clauses(&query()).is_empty());
}

#[test]
fn stats_of_empty_and_filled_catalog() {
    let empty = MemoryCatalog::new();
    assert_eq!(empty.get_stats().ok(), Some((0, 0)));
    let c = catalog_of(&[rec("a", 5, "x", 1), rec("b", 7, "x", 2)]);
    assert_eq!(c.get_stats().ok(), Some((2, 12)));
}

#[test]
fn stats_overflow_is_a_database_error() {
    let c = catalog_of(&[rec("a", i64::MAX, "x", 1), rec("b", 1, "x", 2)]);
    assert!(matches!(c.get_stats(), Err(AppError::Database(_))));
}
