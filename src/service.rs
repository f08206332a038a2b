//! The object service's decisions: folder listings derived from catalog
//! scans, folder prefixes, and how the two halves of a delete combine.
use crate::catalog::{
    capped, has_key, outside_prefix, total_size, under_prefix, upsert_of, without_key,
    MemoryCatalog, DEFAULT_LIST_LIMIT,
};
use crate::error::AppError;
use crate::models::{ListObjectsResponse, ObjectMetadata};
use crate::text::{
    chars_lt, chars_of, contains_seq, find_from, key_lt,
    lemma_key_lt_total, lemma_key_lt_transitive, occurs_at, starts_with_chars,
};
use vstd::prelude::*;
use vstd::string::{StrSliceExecFns, StringExecFns};

verus! {

broadcast use vstd::seq_lib::group_seq_properties;

/// The query of a listing: a key prefix, a cap on the records scanned, and
/// the delimiter that marks folders (`/` when none is given).
#[derive(Debug, Clone)]
pub struct ListQuery {
    pub prefix: Option<String>,
    pub limit: Option<i64>,
    pub delimiter: Option<String>,
}

/// What follows the prefix `p` in a key.
pub open spec fn rest_after(key: Seq<char>, p: Seq<char>) -> Seq<char> {
    key.subrange(p.len() as int, key.len() as int)
}

/// The first position where `d` occurs in `s`.
pub open spec fn first_occurrence(s: Seq<char>, d: Seq<char>) -> int {
    choose|i: int| occurs_at(s, d, i) && forall|j: int| 0 <= j < i ==> !occurs_at(s, d, j)
}

/// A direct object of the listing: under the prefix, with no delimiter after it.
pub open spec fn is_leaf(key: Seq<char>, p: Seq<char>, d: Seq<char>) -> bool {
    p.is_prefix_of(key) && !contains_seq(rest_after(key, p), d)
}

/// `is_leaf` as a predicate on records.
pub open spec fn leaf_records(p: Seq<char>, d: Seq<char>) -> spec_fn(ObjectMetadata) -> bool {
    |x: ObjectMetadata| is_leaf(x.key@, p, d)
}

/// A key that lies inside a folder below the prefix.
pub open spec fn in_folder(key: Seq<char>, p: Seq<char>, d: Seq<char>) -> bool {
    p.is_prefix_of(key) && contains_seq(rest_after(key, p), d)
}

/// The folder of such a key: the prefix, the text up to the first delimiter
/// after it, and the delimiter.
pub open spec fn folder_of(key: Seq<char>, p: Seq<char>, d: Seq<char>) -> Seq<char> {
    p + rest_after(key, p).subrange(0, first_occurrence(rest_after(key, p), d)) + d
}

/// The texts of a list of strings.
pub open spec fn texts(v: Seq<String>) -> Seq<Seq<char>> {
    v.map_values(|s: String| s@)
}

/// Texts strictly increasing in key order: sorted, without duplicates.
pub open spec fn strictly_sorted(v: Seq<Seq<char>>) -> bool {
    forall|a: int, b: int| 0 <= a < b < v.len() ==> key_lt(v[a], v[b])
}

/// The key lies in folder `f`.
#[verifier::opaque]
pub open spec fn names_folder(key: Seq<char>, p: Seq<char>, d: Seq<char>, f: Seq<char>) -> bool {
    in_folder(key, p, d) && folder_of(key, p, d) == f
}

/// Some record of `records` lies in folder `f`.
pub open spec fn is_folder(records: Seq<ObjectMetadata>, p: Seq<char>, d: Seq<char>, f: Seq<char>) -> bool {
    exists|j: int| 0 <= j < records.len() && #[trigger] names_folder(records[j].key@, p, d, f)
}

proof fn lemma_first_occurrence(s: Seq<char>, d: Seq<char>, i: int)
    requires
        occurs_at(s, d, i),
        forall|j: int| 0 <= j < i ==> !occurs_at(s, d, j),
    ensures
        first_occurrence(s, d) == i,
{
    let k = first_occurrence(s, d);
    assert(occurs_at(s, d, k) && forall|j: int| 0 <= j < k ==> !occurs_at(s, d, j));
    if k < i {
        assert(!occurs_at(s, d, k));
    } else if k > i {
        assert(!occurs_at(s, d, i));
    }
}

/// Adds `f` to a strictly sorted list unless it is already there.
fn insert_sorted_unique(v: &mut Vec<String>, f: String)
    requires
        strictly_sorted(texts(old(v)@)),
    ensures
        strictly_sorted(texts(final(v)@)),
        forall|t: Seq<char>|
            #![trigger texts(final(v)@).contains(t)]
            texts(final(v)@).contains(t) <==> (texts(old(v)@).contains(t) || t == f@),
{
    let ghost before = texts(v@);
    let fc = chars_of(f.as_str());
    assert(fc@ == f@);
    let mut i: usize = 0;
    let mut stop = false;
    while !stop && i < v.len()
        invariant
            texts(v@) == before,
            fc@ == f@,
            i <= v@.len(),
            forall|a: int| 0 <= a < i ==> key_lt(before[a], f@),
            stop ==> i < v@.len() && !key_lt(before[i as int], f@),
        decreases v.len() - i + (if stop { 0int } else { 1int }),
    {
        let k = chars_of(v[i].as_str());
        assert(k@ == v@[i as int]@);
        assert(before[i as int] == v@[i as int]@);
        if !chars_lt(k.as_slice(), fc.as_slice()) {
            stop = true;
        } else {
            i = i + 1;
        }
    }
    if i < v.len() && v[i] == f {
        proof {
            assert forall|t: Seq<char>|
                #![trigger texts(v@).contains(t)]
                texts(v@).contains(t) <==> (before.contains(t) || t == f@) by {
                if t == f@ {
                    assert(before[i as int] == t);
                }
            }
        }
        return;
    }
    proof {
        if i < v@.len() {
            lemma_key_lt_total(f@, before[i as int]);
        }
    }
    let ghost fv = f@;
    v.insert(i, f);
    proof {
        let after = texts(v@);
        assert(after =~= before.insert(i as int, fv));
        assert forall|t: Seq<char>|
            #![trigger after.contains(t)]
            after.contains(t) <==> (before.contains(t) || t == fv) by {
            if after.contains(t) {
                let j = choose|j: int| 0 <= j < after.len() && after[j] == t;
                if j < i {
                    assert(before[j] == t);
                } else if j > i {
                    assert(before[j - 1] == t);
                }
            }
            if before.contains(t) {
                let j = choose|j: int| 0 <= j < before.len() && before[j] == t;
                if j < i {
                    assert(after[j] == t);
                } else {
                    assert(after[j + 1] == t);
                }
            }
            if t == fv {
                assert(after[i as int] == t);
            }
        }
        assert forall|a: int, b: int| 0 <= a < b < after.len() implies key_lt(after[a], after[b]) by {
            if b < i {
            } else if b == i {
            } else if a < i {
                lemma_key_lt_transitive(after[a], fv, before[i as int]);
                if b - 1 > i {
                    lemma_key_lt_transitive(after[a], before[i as int], after[b]);
                }
            } else if a == i {
                if b - 1 > i {
                    lemma_key_lt_transitive(fv, before[i as int], after[b]);
                }
            }
        }
    }
}

/// Splits the records of a prefix scan into direct objects and folders.
///
/// A record whose key starts with `prefix` and has no `delimiter` after it is
/// a direct object; one with a delimiter after the prefix contributes the
/// folder `prefix + (text up to that delimiter) + delimiter`. Records that do
/// not start with the prefix are left out. Objects keep the scan's order;
/// folders come sorted and without duplicates.
pub fn group_listing(records: &Vec<ObjectMetadata>, prefix: &str, delimiter: &str) -> (r:
    ListObjectsResponse)
    ensures
        r.objects@ == records@.filter(leaf_records(prefix@, delimiter@)),
        r.total == r.objects@.len(),
        strictly_sorted(texts(r.prefixes@)),
        forall|f: Seq<char>|
            #![trigger texts(r.prefixes@).contains(f)]
            texts(r.prefixes@).contains(f) <==> is_folder(records@, prefix@, delimiter@, f),
{
    let p = chars_of(prefix);
    let d = chars_of(delimiter);
    let plen = p.len();
    let ghost pred = leaf_records(prefix@, delimiter@);
    let mut objects: Vec<ObjectMetadata> = Vec::new();
    let mut prefixes: Vec<String> = Vec::new();
    let mut i: usize = 0;
    while i < records.len()
        invariant
            p@ == prefix@,
            d@ == delimiter@,
            plen == p@.len(),
            pred == leaf_records(prefix@, delimiter@),
            i <= records@.len(),
            objects@ == records@.take(i as int).filter(pred),
            strictly_sorted(texts(prefixes@)),
            forall|f: Seq<char>|
                #![trigger texts(prefixes@).contains(f)]
                texts(prefixes@).contains(f) <==> is_folder(records@.take(i as int), prefix@, delimiter@, f),
        decreases records.len() - i,
    {
        let ghost x = records@[i as int];
        let key = records[i].key.as_str();
        let k = chars_of(key);
        proof {
            assert(records@.take(i + 1) =~= records@.take(i as int).push(x));
            records@.take(i as int).lemma_filter_push(x, pred);
        }
        let ghost old_prefixes = texts(prefixes@);
        if starts_with_chars(k.as_slice(), p.as_slice()) {
            let found = find_from(k.as_slice(), d.as_slice(), plen);
            let ghost rest = rest_after(k@, p@);
            proof {
                assert forall|j: int| j >= 0 implies (occurs_at(rest, d@, j) <==> occurs_at(k@, d@, j + plen)) by {
                    if 0 <= j && j + d@.len() <= rest.len() {
                        assert(rest.subrange(j, j + d@.len()) =~= k@.subrange(j + plen, j + plen + d@.len()));
                    }
                }
            }
            match found {
                Some(idx) => {
                    proof {
                        assert(occurs_at(rest, d@, idx - plen));
                        assert forall|j: int| 0 <= j < idx - plen implies !occurs_at(rest, d@, j) by {
                            assert(!occurs_at(k@, d@, j + plen));
                        }
                        lemma_first_occurrence(rest, d@, idx - plen);
                        assert(in_folder(x.key@, prefix@, delimiter@));
                    }
                    let mut folder = String::from_str(key.substring_char(0, idx));
                    folder.append(delimiter);
                    proof {
                        assert(folder@ =~= folder_of(x.key@, prefix@, delimiter@));
                    }
                    let ghost fv = folder@;
                    insert_sorted_unique(&mut prefixes, folder);
                    proof {
                        assert forall|f: Seq<char>|
                            #![trigger texts(prefixes@).contains(f)]
                            texts(prefixes@).contains(f) <==> is_folder(records@.take(i + 1), prefix@, delimiter@, f) by {
                            lemma_folder_step(records@, i as int, prefix@, delimiter@, f);
                            reveal(names_folder);
                        }
                    }
                },
                None => {
                    proof {
                        assert forall|j: int| !occurs_at(rest, d@, j) by {
                            if j >= 0 {
                                assert(!occurs_at(k@, d@, j + plen));
                            }
                        }
                        assert forall|f: Seq<char>|
                            #![trigger texts(prefixes@).contains(f)]
                            texts(prefixes@).contains(f) <==> is_folder(records@.take(i + 1), prefix@, delimiter@, f) by {
                            lemma_folder_step(records@, i as int, prefix@, delimiter@, f);
                            reveal(names_folder);
                        }
                    }
                    objects.push(records[i].duplicate());
                },
            }
        } else {
            proof {
                assert forall|f: Seq<char>|
                    #![trigger texts(prefixes@).contains(f)]
                    texts(prefixes@).contains(f) <==> is_folder(records@.take(i + 1), prefix@, delimiter@, f) by {
                    lemma_folder_step(records@, i as int, prefix@, delimiter@, f);
                    reveal(names_folder);
                }
            }
        }
        i = i + 1;
    }
    assert(records@.take(i as int) =~= records@);
    let total = objects.len();
    ListObjectsResponse { objects, total, prefixes }
}

/// The delimiter of folders when a listing names none.
pub open spec fn default_delimiter() -> Seq<char> {
    seq!['/']
}

/// A folder prefix as a folder delete uses it: with a trailing `/`, added
/// when missing, so that `docs` cannot reach `docs2/file`.
pub open spec fn folder_prefix(p: Seq<char>) -> Seq<char> {
    if p.len() > 0 && p.last() == '/' {
        p
    } else {
        p.push('/')
    }
}

/// The prefix that a folder delete removes records under.
pub fn normalize_folder_prefix(prefix: &str) -> (r: String)
    ensures
        r@ == folder_prefix(prefix@),
{
    let n = prefix.unicode_len();
    let mut r = String::from_str(prefix);
    if n == 0 || prefix.get_char(n - 1) != '/' {
        r.append("/");
        proof {
            reveal_strlit("/");
        }
    }
    r
}

/// The content type recorded for an upload: the one declared, else
/// `application/octet-stream`.
pub fn content_type_or_default(declared: Option<&str>) -> (r: String)
    ensures
        declared matches Some(t) ==> r@ == t@,
        declared is None ==> r@ == "application/octet-stream"@,
{
    match declared {
        Some(t) => String::from_str(t),
        None => String::from_str("application/octet-stream"),
    }
}

/// The blob half of a delete: a blob that is already gone is no failure,
/// since the catalog decides whether the object exists; other failures stand.
pub fn settle_blob_delete(outcome: Result<(), AppError>) -> (r: Result<(), AppError>)
    ensures
        outcome matches Err(AppError::NotFound(_)) ==> r is Ok,
        !(outcome matches Err(AppError::NotFound(_))) ==> r == outcome,
{
    match outcome {
        Err(AppError::NotFound(_)) => Ok(()),
        other => other,
    }
}

/// The catalog half of a delete: the object did not exist when no record
/// was removed.
pub fn finish_delete(key: &str, removed: bool) -> (r: Result<(), AppError>)
    ensures
        removed ==> r is Ok,
        !removed ==> (r matches Err(AppError::NotFound(k)) && k@ == key@),
{
    if removed {
        Ok(())
    } else {
        Err(AppError::NotFound(String::from_str(key)))
    }
}

/// A listing over the catalog: the records under the query's prefix, at most
/// its limit of them, split into direct objects and folders by its delimiter.
pub fn list_objects(catalog: &MemoryCatalog, q: &ListQuery) -> (r: ListObjectsResponse)
    requires
        catalog.wf(),
    ensures
        ({
            let p = match q.prefix {
                Some(s) => s@,
                None => Seq::<char>::empty(),
            };
            let d = match q.delimiter {
                Some(s) => s@,
                None => default_delimiter(),
            };
            let scanned = catalog@.filter(under_prefix(p)).take(
                capped(
                    catalog@.filter(under_prefix(p)).len() as int,
                    match q.limit {
                        Some(n) => n,
                        None => DEFAULT_LIST_LIMIT,
                    },
                ),
            );
            &&& r.objects@ == scanned.filter(leaf_records(p, d))
            &&& r.total == r.objects@.len()
            &&& strictly_sorted(texts(r.prefixes@))
            &&& forall|f: Seq<char>|
                #![trigger texts(r.prefixes@).contains(f)]
                texts(r.prefixes@).contains(f) <==> is_folder(scanned, p, d, f)
        }),
{
    let records = match &q.prefix {
        Some(s) => catalog.list(Some(s.as_str()), q.limit),
        None => catalog.list(None, q.limit),
    };
    let empty = String::new();
    let slash = String::from_str("/");
    proof {
        reveal_strlit("/");
    }
    let prefix: &str = match &q.prefix {
        Some(s) => s.as_str(),
        None => empty.as_str(),
    };
    let delimiter: &str = match &q.delimiter {
        Some(s) => s.as_str(),
        None => slash.as_str(),
    };
    assert(delimiter@ == (match q.delimiter {
        Some(s) => s@,
        None => default_delimiter(),
    }));
    group_listing(&records, prefix, delimiter)
}

/// A second delete of the same key finds no record: the catalog reports
/// that the object does not exist.
pub proof fn lemma_second_delete_finds_nothing(s: Seq<ObjectMetadata>, k: Seq<char>)
    ensures
        !has_key(s.filter(without_key(k)), k),
        !has_key(Seq::<ObjectMetadata>::empty(), k),
{
    let t = s.filter(without_key(k));
    if has_key(t, k) {
        let i = choose|i: int| 0 <= i < t.len() && t[i].key@ == k;
        s.lemma_filter_pred(without_key(k), i);
    }
}

/// After a delete by prefix, exactly the records whose key does not start
/// with the prefix remain: none under it, every other one untouched.
pub proof fn lemma_prefix_delete_exact(s: Seq<ObjectMetadata>, p: Seq<char>)
    ensures
        forall|x: ObjectMetadata|
            #![trigger s.filter(outside_prefix(p)).contains(x)]
            s.filter(outside_prefix(p)).contains(x) <==> s.contains(x) && !p.is_prefix_of(x.key@),
{
    assert forall|x: ObjectMetadata|
        #![trigger s.filter(outside_prefix(p)).contains(x)]
        s.filter(outside_prefix(p)).contains(x) <==> s.contains(x) && !p.is_prefix_of(x.key@) by {
        let t = s.filter(outside_prefix(p));
        if t.contains(x) {
            let i = choose|i: int| 0 <= i < t.len() && t[i] == x;
            s.lemma_filter_pred(outside_prefix(p), i);
            s.lemma_filter_contains_rev(outside_prefix(p), x);
        }
        if s.contains(x) && !p.is_prefix_of(x.key@) {
            let i = choose|i: int| 0 <= i < s.len() && s[i] == x;
            s.lemma_filter_contains(outside_prefix(p), i);
        }
    }
}

/// Of two uploads to the same key, the record of the one whose upsert came
/// last is the one the catalog holds for that key.
pub proof fn lemma_last_upsert_wins(
    s0: Seq<ObjectMetadata>,
    s1: Seq<ObjectMetadata>,
    s2: Seq<ObjectMetadata>,
    m1: ObjectMetadata,
    m2: ObjectMetadata,
)
    requires
        upsert_of(s0, s1, m1),
        upsert_of(s1, s2, m2),
        m1.key@ == m2.key@,
    ensures
        forall|x: ObjectMetadata|
            x.key@ == m2.key@ ==> (#[trigger] s2.contains(x) <==> x == m2),
{
}

/// An empty catalog counts no records and no bytes.
pub proof fn lemma_stats_of_empty()
    ensures
        total_size(Seq::<ObjectMetadata>::empty()) == 0,
{
}

proof fn lemma_folder_step(records: Seq<ObjectMetadata>, i: int, p: Seq<char>, d: Seq<char>, f: Seq<char>)
    requires
        0 <= i < records.len(),
    ensures
        is_folder(records.take(i + 1), p, d, f) <==> (is_folder(records.take(i), p, d, f)
            || names_folder(records[i].key@, p, d, f)),
{
    let a = records.take(i);
    let b = records.take(i + 1);
    if is_folder(a, p, d, f) {
        let j = choose|j: int| 0 <= j < a.len() && #[trigger] names_folder(a[j].key@, p, d, f);
        assert(b[j] == a[j]);
        assert(names_folder(b[j].key@, p, d, f));
    }
    if is_folder(b, p, d, f) {
        let j = choose|j: int| 0 <= j < b.len() && #[trigger] names_folder(b[j].key@, p, d, f);
        if j < i {
            assert(a[j] == b[j]);
            assert(names_folder(a[j].key@, p, d, f));
        }
    }
    if names_folder(records[i].key@, p, d, f) {
        assert(b[i] == records[i]);
        assert(names_folder(b[i].key@, p, d, f));
    }
}

} // verus!
