//! The metadata catalog: which keys exist and what is recorded of them.
//!
//! `MemoryCatalog` holds the catalog's rules over records kept in memory,
//! sorted by key. The statements for a relational engine that keeps the same
//! table on disk are built by `search_clauses` and `SearchClause::condition`.
use crate::error::AppError;
use crate::models::ObjectMetadata;
use vstd::string::StringExecFns;
use crate::text::{
    chars_lt, chars_of, contains_chars, contains_seq, key_lt, lemma_key_lt_irreflexive, lemma_key_lt_total, lemma_key_lt_transitive, starts_with_chars,
};
use vstd::prelude::*;

verus! {

broadcast use vstd::seq_lib::group_seq_properties;

/// Records strictly increasing by key: hence no two share a key.
pub open spec fn sorted_by_key(s: Seq<ObjectMetadata>) -> bool {
    forall|i: int, j: int| 0 <= i < j < s.len() ==> key_lt(s[i].key@, s[j].key@)
}

/// Some record of `s` has key `k`.
pub open spec fn has_key(s: Seq<ObjectMetadata>, k: Seq<char>) -> bool {
    exists|i: int| 0 <= i < s.len() && s[i].key@ == k
}

/// The records of `s` whose key is not `k`.
pub open spec fn without_key(k: Seq<char>) -> spec_fn(ObjectMetadata) -> bool {
    |x: ObjectMetadata| x.key@ != k
}

/// The records of `s` whose key does not start with `p`.
pub open spec fn outside_prefix(p: Seq<char>) -> spec_fn(ObjectMetadata) -> bool {
    |x: ObjectMetadata| !p.is_prefix_of(x.key@)
}

/// The records whose key starts with `p`.
pub open spec fn under_prefix(p: Seq<char>) -> spec_fn(ObjectMetadata) -> bool {
    |x: ObjectMetadata| p.is_prefix_of(x.key@)
}

/// The sum of the sizes of the records.
pub open spec fn total_size(s: Seq<ObjectMetadata>) -> int
    decreases s.len(),
{
    if s.len() == 0 {
        0
    } else {
        total_size(s.drop_last()) + s.last().size
    }
}

/// How many of `n` results a query returns under `limit`: a negative limit
/// sets no cap.
pub open spec fn capped(n: int, limit: i64) -> int {
    if limit < 0 || n <= limit {
        n
    } else {
        limit as int
    }
}

/// The key prefix that a listing asks for; none means every key.
pub open spec fn prefix_of(p: Option<&str>) -> Seq<char> {
    match p {
        Some(s) => s@,
        None => Seq::empty(),
    }
}

/// What a removal keeps: records whose key is not `pat` when `whole`, else
/// records whose key does not start with `pat`.
pub open spec fn keep_pred(pat: Seq<char>, whole: bool) -> spec_fn(ObjectMetadata) -> bool {
    if whole {
        without_key(pat)
    } else {
        outside_prefix(pat)
    }
}

proof fn lemma_total_size_prefix(s: Seq<ObjectMetadata>, n: int)
    requires
        0 <= n <= s.len(),
        forall|i: int| 0 <= i < s.len() ==> s[i].size >= 0,
    ensures
        total_size(s.take(n)) <= total_size(s),
    decreases s.len() - n,
{
    if n < s.len() {
        lemma_total_size_prefix(s, n + 1);
        assert(s.take(n + 1).drop_last() =~= s.take(n));
    } else {
        assert(s.take(n) =~= s);
    }
}

/// Number of records a listing returns when it names no limit.
pub const DEFAULT_LIST_LIMIT: i64 = 1000;

/// Number of records a search returns when it names no limit.
pub const DEFAULT_SEARCH_LIMIT: i64 = 100;


/// The optional filters of a search; a record qualifies only if it meets
/// every filter given.
#[derive(Debug, Clone)]
pub struct SearchQuery {
    /// Text that must occur in the key.
    pub key: Option<String>,
    /// The exact content type.
    pub content_type: Option<String>,
    /// Smallest size, inclusive.
    pub min_size: Option<i64>,
    /// Largest size, inclusive.
    pub max_size: Option<i64>,
    /// Most records to return (100 when none is given; a negative limit sets
    /// no cap).
    pub limit: Option<i64>,
}

/// One condition of a search, with the value it is bound to.
#[derive(Debug, Clone)]
pub enum SearchClause {
    KeyContains(String),
    ContentTypeIs(String),
    MinSize(i64),
    MaxSize(i64),
}

/// Whether a record meets one condition.
pub open spec fn clause_holds(c: SearchClause, x: ObjectMetadata) -> bool {
    match c {
        SearchClause::KeyContains(t) => contains_seq(x.key@, t@),
        SearchClause::ContentTypeIs(t) => x.content_type@ == t@,
        SearchClause::MinSize(n) => x.size >= n,
        SearchClause::MaxSize(n) => x.size <= n,
    }
}

/// Whether a record meets every filter of a query.
pub open spec fn query_matches(q: SearchQuery, x: ObjectMetadata) -> bool {
    &&& (q.key matches Some(t) ==> contains_seq(x.key@, t@))
    &&& (q.content_type matches Some(t) ==> x.content_type@ == t@)
    &&& (q.min_size matches Some(n) ==> x.size >= n)
    &&& (q.max_size matches Some(n) ==> x.size <= n)
}

/// `query_matches` as a predicate.
pub open spec fn matching(q: SearchQuery) -> spec_fn(ObjectMetadata) -> bool {
    |x: ObjectMetadata| query_matches(q, x)
}

/// The limit that a search applies.
pub open spec fn search_limit(q: SearchQuery) -> i64 {
    match q.limit {
        Some(n) => n,
        None => DEFAULT_SEARCH_LIMIT,
    }
}

/// The conditions of a query, in the fixed order key, content type, minimum
/// size, maximum size; one for each filter given.
pub open spec fn clauses_of(q: SearchQuery) -> Seq<SearchClause> {
    (match q.key {
        Some(t) => seq![SearchClause::KeyContains(t)],
        None => Seq::empty(),
    }) + (match q.content_type {
        Some(t) => seq![SearchClause::ContentTypeIs(t)],
        None => Seq::empty(),
    }) + (match q.min_size {
        Some(n) => seq![SearchClause::MinSize(n)],
        None => Seq::empty(),
    }) + (match q.max_size {
        Some(n) => seq![SearchClause::MaxSize(n)],
        None => Seq::empty(),
    })
}

/// The conditions of `q`, each bound to its value, in a fixed order.
pub fn search_clauses(q: &SearchQuery) -> (r: Vec<SearchClause>)
    ensures
        r@ == clauses_of(*q),
        forall|x: ObjectMetadata|
            (forall|i: int| 0 <= i < r@.len() ==> clause_holds(#[trigger] r@[i], x)) <==> query_matches(
                *q,
                x,
            ),
{
    let mut r: Vec<SearchClause> = Vec::new();
    match &q.key {
        Some(t) => r.push(SearchClause::KeyContains(t.clone())),
        None => {},
    }
    let ghost a = r@;
    match &q.content_type {
        Some(t) => r.push(SearchClause::ContentTypeIs(t.clone())),
        None => {},
    }
    let ghost b = r@;
    match q.min_size {
        Some(n) => r.push(SearchClause::MinSize(n)),
        None => {},
    }
    let ghost c = r@;
    match q.max_size {
        Some(n) => r.push(SearchClause::MaxSize(n)),
        None => {},
    }
    proof {
        assert(r@ =~= clauses_of(*q));
        assert forall|x: ObjectMetadata|
            (forall|i: int| 0 <= i < r@.len() ==> clause_holds(#[trigger] r@[i], x)) <==> query_matches(
                *q,
                x,
            ) by {
            if forall|i: int| 0 <= i < r@.len() ==> clause_holds(#[trigger] r@[i], x) {
                if q.key is Some {
                    assert(clause_holds(r@[0], x));
                }
                if q.content_type is Some {
                    assert(clause_holds(r@[a.len() as int], x));
                }
                if q.min_size is Some {
                    assert(clause_holds(r@[b.len() as int], x));
                }
                if q.max_size is Some {
                    assert(clause_holds(r@[c.len() as int], x));
                }
            }
        }
    }
    r
}

/// The SQL text of a condition over the `objects` table.
pub open spec fn condition_text(c: SearchClause) -> Seq<char> {
    match c {
        SearchClause::KeyContains(_) => "instr(key, ?) > 0"@,
        SearchClause::ContentTypeIs(_) => "content_type = ?"@,
        SearchClause::MinSize(_) => "size >= ?"@,
        SearchClause::MaxSize(_) => "size <= ?"@,
    }
}

impl SearchClause {
    /// The condition as SQL over the `objects` table, with one `?` for the
    /// bound value: case-sensitive substring, exact match, inclusive bounds.
    pub fn condition(&self) -> (r: &'static str)
        ensures
            r@ == condition_text(*self),
    {
        match self {
            SearchClause::KeyContains(_) => "instr(key, ?) > 0",
            SearchClause::ContentTypeIs(_) => "content_type = ?",
            SearchClause::MinSize(_) => "size >= ?",
            SearchClause::MaxSize(_) => "size <= ?",
        }
    }
}

/// Whether a record meets every filter of a query.
pub fn record_matches(q: &SearchQuery, x: &ObjectMetadata) -> (r: bool)
    ensures
        r == query_matches(*q, *x),
{
    match &q.key {
        Some(t) => {
            let k = chars_of(x.key.as_str());
            let tc = chars_of(t.as_str());
            if !contains_chars(k.as_slice(), tc.as_slice()) {
                return false;
            }
        },
        None => {},
    }
    match &q.content_type {
        Some(t) => {
            if !(x.content_type == *t) {
                return false;
            }
        },
        None => {},
    }
    match q.min_size {
        Some(n) => {
            if x.size < n {
                return false;
            }
        },
        None => {},
    }
    match q.max_size {
        Some(n) => {
            if x.size > n {
                return false;
            }
        },
        None => {},
    }
    true
}

/// `after` holds `m`, and the records of `before` under other keys, and
/// nothing else.
pub open spec fn upsert_of(before: Seq<ObjectMetadata>, after: Seq<ObjectMetadata>, m: ObjectMetadata) -> bool {
    forall|x: ObjectMetadata|
        #![trigger after.contains(x)]
        after.contains(x) <==> (x == m || (before.contains(x) && x.key@ != m.key@))
}

/// Records in order of creation, newest first.
pub open spec fn newest_first(s: Seq<ObjectMetadata>) -> bool {
    forall|a: int, b: int| 0 <= a < b < s.len() ==> s[a].created_at >= s[b].created_at
}

/// The catalog, held in memory: one record per live key, in key order.
pub struct MemoryCatalog {
    records: Vec<ObjectMetadata>,
}

impl View for MemoryCatalog {
    type V = Seq<ObjectMetadata>;

    closed spec fn view(&self) -> Seq<ObjectMetadata> {
        self.records@
    }
}

impl MemoryCatalog {
    /// Records sorted by key, with non-negative sizes.
    pub open spec fn wf(&self) -> bool {
        &&& sorted_by_key(self@)
        &&& forall|i: int| 0 <= i < self@.len() ==> self@[i].size >= 0
        &&& self@.len() <= i64::MAX
    }

    /// An empty catalog.
    pub fn new() -> (r: MemoryCatalog)
        ensures
            r.wf(),
            r@ == Seq::<ObjectMetadata>::empty(),
    {
        MemoryCatalog { records: Vec::new() }
    }

    /// The number of live records.
    pub fn len(&self) -> (r: usize)
        ensures
            r == self@.len(),
    {
        self.records.len()
    }

    /// The position of the first record whose key is not before `key`.
    fn lower_bound(&self, key: &[char]) -> (r: usize)
        requires
            self.wf(),
        ensures
            r <= self@.len(),
            forall|j: int| 0 <= j < r ==> key_lt(self@[j].key@, key@),
            r < self@.len() ==> !key_lt(self@[r as int].key@, key@),
    {
        let mut i: usize = 0;
        while i < self.records.len()
            invariant
                i <= self@.len(),
                forall|j: int| 0 <= j < i ==> key_lt(self@[j].key@, key@),
            decreases self.records.len() - i,
        {
            let k = chars_of(self.records[i].key.as_str());
            if !chars_lt(k.as_slice(), key) {
                return i;
            }
            i = i + 1;
        }
        i
    }

    proof fn lemma_key_at_bound(&self, key: Seq<char>, b: int)
        requires
            self.wf(),
            0 <= b <= self@.len(),
            forall|j: int| 0 <= j < b ==> key_lt(self@[j].key@, key),
            b < self@.len() ==> !key_lt(self@[b].key@, key),
        ensures
            has_key(self@, key) <==> (b < self@.len() && self@[b].key@ == key),
            b < self@.len() && self@[b].key@ != key ==> key_lt(key, self@[b].key@),
    {
        if b < self@.len() && self@[b].key@ != key {
            lemma_key_lt_total(key, self@[b].key@);
        }
        if has_key(self@, key) {
            let i = choose|i: int| 0 <= i < self@.len() && self@[i].key@ == key;
            if i < b {
                lemma_key_lt_irreflexive(key);
            } else if i > b {
                if self@[b].key@ != key {
                    lemma_key_lt_transitive(key, self@[b].key@, self@[i].key@);
                    lemma_key_lt_irreflexive(key);
                }
            }
        }
    }

    /// The record for `key`, if there is one.
    pub fn get(&self, key: &str) -> (r: Option<ObjectMetadata>)
        requires
            self.wf(),
        ensures
            r is Some <==> has_key(self@, key@),
            r is Some ==> r->Some_0.key@ == key@ && self@.contains(r->Some_0),
    {
        let k = chars_of(key);
        let b = self.lower_bound(k.as_slice());
        proof {
            self.lemma_key_at_bound(key@, b as int);
        }
        if b < self.records.len() && self.records[b].key == key.to_owned() {
            Some(self.records[b].duplicate())
        } else {
            None
        }
    }

    /// Stores `m` as the record of its key: a new record, or one that replaces
    /// every field of the record that was there.
    pub fn insert(&mut self, m: &ObjectMetadata)
        requires
            old(self).wf(),
            m.size >= 0,
            old(self)@.len() < i64::MAX,
        ensures
            final(self).wf(),
            upsert_of(old(self)@, final(self)@, *m),
    {
        let k = chars_of(m.key.as_str());
        let b = self.lower_bound(k.as_slice());
        proof {
            self.lemma_key_at_bound(m.key@, b as int);
        }
        let ghost before = self@;
        if b < self.records.len() && self.records[b].key == m.key {
            self.records.set(b, m.duplicate());
            proof {
                assert forall|x: ObjectMetadata|
                    #![trigger self@.contains(x)]
                    self@.contains(x) <==> (x == *m || (before.contains(x) && x.key@ != m.key@)) by {
                    if before.contains(x) && x.key@ != m.key@ {
                        let i = choose|i: int| 0 <= i < before.len() && before[i] == x;
                        assert(self@[i] == x);
                    }
                    if self@.contains(x) && x != *m {
                        let i = choose|i: int| 0 <= i < self@.len() && self@[i] == x;
                        assert(before[i] == x);
                        if i != b {
                            lemma_key_lt_irreflexive(x.key@);
                        }
                    }
                    if x == *m {
                        assert(self@[b as int] == x);
                    }
                }
                assert forall|i: int, j: int| 0 <= i < j < self@.len() implies key_lt(
                    self@[i].key@,
                    self@[j].key@,
                ) by {
                    assert(before[i].key@ == self@[i].key@);
                    assert(before[j].key@ == self@[j].key@);
                }
            }
        } else {
            self.records.insert(b, m.duplicate());
            proof {
                assert forall|x: ObjectMetadata|
                    #![trigger self@.contains(x)]
                    self@.contains(x) <==> (x == *m || (before.contains(x) && x.key@ != m.key@)) by {
                    if before.contains(x) {
                        let i = choose|i: int| 0 <= i < before.len() && before[i] == x;
                        if i < b {
                            assert(self@[i] == x);
                        } else {
                            assert(self@[i + 1] == x);
                        }
                        if x.key@ == m.key@ {
                            assert(has_key(before, m.key@));
                        }
                    }
                    if self@.contains(x) && x != *m {
                        let i = choose|i: int| 0 <= i < self@.len() && self@[i] == x;
                        if i < b {
                            assert(before[i] == x);
                        } else {
                            assert(before[i - 1] == x);
                        }
                    }
                    if x == *m {
                        assert(self@[b as int] == x);
                    }
                }
                assert forall|i: int, j: int| 0 <= i < j < self@.len() implies key_lt(
                    self@[i].key@,
                    self@[j].key@,
                ) by {
                    if j < b {
                    } else if j == b {
                    } else if i < b {
                        lemma_key_lt_transitive(self@[i].key@, m.key@, before[b as int].key@);
                        if j - 1 > b {
                            lemma_key_lt_transitive(self@[i].key@, before[b as int].key@, self@[j].key@);
                        }
                    } else if i == b {
                        if j - 1 > b {
                            lemma_key_lt_transitive(m.key@, before[b as int].key@, self@[j].key@);
                        }
                    } else {
                    }
                }
            }
        }
    }

    /// Keeps the records that `keep_pred(pat, whole)` admits; the number
    /// removed.
    fn remove_matching(&mut self, pat: &[char], whole: bool) -> (removed: usize)
        requires
            old(self).wf(),
        ensures
            final(self).wf(),
            final(self)@ == old(self)@.filter(keep_pred(pat@, whole)),
            removed == old(self)@.len() - final(self)@.len(),
            removed > 0 <==> exists|j: int|
                0 <= j < old(self)@.len() && !keep_pred(pat@, whole)(old(self)@[j]),
    {
        let ghost before = self@;
        let ghost pred = keep_pred(pat@, whole);
        let mut out: Vec<ObjectMetadata> = Vec::new();
        let mut removed: usize = 0;
        let mut i: usize = 0;
        while i < self.records.len()
            invariant
                before == self@,
                old(self).wf(),
                before == old(self)@,
                pred == keep_pred(pat@, whole),
                i <= before.len(),
                out@ == before.take(i as int).filter(pred),
                sorted_by_key(out@),
                forall|a: int| 0 <= a < out@.len() ==> before.take(i as int).contains(#[trigger] out@[a]),
                removed + out@.len() == i,
                removed > 0 <==> exists|j: int| 0 <= j < i && !pred(before[j]),
            decreases self.records.len() - i,
        {
            let k = chars_of(self.records[i].key.as_str());
            let hit = if whole {
                k.len() == pat.len() && starts_with_chars(k.as_slice(), pat)
            } else {
                starts_with_chars(k.as_slice(), pat)
            };
            proof {
                assert(before.take(i + 1) =~= before.take(i as int).push(before[i as int]));
                before.take(i as int).lemma_filter_push(before[i as int], pred);
                assert(k@ == before[i as int].key@);
                if whole && k@.len() == pat@.len() && pat@.is_prefix_of(k@) {
                    assert(k@ =~= pat@);
                }
                if k@ == pat@ {
                    assert(pat@.is_prefix_of(k@));
                }
                assert(hit == !pred(before[i as int]));
            }
            if hit {
                removed = removed + 1;
            } else {
                proof {
                    assert forall|a: int| 0 <= a < out@.len() implies key_lt(
                        out@[a].key@,
                        before[i as int].key@,
                    ) by {
                        let j = choose|j: int| 0 <= j < i && before.take(i as int)[j] == out@[a];
                        assert(before[j] == out@[a]);
                    }
                }
                out.push(self.records[i].duplicate());
                proof {
                    assert forall|a: int| 0 <= a < out@.len() implies before.take(i + 1).contains(
                        #[trigger] out@[a],
                    ) by {
                        if a < out@.len() - 1 {
                            let j = choose|j: int| 0 <= j < i && before.take(i as int)[j] == out@[a];
                            assert(before.take(i + 1)[j] == out@[a]);
                        } else {
                            assert(before.take(i + 1)[i as int] == out@[a]);
                        }
                    }
                }
            }
            i = i + 1;
        }
        proof {
            assert(before.take(i as int) =~= before);
            assert forall|a: int| 0 <= a < out@.len() implies out@[a].size >= 0 by {
                let j = choose|j: int| 0 <= j < before.len() && before.take(i as int)[j] == out@[a];
                assert(before[j] == out@[a]);
            }
        }
        self.records = out;
        removed
    }

    /// Removes the record for `key`; whether there was one.
    pub fn delete(&mut self, key: &str) -> (r: bool)
        requires
            old(self).wf(),
        ensures
            final(self).wf(),
            r == has_key(old(self)@, key@),
            final(self)@ == old(self)@.filter(without_key(key@)),
    {
        let k = chars_of(key);
        let removed = self.remove_matching(k.as_slice(), true);
        removed > 0
    }

    /// Removes every record whose key starts with `prefix`; how many there were.
    pub fn delete_by_prefix(&mut self, prefix: &str) -> (r: i64)
        requires
            old(self).wf(),
        ensures
            final(self).wf(),
            final(self)@ == old(self)@.filter(outside_prefix(prefix@)),
            r == old(self)@.len() - final(self)@.len(),
    {
        let k = chars_of(prefix);
        let removed = self.remove_matching(k.as_slice(), false);
        removed as i64
    }

    /// The number of records and the sum of their sizes, or a database error
    /// when the sum does not fit an `i64`.
    pub fn get_stats(&self) -> (r: Result<(i64, i64), AppError>)
        requires
            self.wf(),
        ensures
            total_size(self@) <= i64::MAX ==> r == Ok::<(i64, i64), AppError>(
                (self@.len() as i64, total_size(self@) as i64),
            ),
            total_size(self@) > i64::MAX ==> r matches Err(AppError::Database(_)),
    {
        let mut sum: i64 = 0;
        let mut i: usize = 0;
        while i < self.records.len()
            invariant
                self.wf(),
                i <= self@.len(),
                sum == total_size(self@.take(i as int)),
            decreases self.records.len() - i,
        {
            assert(self@.take(i + 1).drop_last() =~= self@.take(i as int));
            let size = self.records[i].size;
            match sum.checked_add(size) {
                Some(v) => {
                    sum = v;
                },
                None => {
                    proof {
                        lemma_total_size_prefix(self@, i + 1);
                    }
                    return Err(AppError::Database(String::from_str("integer overflow")));
                },
            }
            i = i + 1;
        }
        assert(self@.take(i as int) =~= self@);
        Ok((self.records.len() as i64, sum))
    }

    /// The records whose key starts with `prefix` (every record when there is
    /// none), in key order, at most `limit` of them (1000 when none is given;
    /// a negative limit sets no cap).
    pub fn list(&self, prefix: Option<&str>, limit: Option<i64>) -> (r: Vec<ObjectMetadata>)
        requires
            self.wf(),
        ensures
            r@ == self@.filter(under_prefix(prefix_of(prefix))).take(
                capped(
                    self@.filter(under_prefix(prefix_of(prefix))).len() as int,
                    match limit {
                        Some(n) => n,
                        None => DEFAULT_LIST_LIMIT,
                    },
                ),
            ),
    {
        let p: Vec<char> = match prefix {
            Some(s) => chars_of(s),
            None => Vec::new(),
        };
        assert(p@ == prefix_of(prefix));
        let ghost pred = under_prefix(p@);
        let mut out: Vec<ObjectMetadata> = Vec::new();
        let mut i: usize = 0;
        while i < self.records.len()
            invariant
                i <= self@.len(),
                pred == under_prefix(p@),
                out@ == self@.take(i as int).filter(pred),
            decreases self.records.len() - i,
        {
            let k = chars_of(self.records[i].key.as_str());
            proof {
                assert(self@.take(i + 1) =~= self@.take(i as int).push(self@[i as int]));
                self@.take(i as int).lemma_filter_push(self@[i as int], pred);
                assert(k@ == self@[i as int].key@);
            }
            if starts_with_chars(k.as_slice(), p.as_slice()) {
                out.push(self.records[i].duplicate());
            }
            i = i + 1;
        }
        assert(self@.take(i as int) =~= self@);
        let lim = match limit {
            Some(n) => n,
            None => DEFAULT_LIST_LIMIT,
        };
        if lim >= 0 && (lim as u64) < (out.len() as u64) {
            out.truncate(lim as usize);
        }
        out
    }

    /// The records that meet every filter of `q`, newest first, at most
    /// `search_limit(q)` of them; where the limit cuts, those left out are
    /// no newer than the last one returned.
    pub fn search(&self, q: &SearchQuery) -> (r: Vec<ObjectMetadata>)
        requires
            self.wf(),
        ensures
            r@.len() == capped(self@.filter(matching(*q)).len() as int, search_limit(*q)),
            r@.no_duplicates(),
            newest_first(r@),
            forall|x: ObjectMetadata| #[trigger]
                r@.contains(x) ==> self@.contains(x) && query_matches(*q, x),
            forall|x: ObjectMetadata|
                self@.contains(x) && query_matches(*q, x) && !(#[trigger] r@.contains(x)) && r@.len()
                    > 0 ==> x.created_at <= r@.last().created_at,
    {
        let ghost pred = matching(*q);
        let mut sorted: Vec<ObjectMetadata> = Vec::new();
        let mut i: usize = 0;
        while i < self.records.len()
            invariant
                self.wf(),
                pred == matching(*q),
                i <= self@.len(),
                sorted@.len() == self@.take(i as int).filter(pred).len(),
                sorted@.no_duplicates(),
                newest_first(sorted@),
                forall|x: ObjectMetadata| #[trigger]
                    sorted@.contains(x) <==> self@.take(i as int).contains(x) && query_matches(*q, x),
            decreases self.records.len() - i,
        {
            let ghost before = sorted@;
            let ghost rec = self@[i as int];
            proof {
                assert(self@.take(i + 1) =~= self@.take(i as int).push(rec));
                self@.take(i as int).lemma_filter_push(rec, pred);
                assert forall|x: ObjectMetadata|
                    self@.take(i + 1).contains(x) <==> self@.take(i as int).contains(x) || x == rec by {
                    if self@.take(i + 1).contains(x) && x != rec {
                        let t = self@.take(i + 1);
                        let j = choose|j: int| 0 <= j < t.len() && t[j] == x;
                        assert(self@.take(i as int)[j] == x);
                    }
                    if self@.take(i as int).contains(x) {
                        let t = self@.take(i as int);
                        let j = choose|j: int| 0 <= j < t.len() && t[j] == x;
                        assert(self@.take(i + 1)[j] == x);
                    }
                    if x == rec {
                        assert(self@.take(i + 1)[i as int] == x);
                    }
                }
            }
            if record_matches(q, &self.records[i]) {
                proof {
                    if before.contains(rec) {
                        let t = self@.take(i as int);
                        let j = choose|j: int| 0 <= j < t.len() && t[j] == rec;
                        assert(self@[j] == rec);
                        lemma_key_lt_irreflexive(rec.key@);
                    }
                }
                let created = self.records[i].created_at;
                let mut pos: usize = 0;
                while pos < sorted.len() && sorted[pos].created_at >= created
                    invariant
                        sorted@ == before,
                        pos <= before.len(),
                        forall|a: int| 0 <= a < pos ==> before[a].created_at >= created,
                    decreases sorted.len() - pos,
                {
                    pos = pos + 1;
                }
                sorted.insert(pos, self.records[i].duplicate());
                proof {
                    let after = sorted@;
                    assert forall|x: ObjectMetadata| #[trigger]
                        after.contains(x) <==> before.contains(x) || x == rec by {
                        if after.contains(x) {
                            let j = choose|j: int| 0 <= j < after.len() && after[j] == x;
                            if j < pos {
                                assert(before[j] == x);
                            } else if j > pos {
                                assert(before[j - 1] == x);
                            }
                        }
                        if before.contains(x) {
                            let j = choose|j: int| 0 <= j < before.len() && before[j] == x;
                            if j < pos {
                                assert(after[j] == x);
                            } else {
                                assert(after[j + 1] == x);
                            }
                        }
                        if x == rec {
                            assert(after[pos as int] == x);
                        }
                    }
                    assert forall|a: int, b: int| 0 <= a < b < after.len() implies after[a].created_at
                        >= after[b].created_at by {
                        if b < pos {
                        } else if b == pos {
                        } else if a < pos {
                            assert(before[a].created_at >= created);
                            assert(before[pos as int].created_at < created);
                        } else if a == pos {
                            assert(before[pos as int].created_at < created);
                        }
                    }
                    assert forall|a: int, b: int| 0 <= a < b < after.len() implies after[a] != after[b] by {
                        if a == pos {
                            assert(before.contains(after[b]));
                        } else if b == pos {
                            assert(before.contains(after[a]));
                        } else {
                            let a0 = if a < pos { a } else { a - 1 };
                            let b0 = if b < pos { b } else { b - 1 };
                            assert(before[a0] == after[a] && before[b0] == after[b]);
                        }
                    }
                }
            }
            i = i + 1;
        }
        proof {
            assert(self@.take(i as int) =~= self@);
        }
        let ghost full = sorted@;
        let lim = match q.limit {
            Some(n) => n,
            None => DEFAULT_SEARCH_LIMIT,
        };
        if lim >= 0 && (lim as u64) < (sorted.len() as u64) {
            sorted.truncate(lim as usize);
        }
        proof {
            assert(sorted@ =~= full.take(sorted@.len() as int));
            assert forall|x: ObjectMetadata|
                self@.contains(x) && query_matches(*q, x) && !(#[trigger] sorted@.contains(x))
                    && sorted@.len() > 0 implies x.created_at <= sorted@.last().created_at by {
                assert(self@.take(i as int).contains(x));
                assert(full.contains(x));
                let j = choose|j: int| 0 <= j < full.len() && full[j] == x;
                if j < sorted@.len() {
                    assert(sorted@[j] == x);
                }
                assert(full[sorted@.len() - 1] == sorted@.last());
            }
            assert forall|x: ObjectMetadata| #[trigger] sorted@.contains(x) implies full.contains(x) by {
                let j = choose|j: int| 0 <= j < sorted@.len() && sorted@[j] == x;
                assert(full[j] == x);
            }
        }
        sorted
    }
}

} // verus!
