//! The blob store's logic: where a key's bytes live on disk, and the checks
//! and hashing applied to an upload as its chunks arrive.
use crate::digest::{ContentHasher, etag_of, hasher_input, hex_encode, hex_lower, sha256_digest, sha256_of};
use crate::error::AppError;
use vstd::prelude::*;
use vstd::string::StrSliceExecFns;
use vstd::string::StringExecFns;
use vstd::utf8::encode_utf8;

verus! {

/// The hex digest that names a key's blob file.
pub open spec fn location_name(key: Seq<char>) -> Seq<char> {
    hex_lower(sha256_of(encode_utf8(key)))
}

/// The fan-out subdirectory of a key's blob: the first two hex digits.
pub open spec fn location_subdir(key: Seq<char>) -> Seq<char> {
    location_name(key).subrange(0, 2)
}

/// A path with one more component, joined as a Unix path buffer joins them:
/// a separator is added unless the base is empty or already ends with one.
pub open spec fn join_path(base: Seq<char>, part: Seq<char>) -> Seq<char> {
    if base.len() == 0 || base.last() == '/' {
        base + part
    } else {
        base + seq!['/'] + part
    }
}

/// The full path of a key's blob under a base directory.
pub open spec fn object_path(base: Seq<char>, key: Seq<char>) -> Seq<char> {
    join_path(join_path(base, location_subdir(key)), location_name(key))
}

/// Where a key's blob lives, relative to the store's base directory.
#[derive(Debug, Clone)]
pub struct BlobLocation {
    pub subdir: String,
    pub file_name: String,
}

/// The location of a key's blob; a pure function of the key.
pub fn locate(key: &str) -> (r: BlobLocation)
    ensures
        r.file_name@ == location_name(key@),
        r.subdir@ == location_subdir(key@),
{
    let digest = sha256_digest(key.as_bytes());
    let name = hex_encode(digest.as_slice());
    let subdir = String::from_str(name.as_str().substring_char(0, 2));
    BlobLocation { subdir, file_name: name }
}

/// Two keys share a blob location exactly when their digests are equal.
pub proof fn lemma_location_determined_by_digest(k1: Seq<char>, k2: Seq<char>)
    ensures
        location_name(k1) == location_name(k2) <==> sha256_of(encode_utf8(k1)) == sha256_of(
            encode_utf8(k2),
        ),
        k1 == k2 ==> location_name(k1) == location_name(k2) && location_subdir(k1)
            == location_subdir(k2),
{
    if location_name(k1) == location_name(k2) {
        crate::digest::lemma_hex_injective(sha256_of(encode_utf8(k1)), sha256_of(encode_utf8(k2)));
    }
}

fn join(base: &str, part: &str) -> (r: String)
    ensures
        r@ == join_path(base@, part@),
{
    let n = base.unicode_len();
    let mut r = String::from_str(base);
    if n > 0 && base.get_char(n - 1) != '/' {
        r.append("/");
        proof {
            reveal_strlit("/");
        }
    }
    r.append(part);
    r
}

/// The blob store: a base directory under which blobs are laid out as
/// `{base}/{digest[0..2]}/{digest}`.
#[derive(Debug, Clone)]
pub struct FileStorage {
    pub base_path: String,
}

impl FileStorage {
    /// A store rooted at `base_path`.
    pub fn new(base_path: &str) -> (r: FileStorage)
        ensures
            r.base_path@ == base_path@,
    {
        FileStorage { base_path: String::from_str(base_path) }
    }

    /// The full path of the blob for `key`.
    pub fn get_object_path(&self, key: &str) -> (r: String)
        ensures
            r@ == object_path(self.base_path@, key@),
    {
        let loc = locate(key);
        let dir = join(self.base_path.as_str(), loc.subdir.as_str());
        join(dir.as_str(), loc.file_name.as_str())
    }

    /// The full path of the blob for `key`, as text.
    pub fn get_object_path_string(&self, key: &str) -> (r: String)
        ensures
            r@ == object_path(self.base_path@, key@),
    {
        self.get_object_path(key)
    }
}

/// An upload in progress: the running byte count and content hash of the
/// chunks accepted so far, under a hard cap on the total.
pub struct UploadSession {
    max_size: usize,
    total: usize,
    hasher: ContentHasher,
    accepted: Ghost<Seq<u8>>,
}

impl UploadSession {
    /// The bytes accepted so far, in order.
    pub closed spec fn received(&self) -> Seq<u8> {
        self.accepted@
    }

    /// The cap on the total, in bytes.
    pub closed spec fn limit(&self) -> nat {
        self.max_size as nat
    }

    pub closed spec fn wf(&self) -> bool {
        &&& self.total == self.accepted@.len()
        &&& self.total <= self.max_size
        &&& self.max_size <= i64::MAX
        &&& hasher_input(self.hasher) == self.accepted@
    }

    /// A session that has accepted nothing. Sizes are recorded as `i64`, so
    /// the cap must fit one.
    pub fn new(max_size: usize) -> (r: UploadSession)
        requires
            max_size <= i64::MAX,
        ensures
            r.wf(),
            r.limit() == max_size,
            r.received() == Seq::<u8>::empty(),
    {
        UploadSession { max_size, total: 0, hasher: ContentHasher::new(), accepted: Ghost(Seq::empty()) }
    }

    /// The number of bytes accepted so far.
    pub fn size(&self) -> (r: usize)
        requires
            self.wf(),
        ensures
            r == self.received().len(),
    {
        self.total
    }

    /// Takes in the next chunk, unless it would carry the total past the cap:
    /// then nothing is taken and the upload is to be abandoned.
    pub fn accept(&mut self, chunk: &[u8]) -> (r: Result<(), AppError>)
        requires
            old(self).wf(),
        ensures
            final(self).wf(),
            final(self).limit() == old(self).limit(),
            old(self).received().len() + chunk@.len() <= old(self).limit() ==> r is Ok
                && final(self).received() == old(self).received() + chunk@,
            old(self).received().len() + chunk@.len() > old(self).limit() ==> r == Err::<(), AppError>(
                AppError::PayloadTooLarge(old(self).limit() as usize),
            ) && final(self).received() == old(self).received(),
    {
        if chunk.len() > self.max_size - self.total {
            return Err(AppError::PayloadTooLarge(self.max_size));
        }
        self.hasher.update(chunk);
        self.total = self.total + chunk.len();
        self.accepted = Ghost(self.accepted@ + chunk@);
        Ok(())
    }

    /// The etag and size of everything accepted.
    pub fn finish(self) -> (r: (String, i64))
        requires
            self.wf(),
        ensures
            r.0@ == etag_of(self.received()),
            r.1 == self.received().len(),
    {
        let total = self.total as i64;
        let digest = self.hasher.finalize();
        (hex_encode(digest.as_slice()), total)
    }
}

/// The bytes of a sequence of chunks, end to end.
pub open spec fn concat_chunks(chunks: Seq<Vec<u8>>) -> Seq<u8> {
    chunks.map_values(|c: Vec<u8>| c@).flatten()
}

/// Runs an upload over chunks already in memory: the etag and size of their
/// concatenation, or `PayloadTooLarge` when it exceeds `max_size` bytes.
pub fn write_chunks(chunks: &Vec<Vec<u8>>, max_size: usize) -> (r: Result<(String, i64), AppError>)
    requires
        max_size <= i64::MAX,
    ensures
        concat_chunks(chunks@).len() <= max_size ==> r is Ok && r->Ok_0.0@ == etag_of(
            concat_chunks(chunks@),
        ) && r->Ok_0.1 == concat_chunks(chunks@).len(),
        concat_chunks(chunks@).len() > max_size ==> r == Err::<(String, i64), AppError>(
            AppError::PayloadTooLarge(max_size),
        ),
{
    let mut session = UploadSession::new(max_size);
    let mut i: usize = 0;
    while i < chunks.len()
        invariant
            session.wf(),
            session.limit() == max_size,
            i <= chunks@.len(),
            session.received() == concat_chunks(chunks@.take(i as int)),
        decreases chunks.len() - i,
    {
        proof {
            assert(chunks@.take(i + 1).map_values(|c: Vec<u8>| c@) =~= chunks@.take(
                i as int,
            ).map_values(|c: Vec<u8>| c@).push(chunks@[i as int]@));
            chunks@.take(i as int).map_values(|c: Vec<u8>| c@).lemma_flatten_push(chunks@[i as int]@);
        }
        match session.accept(chunks[i].as_slice()) {
            Ok(()) => {},
            Err(e) => {
                proof {
                    lemma_prefix_len_bounded(chunks@, i as int + 1);
                }
                return Err(e);
            },
        }
        i = i + 1;
    }
    assert(chunks@.take(i as int) =~= chunks@);
    Ok(session.finish())
}

proof fn lemma_prefix_len_bounded(chunks: Seq<Vec<u8>>, n: int)
    requires
        0 <= n <= chunks.len(),
    ensures
        concat_chunks(chunks.take(n)).len() <= concat_chunks(chunks).len(),
{
    let s = chunks.map_values(|c: Vec<u8>| c@);
    vstd::seq_lib::lemma_flatten_concat(s.take(n), s.skip(n));
    assert(s.take(n) + s.skip(n) =~= s);
    assert(chunks.take(n).map_values(|c: Vec<u8>| c@) =~= s.take(n));
}

} // verus!
