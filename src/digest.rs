//! Content hashing and hex encoding, as used for blob locations and etags.
use sha2::Digest;
use vstd::prelude::*;

verus! {

/// The SHA-256 digest of a byte string.
pub uninterp spec fn sha256_of(data: Seq<u8>) -> Seq<u8>;

/// The bytes fed so far into a running content hasher.
pub uninterp spec fn hasher_input(h: ContentHasher) -> Seq<u8>;

/// The lowercase hex digit for a value below sixteen.
pub open spec fn hex_digit(v: u8) -> char {
    if v < 10 {
        (('0' as u8) + v) as char
    } else {
        (('a' as u8) + (v - 10)) as char
    }
}

/// Lowercase hex text of a byte string: two digits per byte, high nibble first.
pub open spec fn hex_lower(b: Seq<u8>) -> Seq<char> {
    Seq::new(
        (2 * b.len()) as nat,
        |j: int|
            if j % 2 == 0 {
                hex_digit(b[j / 2] / 16)
            } else {
                hex_digit(b[j / 2] % 16)
            },
    )
}

/// The etag of a payload: the hex text of its SHA-256 digest.
pub open spec fn etag_of(b: Seq<u8>) -> Seq<char> {
    hex_lower(sha256_of(b))
}

/// Relies on `sha2::Sha256::digest`: the 32-byte SHA-256 digest of `data`.
#[verifier::external_body]
pub(crate) fn sha256_digest(data: &[u8]) -> (r: Vec<u8>)
    ensures
        r@ == sha256_of(data@),
        r@.len() == 32,
{
    sha2::Sha256::digest(data).to_vec()
}

/// Relies on `hex::encode`: each byte becomes two lowercase hex digits, high
/// nibble first.
#[verifier::external_body]
pub(crate) fn hex_encode(data: &[u8]) -> (r: String)
    ensures
        r@ == hex_lower(data@),
{
    hex::encode(data)
}

/// A running SHA-256 computation over the bytes of an upload, fed one chunk
/// at a time so that memory use stays bounded by the chunk size.
#[verifier::external_body]
pub struct ContentHasher {
    inner: sha2::Sha256,
}

impl ContentHasher {
    /// Relies on `sha2::Sha256::new`: a hasher that has been fed nothing.
    #[verifier::external_body]
    pub(crate) fn new() -> (r: ContentHasher)
        ensures
            hasher_input(r) == Seq::<u8>::empty(),
    {
        ContentHasher { inner: sha2::Sha256::new() }
    }

    /// Relies on `sha2::Sha256::update`: appends `chunk` to what has been fed.
    #[verifier::external_body]
    pub(crate) fn update(&mut self, chunk: &[u8])
        ensures
            hasher_input(*final(self)) == hasher_input(*old(self)) + chunk@,
    {
        self.inner.update(chunk)
    }

    /// Relies on `sha2::Sha256::finalize`: the 32-byte digest of all that was fed.
    #[verifier::external_body]
    pub(crate) fn finalize(self) -> (r: Vec<u8>)
        ensures
            r@ == sha256_of(hasher_input(self)),
            r@.len() == 32,
    {
        self.inner.finalize().to_vec()
    }
}

/// The etag of a whole payload held in memory.
pub fn content_etag(data: &[u8]) -> (r: String)
    ensures
        r@ == etag_of(data@),
{
    let d = sha256_digest(data);
    hex_encode(d.as_slice())
}

/// Hex text determines the bytes it encodes.
pub proof fn lemma_hex_injective(a: Seq<u8>, b: Seq<u8>)
    requires
        hex_lower(a) == hex_lower(b),
    ensures
        a == b,
{
    assert(hex_lower(a).len() == hex_lower(b).len());
    assert(hex_lower(a).len() == 2 * a.len());
    assert(hex_lower(b).len() == 2 * b.len());
    assert(a.len() == b.len());
    assert forall|i: int| 0 <= i < a.len() implies a[i] == b[i] by {
        let h = hex_lower(a);
        let g = hex_lower(b);
        assert((2 * i) / 2 == i && (2 * i) % 2 == 0);
        assert((2 * i + 1) / 2 == i && (2 * i + 1) % 2 == 1);
        assert(h[2 * i] == hex_digit(a[i] / 16));
        assert(g[2 * i] == hex_digit(b[i] / 16));
        assert(h[2 * i + 1] == hex_digit(a[i] % 16));
        assert(g[2 * i + 1] == hex_digit(b[i] % 16));
        lemma_hex_digit_injective(a[i] / 16, b[i] / 16);
        lemma_hex_digit_injective(a[i] % 16, b[i] % 16);
    }
    assert(a =~= b);
}

proof fn lemma_hex_digit_injective(x: u8, y: u8)
    requires
        x < 16,
        y < 16,
        hex_digit(x) == hex_digit(y),
    ensures
        x == y,
{
}

} // verus!
