//! The records and responses that the storage engine hands out.
use vstd::prelude::*;

verus! {

/// The catalog's record of one live object.
#[derive(Debug, Clone)]
pub struct ObjectMetadata {
    /// Opaque unique identifier of this version of the object.
    pub id: String,
    /// The client's key; unique among live records.
    pub key: String,
    /// Number of bytes of the blob.
    pub size: i64,
    pub content_type: String,
    /// Hex SHA-256 digest of the blob's bytes.
    pub etag: String,
    /// Creation time, in microseconds since the Unix epoch (UTC).
    pub created_at: i64,
}

impl ObjectMetadata {
    /// A field-for-field copy of this record.
    pub fn duplicate(&self) -> (r: ObjectMetadata)
        ensures
            r == *self,
    {
        ObjectMetadata {
            id: self.id.clone(),
            key: self.key.clone(),
            size: self.size,
            content_type: self.content_type.clone(),
            etag: self.etag.clone(),
            created_at: self.created_at,
        }
    }
}

/// Aggregate figures over the catalog.
#[derive(Debug, Clone)]
pub struct StatsResponse {
    pub total_objects: i64,
    pub total_size: i64,
    pub storage_path: String,
}

/// A listing under a prefix: direct objects, and the virtual folders below it.
#[derive(Debug, Clone)]
pub struct ListObjectsResponse {
    pub objects: Vec<ObjectMetadata>,
    /// The number of direct objects.
    pub total: usize,
    /// Folder names, sorted and without duplicates.
    pub prefixes: Vec<String>,
}

/// A record together with the path of its blob.
#[derive(Debug, Clone)]
pub struct ObjectInfo {
    pub metadata: ObjectMetadata,
    pub path: String,
}

/// The records that matched a search, and how many they are.
#[derive(Debug, Clone)]
pub struct SearchResponse {
    pub objects: Vec<ObjectMetadata>,
    pub total: usize,
}

/// Process settings.
#[derive(Debug, Clone)]
pub struct Config {
    pub server_host: String,
    pub server_port: u16,
    pub storage_path: String,
    pub database_url: String,
    pub auth_token: String,
    pub rate_limit_per_second: u64,
    pub rate_limit_burst_size: u32,
    /// Largest upload, in megabytes.
    pub max_upload_size_mb: usize,
}

/// Megabytes allowed in one upload when the configuration names none.
pub fn default_max_upload_size() -> (r: usize)
    ensures
        r == 100,
{
    100
}

/// The upload cap in bytes for a cap of `mb` megabytes, when that fits.
pub fn max_upload_bytes(mb: usize) -> (r: Option<usize>)
    ensures
        mb * 1024 * 1024 <= usize::MAX ==> r == Some((mb * 1024 * 1024) as usize),
        mb * 1024 * 1024 > usize::MAX ==> r is None,
{
    match mb.checked_mul(1024 * 1024) {
        Some(v) => Some(v),
        None => None,
    }
}

} // verus!
