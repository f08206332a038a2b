//! A single-node object store's storage engine: where blobs live, how an
//! upload is checked and hashed, the metadata catalog and folder listings.
pub mod blob;
pub mod catalog;
pub mod digest;
pub mod error;
pub mod models;
pub mod service;
pub mod text;
