//! A content-addressed file system core: a chained reader over bounded byte
//! sources, a block store keyed by SHA-512, and the streaming serializer that
//! cuts files into deduplicated blocks.

pub mod source;
pub mod readchain;
pub mod assoc;
pub mod digest;
pub mod host;
pub mod blockstore;
pub mod index;
pub mod chunker;
pub mod serializer;
pub mod filesystem;
pub mod fs;
