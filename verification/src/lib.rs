//! Binary resource artifacts for application packages: a chunk-tree codec,
//! a deduplicating string pool, a resource table with stable identifier
//! allocation, a density-bucket icon compiler, and a manifest compiler that
//! resolves symbolic references into the table.

pub mod bytes;
pub mod chunk;
pub mod manifest;
pub mod mipmap;
pub mod parse;
pub mod pool;
pub mod roundtrip;
pub mod table;
pub mod write;
