//! An LSM-tree storage core: a sorted, block-structured table file format
//! with a builder and a reader, a versioned manifest of live tables per
//! bucket, a multi-way merge iterator over a version's tables, and the
//! tenant/bucket hierarchy that scopes them.

pub mod block;
pub mod codec;
pub mod bucket_iter;
pub mod error;
pub mod keys;
pub mod store;
pub mod table;
pub mod versions;

pub use bucket_iter::BucketIter;
pub use store::Bucket;
pub use error::Error;
pub use keys::{Entry, Key, Timestamp, ValueType};
pub use table::{TableBuilder, TableBuilderOptions, TableDesc, TableIter, TableReader};
pub use versions::{TableFile, Version, Versions};
