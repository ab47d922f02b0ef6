use vstd::prelude::*;

verus! {

/// The kinds of data that are written to storage, wrapped in one type.
pub enum Data {
    DocBucket(DocBucket),
}

/// A document bucket: a buffer that collects articles in memory and is
/// written to disk as a whole once it reaches the configured size.
pub struct DocBucket {
    /// The id of the bucket.
    pub id: u64,
    /// The size of the bucket, counted as the bytes of its articles.
    pub total_size: u64,
    /// The articles.
    pub content: Vec<String>,
}

} // verus!
