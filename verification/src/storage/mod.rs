use vstd::prelude::*;

use crate::data::DocBucket;
use crate::error::StoreError;

pub mod bucket;

verus! {

/// What `rkyv` makes of a list of articles: the bytes it serializes them to,
/// or `None` where it reports an error.
pub uninterp spec fn rkyv_serialized(content: Seq<Seq<char>>) -> Option<Seq<u8>>;

/// `rkyv::to_bytes` with `rkyv::rancor::Error`: serializes the articles.
/// Whether it succeeds, and the bytes it writes, depend on the articles alone;
/// both are given by the name `rkyv_serialized`.
#[verifier::external_body]
fn rkyv_to_bytes(content: &Vec<String>) -> (res: std::result::Result<Vec<u8>, rkyv::rancor::Error>)
    ensures
        res is Ok <==> rkyv_serialized(content.deep_view()) is Some,
        res matches Ok(bytes) ==> rkyv_serialized(content.deep_view()) == Some(bytes@),
{
    rkyv::to_bytes::<rkyv::rancor::Error>(content).map(|bytes| bytes.to_vec())
}

/// What serializing a bucket's articles gives the store: the bytes on
/// success, and `StoreError::Rkyv` carrying `rkyv`'s error on failure.
pub fn from_serialized(
    serialized: std::result::Result<Vec<u8>, rkyv::rancor::Error>,
) -> (res: Result<Vec<u8>, StoreError>)
    ensures
        match serialized {
            Ok(bytes) => res == Ok::<Vec<u8>, StoreError>(bytes),
            Err(e) => res == Err::<Vec<u8>, StoreError>(StoreError::Rkyv(e)),
        },
{
    match serialized {
        Ok(bytes) => Ok(bytes),
        Err(e) => Err(StoreError::Rkyv(e)),
    }
}

/// The bytes stored in a bucket's file: its articles serialized by `rkyv`.
/// It succeeds exactly when `rkyv` serializes the articles, and fails with
/// `StoreError::Rkyv` otherwise.
pub fn bucket_bytes(bucket: &DocBucket) -> (res: Result<Vec<u8>, StoreError>)
    ensures
        res is Ok <==> rkyv_serialized(bucket.content.deep_view()) is Some,
        res matches Ok(bytes) ==> rkyv_serialized(bucket.content.deep_view()) == Some(bytes@),
        res is Err ==> res matches Err(StoreError::Rkyv(_)),
{
    from_serialized(rkyv_to_bytes(&bucket.content))
}

} // verus!
