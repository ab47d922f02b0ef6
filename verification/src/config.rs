use vstd::prelude::*;
use std::path::PathBuf;

verus! {

/// The standard library's owned path type, carried through opaquely.
#[verifier::external_type_specification]
#[verifier::external_body]
pub struct ExPathBuf(PathBuf);

/// Configuration of the document buckets.
pub struct DocBucketConfig {
    /// The id of the last article of every flushed bucket (the bucket's end id),
    /// in the order in which the buckets were flushed.
    pub bucket_ranges: Vec<u64>,
    /// The largest size of a bucket (a bucket may grow slightly beyond it).
    pub threshold: u64,
    /// The number of articles allocated so far, i.e. the id of the next article.
    pub article_count: u64,
    /// The directory that holds all bucket files.
    pub path: PathBuf,
}

/// `s` is strictly increasing.
pub open spec fn strictly_increasing(s: Seq<u64>) -> bool {
    forall|i: int, j: int| 0 <= i < j < s.len() ==> s[i] < s[j]
}

/// The number of entries of `ranges` that are smaller than `article_id`:
/// on a sorted `ranges`, the index of the bucket that holds the article.
pub open spec fn count_below(ranges: Seq<u64>, article_id: u64) -> nat
    decreases ranges.len(),
{
    if ranges.len() == 0 {
        0
    } else {
        count_below(ranges.drop_last(), article_id) + if ranges.last() < article_id {
            1nat
        } else {
            0nat
        }
    }
}

/// Where an article lives: the bucket that holds it and its index in that bucket.
pub open spec fn locate(ranges: Seq<u64>, article_id: u64) -> (u64, u64) {
    let b = count_below(ranges, article_id);
    if b == 0 {
        (0, article_id)
    } else {
        (b as u64, (article_id - ranges[b - 1] - 1) as u64)
    }
}

impl DocBucketConfig {
    /// The flushed ranges are ascending and every flushed article id has
    /// already been allocated.
    pub open spec fn wf(&self) -> bool {
        &&& strictly_increasing(self.bucket_ranges@)
        &&& forall|i: int|
            0 <= i < self.bucket_ranges@.len() ==> #[trigger] self.bucket_ranges@[i]
                < self.article_count
    }

    /// A configuration with no flushed bucket, no article, and a threshold of 64 MiB.
    pub fn new(path: PathBuf) -> (res: Self)
        ensures
            res.bucket_ranges@ == Seq::<u64>::empty(),
            res.threshold == 64 * 1024 * 1024,
            res.article_count == 0,
            res.path == path,
            res.wf(),
    {
        DocBucketConfig { bucket_ranges: Vec::new(), threshold: 64 * 1024 * 1024, article_count: 0, path }
    }

    /// Sets the largest size of a bucket.
    pub fn set_threshold(&mut self, threshold: u64)
        ensures
            final(self).threshold == threshold,
            final(self).bucket_ranges == old(self).bucket_ranges,
            final(self).article_count == old(self).article_count,
            final(self).path == old(self).path,
    {
        self.threshold = threshold;
    }

    /// Takes an article id and returns `(bucket id, index of the article in the bucket)`.
    ///
    /// The bucket is found by binary search over `bucket_ranges`; on ascending
    /// ranges it is the number of flushed buckets whose end id is below the
    /// article id.
    pub fn get_index(&self, article_id: u64) -> (res: (u64, u64))
        ensures
            res.0 <= self.bucket_ranges@.len(),
            res.0 > 0 ==> self.bucket_ranges@[res.0 - 1] < article_id,
            res.0 < self.bucket_ranges@.len() ==> article_id <= self.bucket_ranges@[res.0 as int],
            res.0 == 0 ==> res.1 == article_id,
            res.0 > 0 ==> res.1 == article_id - self.bucket_ranges@[res.0 - 1] - 1,
            strictly_increasing(self.bucket_ranges@) ==> res == locate(
                self.bucket_ranges@,
                article_id,
            ),
    {
        let mut left: usize = 0;
        let mut right: usize = self.bucket_ranges.len();
        while left < right
            invariant
                left <= right <= self.bucket_ranges@.len(),
                left > 0 ==> self.bucket_ranges@[left - 1] < article_id,
                right < self.bucket_ranges@.len() ==> article_id
                    <= self.bucket_ranges@[right as int],
            decreases right - left,
        {
            let mid = left + (right - left) / 2;
            if self.bucket_ranges[mid] < article_id {
                left = mid + 1;
            } else {
                right = mid;
            }
        }
        proof {
            if strictly_increasing(self.bucket_ranges@) {
                lemma_count_below_split(self.bucket_ranges@, article_id, left as int);
            }
        }
        if left == 0 {
            (0, article_id)
        } else {
            (left as u64, article_id - self.bucket_ranges[left - 1] - 1)
        }
    }
}

/// On ascending ranges, a split point `k` with every entry before it below
/// the article id and every entry from it on not below is `count_below`.
pub proof fn lemma_count_below_split(ranges: Seq<u64>, article_id: u64, k: int)
    requires
        strictly_increasing(ranges),
        0 <= k <= ranges.len(),
        k > 0 ==> ranges[k - 1] < article_id,
        k < ranges.len() ==> article_id <= ranges[k],
    ensures
        count_below(ranges, article_id) == k,
    decreases ranges.len(),
{
    if ranges.len() > 0 {
        let r = ranges.drop_last();
        if k == ranges.len() {
            if k - 1 > 0 {
                assert(ranges[k - 2] < ranges[k - 1]);
            }
            lemma_count_below_split(r, article_id, k - 1);
        } else {
            if k < r.len() {
                assert(ranges[k] <= ranges[r.len() as int]);
            }
            lemma_count_below_split(r, article_id, k);
        }
    }
}

} // verus!
