use vstd::prelude::*;

use crate::config::{count_below, locate, strictly_increasing, DocBucketConfig};
use crate::data::{Data, DocBucket};

verus! {

/// What the caller of `DocBucket::add_doc` has to do next.
pub enum AddDocStep {
    /// The article was added to the bucket under this id; nothing else to do.
    Stored(u64),
    /// The bucket reached the threshold: write `data` to storage, then call
    /// `DocBucketConfig::record_flush` with `article_id`, which is the id of
    /// the added article (the last article of the flushed bucket).
    Flush { data: Data, article_id: u64 },
}

/// The size in bytes of an article (its UTF-8 encoding).
pub open spec fn doc_size(doc: Seq<char>) -> int {
    vstd::utf8::encode_utf8(doc).len() as int
}

/// The id of the first article of the bucket that is being filled.
pub open spec fn active_start(ranges: Seq<u64>) -> int {
    if ranges.len() == 0 {
        0
    } else {
        ranges.last() + 1
    }
}

/// The bucket being filled has the id that `get_index` gives the bucket after
/// the flushed ones (their number) and holds exactly the articles after the
/// last flushed one, so the ids of the configuration locate every article.
pub open spec fn placement_ok(ranges: Seq<u64>, article_count: u64, bucket_id: u64, content_len: int) -> bool {
    &&& strictly_increasing(ranges)
    &&& forall|i: int| 0 <= i < ranges.len() ==> #[trigger] ranges[i] < article_count
    &&& bucket_id == ranges.len()
    &&& content_len + active_start(ranges) == article_count
}

impl DocBucket {
    /// An empty bucket with the given id.
    pub fn new(id: u64) -> (res: Self)
        ensures
            res.id == id,
            res.total_size == 0,
            res.content@ == Seq::<String>::empty(),
    {
        DocBucket { id, total_size: 0, content: Vec::new() }
    }

    /// Adds an article. Its id is the configuration's article count. When the
    /// bucket's size reaches the threshold, the bucket (with the article) is
    /// handed back to be written, and this bucket is replaced by an empty one
    /// whose id follows the flushed buckets once the flush is recorded (the
    /// number of buckets flushed so far plus one); the configuration is
    /// then updated by `record_flush` once the write has succeeded. Otherwise
    /// the article count grows by one.
    pub fn add_doc(&mut self, doc: String, config: &mut DocBucketConfig) -> (step: AddDocStep)
        requires
            old(self).total_size + doc_size(doc@) <= u64::MAX,
            old(config).article_count < u64::MAX,
            old(config).bucket_ranges@.len() < u64::MAX,
        ensures
            ({
                let size = old(self).total_size + doc_size(doc@);
                let id = old(config).article_count;
                if size >= old(config).threshold {
                    &&& step matches AddDocStep::Flush { data: Data::DocBucket(b), article_id }
                    &&& article_id == id
                    &&& b.id == old(self).id
                    &&& b.total_size == size
                    &&& b.content.deep_view() == old(self).content.deep_view().push(doc@)
                    &&& final(self).id == old(config).bucket_ranges@.len() + 1
                    &&& final(self).total_size == 0
                    &&& final(self).content@ == Seq::<String>::empty()
                    &&& final(config).bucket_ranges@ == old(config).bucket_ranges@
                    &&& final(config).article_count == old(config).article_count
                } else {
                    &&& step == AddDocStep::Stored(id)
                    &&& final(self).id == old(self).id
                    &&& final(self).total_size == size
                    &&& final(self).content.deep_view() == old(self).content.deep_view().push(doc@)
                    &&& final(config).bucket_ranges@ == old(config).bucket_ranges@
                    &&& final(config).article_count == id + 1
                }
            }),
            final(config).threshold == old(config).threshold,
            final(config).path == old(config).path,
    {
        let ghost doc_chars = doc@;
        let text = doc.as_str();
        let byte_len = text.as_bytes().len();
        proof {
            assert(text@ == doc_chars);
            assert(byte_len == doc_size(doc_chars));
        }
        let len: u64 = byte_len as u64;
        let ghost before = self.content.deep_view();
        self.content.push(doc);
        proof {
            assert(self.content.deep_view() =~= before.push(doc@));
        }
        self.total_size += len;
        let article_id = config.article_count;
        if self.total_size >= config.threshold {
            let bucket_id = config.bucket_ranges.len() as u64 + 1;
            let mut old_bucket = DocBucket::new(bucket_id);
            std::mem::swap(self, &mut old_bucket);
            let data = Data::DocBucket(old_bucket);
            return AddDocStep::Flush { data, article_id };
        }
        config.article_count += 1;
        AddDocStep::Stored(article_id)
    }
}

impl DocBucketConfig {
    /// Records that the bucket ending with `article_id` was written: its end
    /// id joins the flushed ranges and the article count grows by one.
    /// Returns `article_id`.
    pub fn record_flush(&mut self, article_id: u64) -> (id: u64)
        requires
            old(self).article_count < u64::MAX,
        ensures
            id == article_id,
            final(self).bucket_ranges@ == old(self).bucket_ranges@.push(article_id),
            final(self).article_count == old(self).article_count + 1,
            final(self).threshold == old(self).threshold,
            final(self).path == old(self).path,
    {
        self.bucket_ranges.push(article_id);
        self.article_count += 1;
        article_id
    }
}

/// An added article is found again: when the bucket being filled has the id
/// of the bucket after the flushed ones and holds the articles after the last
/// flushed one, the article that `add_doc` stores under the id
/// `article_count` is located by `get_index` in that bucket, at its index in
/// the bucket's content, whether the bucket stays in memory (`Stored`) or is
/// flushed (`Flush` followed by `record_flush`). Afterwards this holds again:
/// of the same bucket with one more article, or, after a flush, of the new
/// empty bucket, whose id is one more.
pub proof fn lemma_added_doc_located(
    ranges: Seq<u64>,
    article_count: u64,
    bucket_id: u64,
    content_len: int,
)
    requires
        placement_ok(ranges, article_count, bucket_id, content_len),
        article_count < u64::MAX,
    ensures
        locate(ranges, article_count) == (bucket_id, content_len as u64),
        placement_ok(ranges, (article_count + 1) as u64, bucket_id, content_len + 1),
        locate(ranges.push(article_count), article_count) == (bucket_id, content_len as u64),
        bucket_id < u64::MAX,
        placement_ok(ranges.push(article_count), (article_count + 1) as u64, (bucket_id + 1) as u64, 0),
{
    lemma_count_below_all(ranges, article_count);
    lemma_increasing_len(ranges, article_count);
    let r2 = ranges.push(article_count);
    assert(r2.drop_last() =~= ranges);
    assert forall|i: int, j: int| 0 <= i < j < r2.len() implies r2[i] < r2[j] by {
        if j == r2.len() - 1 {
            assert(r2[i] == ranges[i]);
        }
    }
    if ranges.len() > 0 {
        assert(ranges[ranges.len() - 1] < article_count);
    }
}

/// A strictly increasing sequence of numbers below `n` has at most `n` entries.
proof fn lemma_increasing_len(ranges: Seq<u64>, n: u64)
    requires
        strictly_increasing(ranges),
        forall|i: int| 0 <= i < ranges.len() ==> #[trigger] ranges[i] < n,
    ensures
        ranges.len() <= n,
{
    assert forall|i: int| 0 <= i < ranges.len() implies #[trigger] ranges[i] >= i by {
        lemma_increasing_at_least_index(ranges, i);
    }
    if ranges.len() > 0 {
        assert(ranges[ranges.len() - 1] >= ranges.len() - 1);
    }
}

/// Entry `i` of a strictly increasing sequence of naturals is at least `i`.
proof fn lemma_increasing_at_least_index(ranges: Seq<u64>, i: int)
    requires
        strictly_increasing(ranges),
        0 <= i < ranges.len(),
    ensures
        ranges[i] >= i,
    decreases i,
{
    if i > 0 {
        lemma_increasing_at_least_index(ranges, i - 1);
    }
}

/// Every entry below `x`: all of them are counted.
proof fn lemma_count_below_all(ranges: Seq<u64>, x: u64)
    requires
        forall|i: int| 0 <= i < ranges.len() ==> #[trigger] ranges[i] < x,
    ensures
        count_below(ranges, x) == ranges.len(),
    decreases ranges.len(),
{
    if ranges.len() > 0 {
        let r = ranges.drop_last();
        assert forall|i: int| 0 <= i < r.len() implies #[trigger] r[i] < x by {
            assert(r[i] == ranges[i]);
        }
        lemma_count_below_all(r, x);
    }
}

} // verus!
