use vstd::prelude::*;

use crate::index::flat::{
    lemma_ascending_unique, lemma_layout_determined,
    ascending, branches, head_of, insert_branch, insert_into_segment, layout, layout_ok,
    lemma_ascending_insert, lemma_branches_at, lemma_branches_insert, lemma_branches_update,
    lemma_head_set_layout, lemma_layout_decode, lemma_layout_numbers, lemma_offset_all,
    lemma_segment_bounds, lemma_to_set_insert, mids_of, search_range, segs_of, set_in_segment,
};
use crate::index::TreeNode;

verus! {

/// An n-gram trie node, laid out like `TermTrieNode` but with presence flags
/// for the prefix and for each mid, so that a mid that only occurs as part of
/// a longer n-gram is not reported as an n-gram of its own.
///
/// Layout of the array:
/// `[0]`: the prefix;
/// `[1]`: the prefix flag (1: the prefix alone is an n-gram);
/// `[2]`: number of mids + 3 (`L`);
/// `[3..L]`: the mids, ascending;
/// `[L..2L-3]`: for each mid, the index of its range; the range holds the
/// mid's flag (1: prefix + mid is an n-gram) and then its postfixes, ascending;
/// `[2L-3]`: the length of the array.
pub struct NgramTreeNode(pub Vec<u32>);

/// The entry of one mid: its flag and its postfixes.
pub open spec fn ngram_entry(seg: Seq<u32>) -> (bool, Set<u32>) {
    (seg[0] == 1, seg.skip(1).to_set())
}

/// What an n-gram node stores: each mid with its flag and its postfixes.
pub open spec fn ngram_view(v: Seq<u32>) -> Map<u32, (bool, Set<u32>)> {
    branches(mids_of(v, 3), segs_of(v, 3)).map_values(|seg: Seq<u32>| ngram_entry(seg))
}

/// A mid's range: a flag of 0 or 1, then ascending postfixes.
pub open spec fn ngram_segment_ok(seg: Seq<u32>) -> bool {
    &&& seg.len() >= 1
    &&& (seg[0] == 0 || seg[0] == 1)
    &&& ascending(seg.skip(1))
}

/// An n-gram node's array is laid out as described.
pub open spec fn ngram_wf(v: Seq<u32>) -> bool {
    &&& layout_ok(v, 3)
    &&& ascending(mids_of(v, 3))
    &&& forall|j: int|
        0 <= j < segs_of(v, 3).len() ==> ngram_segment_ok(#[trigger] segs_of(v, 3)[j])
}

/// Whether an n-gram node's map stores (`mid`, `postfix`); without a postfix,
/// the mid's flag decides.
pub open spec fn ngram_has(view: Map<u32, (bool, Set<u32>)>, mid: u32, postfix: Option<u32>) -> bool {
    view.dom().contains(mid) && match postfix {
        None => view[mid].0,
        Some(p) => view[mid].1.contains(p),
    }
}

/// The map of an n-gram node after inserting (`mid`, `postfix`).
pub open spec fn ngram_insert(
    view: Map<u32, (bool, Set<u32>)>,
    mid: u32,
    postfix: Option<u32>,
) -> Map<u32, (bool, Set<u32>)> {
    let entry = if view.dom().contains(mid) {
        view[mid]
    } else {
        (false, Set::empty())
    };
    match postfix {
        None => view.insert(mid, (true, entry.1)),
        Some(p) => view.insert(mid, (entry.0, entry.1.insert(p))),
    }
}

impl NgramTreeNode {
    /// The mids stored in the node, each with its flag and postfixes.
    pub open spec fn view(&self) -> Map<u32, (bool, Set<u32>)> {
        ngram_view(self.0@)
    }

    /// The prefix of the node.
    pub open spec fn prefix(&self) -> u32 {
        self.0@[0]
    }

    /// Whether the prefix alone is an n-gram.
    pub open spec fn prefix_present(&self) -> bool {
        self.0@[1] == 1
    }

    /// A node for `prefix` with no mid and the prefix flag 0: `[prefix, 0, 3, 4]`.
    pub fn new(prefix: u32) -> (res: Self)
        ensures
            ngram_wf(res.0@),
            res.view() == Map::<u32, (bool, Set<u32>)>::empty(),
            res.prefix() == prefix,
            !res.prefix_present(),
            res.0@ == seq![prefix, 0u32, 3u32, 4u32],
    {
        let mut a: Vec<u32> = Vec::with_capacity(16);
        a.push(prefix);
        a.push(0);
        a.push(3);
        a.push(4);
        proof {
            let e: Seq<Seq<u32>> = seq![];
            let head = seq![prefix, 0u32];
            lemma_offset_all(e);
            reveal(layout);
            assert(layout(head, seq![], e) =~= a@);
            lemma_layout_decode(head, seq![], e);
            assert(ngram_view(a@) =~= Map::<u32, (bool, Set<u32>)>::empty());
        }
        NgramTreeNode(a)
    }

    /// Marks the prefix alone as an n-gram.
    pub fn add_prefix(&mut self)
        requires
            ngram_wf(old(self).0@),
        ensures
            ngram_wf(final(self).0@),
            final(self).view() == old(self).view(),
            final(self).prefix() == old(self).prefix(),
            final(self).prefix_present(),
            final(self).0@ == old(self).0@.update(1, 1u32),
    {
        let ghost v0 = self.0@;
        proof {
            lemma_layout_numbers(v0, 3);
        }
        self.0[1] = 1;
        proof {
            let head = head_of(v0, 3);
            let m = mids_of(v0, 3);
            let s = segs_of(v0, 3);
            lemma_head_set_layout(head, m, s, 1, 1);
            assert(head.update(1, 1u32).len() == 2);
            lemma_layout_decode(head.update(1, 1u32), m, s);
        }
    }

    /// Whether the prefix alone is an n-gram.
    pub fn include_prefix(&self) -> (res: bool)
        requires
            ngram_wf(self.0@),
        ensures
            res == self.prefix_present(),
    {
        self.0[1] == 1
    }
}

/// After inserting a pair it is stored, and everything stored before still is.
pub proof fn lemma_ngram_insert_then_find(
    view: Map<u32, (bool, Set<u32>)>,
    mid: u32,
    postfix: Option<u32>,
)
    ensures
        ngram_has(ngram_insert(view, mid, postfix), mid, postfix),
        forall|m: u32, p: Option<u32>|
            #[trigger] ngram_has(view, m, p) ==> ngram_has(ngram_insert(view, mid, postfix), m, p),
{
}

/// A call that changes an n-gram node.
pub enum NgramCall {
    /// `insert(mid, postfix)`.
    Insert(u32, Option<u32>),
    /// `add_prefix()`.
    AddPrefix,
}

/// Whether the prefix alone is an n-gram after `calls`, starting from
/// `present`: `insert` keeps it as it is, `add_prefix` sets it.
pub open spec fn prefix_after(present: bool, calls: Seq<NgramCall>) -> bool
    decreases calls.len(),
{
    if calls.len() == 0 {
        present
    } else {
        match calls.last() {
            NgramCall::Insert(_, _) => prefix_after(present, calls.drop_last()),
            NgramCall::AddPrefix => true,
        }
    }
}

/// A node made by `new` reports its prefix alone as an n-gram exactly when
/// `add_prefix` was among the calls made on it: inserts never set it.
pub proof fn lemma_prefix_present_iff_added(calls: Seq<NgramCall>)
    ensures
        prefix_after(false, calls) <==> exists|i: int|
            0 <= i < calls.len() && #[trigger] calls[i] == NgramCall::AddPrefix,
    decreases calls.len(),
{
    if calls.len() > 0 {
        let rest = calls.drop_last();
        lemma_prefix_present_iff_added(rest);
        if prefix_after(false, rest) {
            let i = choose|i: int| 0 <= i < rest.len() && #[trigger] rest[i] == NgramCall::AddPrefix;
            assert(calls[i] == rest[i]);
        }
        if calls.last() == NgramCall::AddPrefix {
            assert(calls[calls.len() - 1] == NgramCall::AddPrefix);
        } else {
            assert forall|i: int| 0 <= i < calls.len() && #[trigger] calls[i] == NgramCall::AddPrefix
                implies prefix_after(false, rest) by {
                assert(i < calls.len() - 1);
                assert(rest[i] == calls[i]);
            }
        }
    }
}

/// The array of an n-gram node is determined by its prefix, its prefix flag
/// and what it stores.
pub proof fn lemma_ngram_layout_canonical(v1: Seq<u32>, v2: Seq<u32>)
    requires
        ngram_wf(v1),
        ngram_wf(v2),
        v1[0] == v2[0],
        v1[1] == v2[1],
        ngram_view(v1) == ngram_view(v2),
    ensures
        v1 == v2,
{
    let m1 = mids_of(v1, 3);
    let m2 = mids_of(v2, 3);
    let s1 = segs_of(v1, 3);
    let s2 = segs_of(v2, 3);
    lemma_layout_numbers(v1, 3);
    lemma_layout_numbers(v2, 3);
    assert forall|x: u32| m1.contains(x) <==> m2.contains(x) by {
        assert(ngram_view(v1).dom().contains(x) == m1.contains(x));
        assert(ngram_view(v2).dom().contains(x) == m2.contains(x));
    }
    lemma_ascending_unique(m1, m2);
    assert forall|j: int| 0 <= j < s1.len() implies s1[j] == s2[j] by {
        lemma_branches_at(m1, s1, j);
        lemma_branches_at(m2, s2, j);
        let a = s1[j];
        let b = s2[j];
        assert(ngram_segment_ok(a));
        assert(ngram_segment_ok(b));
        assert(ngram_view(v1)[m1[j]] == ngram_entry(a));
        assert(ngram_view(v2)[m2[j]] == ngram_entry(b));
        assert(a[0] == b[0]);
        assert forall|x: u32| a.skip(1).contains(x) <==> b.skip(1).contains(x) by {
            assert(a.skip(1).to_set().contains(x) == a.skip(1).contains(x));
            assert(b.skip(1).to_set().contains(x) == b.skip(1).contains(x));
        }
        lemma_ascending_unique(a.skip(1), b.skip(1));
        assert(a =~= seq![a[0]] + a.skip(1));
        assert(b =~= seq![b[0]] + b.skip(1));
    }
    assert(s1 =~= s2);
    assert(head_of(v1, 3) =~= head_of(v2, 3));
    lemma_layout_determined(v1, v2, 3);
}

impl TreeNode for NgramTreeNode {
    open spec fn node_wf(&self) -> bool {
        ngram_wf(self.0@)
    }

    open spec fn has(&self, mid: u32, postfix: Option<u32>) -> bool {
        ngram_has(self.view(), mid, postfix)
    }

    open spec fn array(&self) -> Seq<u32> {
        self.0@
    }

    open spec fn has_room(&self) -> bool {
        self.0@.len() + 4 <= u32::MAX
    }

    /// Inserts a (mid, postfix) pair. Without a postfix the mid's flag is
    /// set; a new mid reached through a postfix gets the flag 0.
    fn insert(&mut self, mid: u32, postfix: Option<u32>)
        ensures
            final(self).view() == ngram_insert(old(self).view(), mid, postfix),
            final(self).prefix() == old(self).prefix(),
            final(self).prefix_present() == old(self).prefix_present(),
            final(self).0@[1] == old(self).0@[1],
            final(self).0@.len() <= old(self).0@.len() + 4,
    {
        let ghost v0 = self.0@;
        let ghost m = mids_of(v0, 3);
        let ghost s = segs_of(v0, 3);
        proof {
            lemma_layout_numbers(v0, 3);
        }
        let len = self.0[2] as usize;
        proof {
            assert(self.0@.subrange(3, len as int) == m);
        }
        match search_range(&self.0, 3, len, mid) {
            Ok(i) => {
                proof {
                    lemma_branches_at(m, s, i as int);
                    lemma_segment_bounds(v0, 3, i as int);
                }
                let i_index = len + i;
                let start = self.0[i_index] as usize;
                if let Some(last) = postfix {
                    let next_mid_index = i_index + 1;
                    let end = self.0[next_mid_index] as usize;
                    let seg = Ghost(s[i as int]);
                    proof {
                        assert(ngram_segment_ok(seg@));
                        assert(self.0@.subrange(start + 1, end as int) == seg@.skip(1));
                    }
                    match search_range(&self.0, start + 1, end, last) {
                        Ok(k) => {
                            proof {
                                assert(seg@.skip(1)[k as int] == v0[start + 1 + k]);
                                assert(seg@.skip(1).contains(last));
                                assert(self.view()[mid] == ngram_entry(seg@));
                                assert(self.view()[mid].1.insert(last) =~= self.view()[mid].1);
                                assert(ngram_insert(self.view(), mid, postfix) =~= self.view());
                            }
                        },
                        Err(insert_index) => {
                            let ghost y = seg@.insert(insert_index as int + 1, last);
                            proof {
                                assert forall|j: int| 0 <= j < seg@.skip(1).len() implies seg@.skip(
                                    1,
                                )[j] != last by {
                                    assert(seg@.skip(1)[j] == v0[start + 1 + j]);
                                }
                                assert(!seg@.skip(1).contains(last));
                                assert(self.view()[mid] == ngram_entry(seg@));
                                assert(!ngram_has(ngram_view(v0), mid, postfix));
                                lemma_ascending_insert(seg@.skip(1), insert_index as int, last);
                                assert(y.skip(1) =~= seg@.skip(1).insert(insert_index as int, last));
                            }
                            insert_into_segment(&mut self.0, 3, i, insert_index + 1, last);
                            proof {
                                let s2 = s.update(i as int, y);
                                lemma_layout_decode(head_of(v0, 3), m, s2);
                                lemma_branches_update(m, s, i as int, y);
                                lemma_to_set_insert(seg@.skip(1), insert_index as int, last);
                                assert(ngram_entry(y) == (ngram_entry(seg@).0, ngram_entry(
                                    seg@,
                                ).1.insert(last)));
                                assert(ngram_view(self.0@) =~= ngram_insert(
                                    ngram_view(v0),
                                    mid,
                                    postfix,
                                ));
                                assert forall|j: int| 0 <= j < s2.len() implies ngram_segment_ok(
                                    #[trigger] s2[j],
                                ) by {
                                    if j != i {
                                        assert(s2[j] == s[j]);
                                    }
                                }
                                assert(self.0@.take(2) =~= v0.take(2));
                                assert(self.0@[0] == self.0@.take(2)[0]);
                                assert(self.0@[1] == self.0@.take(2)[1]);
                            }
                        },
                    }
                } else {
                    let ghost seg = s[i as int];
                    proof {
                        assert(ngram_segment_ok(seg));
                    }
                    let ghost y = seg.update(0, 1u32);
                    set_in_segment(&mut self.0, 3, i, 0, 1);
                    proof {
                        let s2 = s.update(i as int, y);
                        lemma_layout_decode(head_of(v0, 3), m, s2);
                        lemma_branches_update(m, s, i as int, y);
                        assert(y.skip(1) =~= seg.skip(1));
                        assert(ngram_view(self.0@) =~= ngram_insert(ngram_view(v0), mid, postfix));
                        assert forall|j: int| 0 <= j < s2.len() implies ngram_segment_ok(
                            #[trigger] s2[j],
                        ) by {
                            if j != i {
                                assert(s2[j] == s[j]);
                            }
                        }
                        assert(self.0@.take(2) =~= v0.take(2));
                        assert(self.0@[0] == self.0@.take(2)[0]);
                        assert(self.0@[1] == self.0@.take(2)[1]);
                        if ngram_has(ngram_view(v0), mid, postfix) {
                            assert(seg[0] == 1);
                            assert(y =~= seg);
                            assert(s2 =~= s);
                            assert(self.0@ =~= v0);
                        }
                    }
                }
            },
            Err(i) => {
                let init: Vec<u32> = match postfix {
                    Some(last) => vec![0u32, last],
                    None => vec![1u32],
                };
                proof {
                    lemma_ascending_insert(m, i as int, mid);
                    assert(!m.contains(mid));
                    assert(!ngram_view(v0).dom().contains(mid));
                    assert(!ngram_has(ngram_view(v0), mid, postfix));
                }
                insert_branch(&mut self.0, 3, i, mid, &init);
                proof {
                    let m2 = m.insert(i as int, mid);
                    let s2 = s.insert(i as int, init@);
                    lemma_layout_decode(head_of(v0, 3), m2, s2);
                    lemma_branches_insert(m, s, i as int, mid, init@);
                    assert(ngram_entry(init@) == match postfix {
                        None => (true, Set::<u32>::empty()),
                        Some(p) => (false, Set::<u32>::empty().insert(p)),
                    }) by {
                        match postfix {
                            None => {
                                assert(init@ =~= seq![1u32]);
                                assert(init@.skip(1).to_set() =~= Set::<u32>::empty());
                            },
                            Some(p) => {
                                assert(init@ =~= seq![0u32, p]);
                                assert(init@.skip(1) =~= seq![p]);
                                assert(init@.skip(1)[0] == p);
                                assert(init@.skip(1).to_set() =~= Set::<u32>::empty().insert(p));
                            },
                        }
                    }
                    assert(ngram_view(self.0@) =~= ngram_insert(ngram_view(v0), mid, postfix));
                    assert forall|j: int| 0 <= j < s2.len() implies ngram_segment_ok(
                        #[trigger] s2[j],
                    ) by {
                        if j < i {
                            assert(s2[j] == s[j]);
                        } else if j > i {
                            assert(s2[j] == s[j - 1]);
                        } else {
                            assert(init@.skip(1).len() <= 1);
                        }
                    }
                    assert(self.0@.take(2) =~= v0.take(2));
                    assert(self.0@[0] == self.0@.take(2)[0]);
                    assert(self.0@[1] == self.0@.take(2)[1]);
                }
            },
        }
    }

    /// Whether the pair is stored; a mid alone counts only when its flag is set.
    fn find(&self, mid: u32, postfix: Option<u32>) -> (found: bool) {
        let ghost v0 = self.0@;
        let ghost m = mids_of(v0, 3);
        let ghost s = segs_of(v0, 3);
        proof {
            lemma_layout_numbers(v0, 3);
        }
        let len = self.0[2] as usize;
        proof {
            assert(self.0@.subrange(3, len as int) == m);
        }
        match search_range(&self.0, 3, len, mid) {
            Ok(i) => {
                proof {
                    lemma_branches_at(m, s, i as int);
                    lemma_segment_bounds(v0, 3, i as int);
                }
                let i_index = len + i;
                let start = self.0[i_index] as usize;
                let ghost seg = s[i as int];
                if let Some(last) = postfix {
                    let end = self.0[i_index + 1] as usize;
                    proof {
                        assert(ngram_segment_ok(seg));
                        assert(self.0@.subrange(start + 1, end as int) == seg.skip(1));
                    }
                    let r = search_range(&self.0, start + 1, end, last);
                    proof {
                        let post = seg.skip(1);
                        if let Err(k) = r {
                            assert forall|j: int| 0 <= j < post.len() implies post[j] != last by {
                                assert(post[j] == v0[start + 1 + j]);
                            }
                        } else {
                            let k = r->Ok_0;
                            assert(post[k as int] == last);
                        }
                    }
                    r.is_ok()
                } else {
                    proof {
                        assert(seg[0] == v0[start as int]);
                    }
                    self.0[start] == 1
                }
            },
            Err(_) => {
                proof {
                    assert(!m.contains(mid));
                }
                false
            },
        }
    }
}

} // verus!
