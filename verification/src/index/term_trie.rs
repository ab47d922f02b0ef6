use vstd::prelude::*;

use crate::index::flat::{
    lemma_ascending_unique, lemma_layout_determined,
    ascending, branches, layout, layout_fits, layout_ok, head_of, mids_of, segs_of, lemma_branches_at,
    lemma_branches_insert, lemma_branches_update, lemma_layout_decode, lemma_layout_numbers,
    lemma_offset_all, lemma_ascending_insert, lemma_to_set_insert, lemma_segment_bounds,
    search_range, insert_into_segment, insert_branch,
};
use crate::index::TreeNode;

verus! {

/// Term trie: one node per prefix id.
#[derive(Debug, Clone, PartialEq, Eq)]
pub struct TermTrie {
    roots: Vec<TermTrieNode>,
}

/// A flat trie node that stores every mid under one prefix and their postfixes.
///
/// Layout of the array:
/// `[0]`: number of mids + 1 (`L`);
/// `[1..L]`: the mids, ascending;
/// `[L..2L-1]`: for each mid, the index where its postfixes begin;
/// `[2L-1]`: the length of the array;
/// the rest: the postfixes of each mid, ascending, one range after the other.
#[derive(Debug, Clone, PartialEq, Eq)]
pub struct TermTrieNode(pub Vec<u32>);

/// What a term node stores: each mid with the set of its postfixes.
pub open spec fn term_view(v: Seq<u32>) -> Map<u32, Set<u32>> {
    branches(mids_of(v, 1), segs_of(v, 1)).map_values(|seg: Seq<u32>| seg.to_set())
}

/// A term node's array is laid out as described, with ascending mids and
/// ascending postfixes.
pub open spec fn term_wf(v: Seq<u32>) -> bool {
    &&& layout_ok(v, 1)
    &&& ascending(mids_of(v, 1))
    &&& forall|j: int| 0 <= j < segs_of(v, 1).len() ==> ascending(#[trigger] segs_of(v, 1)[j])
}

/// The map of a term node after inserting (`mid`, `postfix`).
pub open spec fn term_insert(view: Map<u32, Set<u32>>, mid: u32, postfix: Option<u32>) -> Map<
    u32,
    Set<u32>,
> {
    let old_set = if view.dom().contains(mid) {
        view[mid]
    } else {
        Set::empty()
    };
    match postfix {
        None => view.insert(mid, old_set),
        Some(p) => view.insert(mid, old_set.insert(p)),
    }
}

/// Whether a term node's map stores (`mid`, `postfix`).
pub open spec fn term_has(view: Map<u32, Set<u32>>, mid: u32, postfix: Option<u32>) -> bool {
    view.dom().contains(mid) && match postfix {
        None => true,
        Some(p) => view[mid].contains(p),
    }
}

/// `[1, 2]` is the empty term node.
pub proof fn lemma_empty_term_node(v: Seq<u32>)
    requires
        v == seq![1u32, 2u32],
    ensures
        term_wf(v),
        term_view(v) == Map::<u32, Set<u32>>::empty(),
{
    let e: Seq<Seq<u32>> = seq![];
    lemma_offset_all(e);
    reveal(layout);
    assert(layout(seq![], seq![], e) =~= v);
    lemma_layout_decode(seq![], seq![], e);
    assert(term_view(v) =~= Map::<u32, Set<u32>>::empty());
}

/// After inserting a pair it is stored, and everything stored before still is.
pub proof fn lemma_term_insert_then_find(view: Map<u32, Set<u32>>, mid: u32, postfix: Option<u32>)
    ensures
        term_has(term_insert(view, mid, postfix), mid, postfix),
        forall|m: u32, p: Option<u32>|
            #[trigger] term_has(view, m, p) ==> term_has(term_insert(view, mid, postfix), m, p),
{
}

/// The map of a term node after inserting `pairs` one after the other.
pub open spec fn term_inserts(view: Map<u32, Set<u32>>, pairs: Seq<(u32, Option<u32>)>) -> Map<
    u32,
    Set<u32>,
>
    decreases pairs.len(),
{
    if pairs.len() == 0 {
        view
    } else {
        term_insert(term_inserts(view, pairs.drop_last()), pairs.last().0, pairs.last().1)
    }
}

/// A node made by `new` stays empty exactly as long as nothing is inserted:
/// after a sequence of inserts it stores no mid only when the sequence is
/// empty.
pub proof fn lemma_term_empty_iff_no_insert(pairs: Seq<(u32, Option<u32>)>)
    ensures
        (term_inserts(Map::<u32, Set<u32>>::empty(), pairs) == Map::<u32, Set<u32>>::empty())
            <==> pairs.len() == 0,
{
    if pairs.len() > 0 {
        let m = pairs.last().0;
        assert(term_inserts(Map::<u32, Set<u32>>::empty(), pairs).dom().contains(m));
        assert(!Map::<u32, Set<u32>>::empty().dom().contains(m));
    }
}

/// The array of a term node is determined by what it stores: two well laid
/// out nodes that store the same mids and postfixes are equal arrays.
pub proof fn lemma_term_layout_canonical(v1: Seq<u32>, v2: Seq<u32>)
    requires
        term_wf(v1),
        term_wf(v2),
        term_view(v1) == term_view(v2),
    ensures
        v1 == v2,
{
    let m1 = mids_of(v1, 1);
    let m2 = mids_of(v2, 1);
    let s1 = segs_of(v1, 1);
    let s2 = segs_of(v2, 1);
    lemma_layout_numbers(v1, 1);
    lemma_layout_numbers(v2, 1);
    assert forall|x: u32| m1.contains(x) <==> m2.contains(x) by {
        assert(term_view(v1).dom().contains(x) == m1.contains(x));
        assert(term_view(v2).dom().contains(x) == m2.contains(x));
    }
    lemma_ascending_unique(m1, m2);
    assert forall|j: int| 0 <= j < s1.len() implies s1[j] == s2[j] by {
        lemma_branches_at(m1, s1, j);
        lemma_branches_at(m2, s2, j);
        assert(term_view(v1)[m1[j]] == s1[j].to_set());
        assert(term_view(v2)[m2[j]] == s2[j].to_set());
        assert forall|x: u32| s1[j].contains(x) <==> s2[j].contains(x) by {
            assert(s1[j].to_set().contains(x) == s1[j].contains(x));
            assert(s2[j].to_set().contains(x) == s2[j].contains(x));
        }
        lemma_ascending_unique(s1[j], s2[j]);
    }
    assert(s1 =~= s2);
    assert(head_of(v1, 1) =~= head_of(v2, 1));
    lemma_layout_determined(v1, v2, 1);
}

impl TreeNode for TermTrieNode {
    open spec fn node_wf(&self) -> bool {
        term_wf(self.0@)
    }

    open spec fn has(&self, mid: u32, postfix: Option<u32>) -> bool {
        term_has(self.view(), mid, postfix)
    }

    open spec fn array(&self) -> Seq<u32> {
        self.0@
    }

    open spec fn has_room(&self) -> bool {
        self.0@.len() + 3 <= u32::MAX
    }

    /// Inserts a (mid, postfix) pair, `postfix` may be `None`; inserts only
    /// what is missing and keeps the array sorted.
    fn insert(&mut self, mid: u32, postfix: Option<u32>)
        ensures
            final(self).view() == term_insert(old(self).view(), mid, postfix),
            final(self).0@.len() <= old(self).0@.len() + 3,
    {
        let ghost v0 = self.0@;
        let ghost m = mids_of(v0, 1);
        let ghost s = segs_of(v0, 1);
        proof {
            lemma_layout_numbers(v0, 1);
        }
        let len = self.0[0] as usize;
        proof {
            assert(self.0@.subrange(1, len as int) == m);
        }
        match search_range(&self.0, 1, len, mid) {
            Ok(i) => {
                proof {
                    lemma_branches_at(m, s, i as int);
                }
                if let Some(last) = postfix {
                    let i_index = len + i;
                    proof {
                        lemma_segment_bounds(v0, 1, i as int);
                    }
                    let start = self.0[i_index] as usize;
                    let end = self.0[i_index + 1] as usize;
                    match search_range(&self.0, start, end, last) {
                        Ok(k) => {
                            proof {
                                assert(s[i as int][k as int] == v0[start + k]);
                                assert(s[i as int].contains(last));
                                assert(self.view()[mid] == s[i as int].to_set());
                                assert(self.view()[mid].insert(last) =~= self.view()[mid]);
                                assert(term_insert(self.view(), mid, postfix) =~= self.view());
                            }
                        },
                        Err(insert_index) => {
                            let ghost y = s[i as int].insert(insert_index as int, last);
                            proof {
                                lemma_ascending_insert(s[i as int], insert_index as int, last);
                            }
                            insert_into_segment(&mut self.0, 1, i, insert_index, last);
                            proof {
                                let s2 = s.update(i as int, y);
                                lemma_layout_decode(head_of(v0, 1), m, s2);
                                lemma_branches_update(m, s, i as int, y);
                                lemma_to_set_insert(s[i as int], insert_index as int, last);
                                assert(term_view(self.0@) =~= term_insert(term_view(v0), mid, postfix));
                                assert forall|j: int| 0 <= j < s2.len() implies ascending(#[trigger] s2[j]) by {
                                    if j != i {
                                        assert(s2[j] == s[j]);
                                    }
                                }
                            }
                        },
                    }
                } else {
                    proof {
                        assert(term_insert(self.view(), mid, postfix) =~= self.view());
                    }
                }
            },
            Err(i) => {
                let init: Vec<u32> = match postfix {
                    Some(last) => vec![last],
                    None => Vec::new(),
                };
                proof {
                    lemma_ascending_insert(m, i as int, mid);
                    assert(!m.contains(mid));
                }
                insert_branch(&mut self.0, 1, i, mid, &init);
                proof {
                    let m2 = m.insert(i as int, mid);
                    let s2 = s.insert(i as int, init@);
                    lemma_layout_decode(head_of(v0, 1), m2, s2);
                    lemma_branches_insert(m, s, i as int, mid, init@);
                    assert(init@.to_set() =~= match postfix {
                        None => Set::<u32>::empty(),
                        Some(p) => Set::<u32>::empty().insert(p),
                    });
                    assert(term_view(self.0@) =~= term_insert(term_view(v0), mid, postfix));
                    assert forall|j: int| 0 <= j < s2.len() implies ascending(#[trigger] s2[j]) by {
                        if j < i {
                            assert(s2[j] == s[j]);
                        } else if j > i {
                            assert(s2[j] == s[j - 1]);
                        }
                    }
                }
            },
        }
    }

    /// Whether the pair is stored.
    fn find(&self, mid: u32, postfix: Option<u32>) -> (found: bool) {
        let ghost v0 = self.0@;
        let ghost m = mids_of(v0, 1);
        let ghost s = segs_of(v0, 1);
        proof {
            lemma_layout_numbers(v0, 1);
        }
        let len = self.0[0] as usize;
        proof {
            assert(self.0@.subrange(1, len as int) == m);
        }
        match search_range(&self.0, 1, len, mid) {
            Ok(i) => {
                proof {
                    lemma_branches_at(m, s, i as int);
                }
                if let Some(last) = postfix {
                    let i_index = len + i;
                    proof {
                        lemma_segment_bounds(v0, 1, i as int);
                    }
                    let start = self.0[i_index] as usize;
                    let end = self.0[i_index + 1] as usize;
                    let r = search_range(&self.0, start, end, last);
                    proof {
                        let seg = s[i as int];
                        if let Err(k) = r {
                            assert forall|j: int| 0 <= j < seg.len() implies seg[j] != last by {
                                assert(seg[j] == v0[start + j]);
                            }
                        } else {
                            let k = r->Ok_0;
                            assert(seg[k as int] == last);
                        }
                    }
                    r.is_ok()
                } else {
                    true
                }
            },
            Err(_) => {
                proof {
                    assert(!m.contains(mid));
                }
                false
            },
        }
    }
}

impl TermTrieNode {
    /// The mids stored in the node, each with its postfixes.
    pub open spec fn view(&self) -> Map<u32, Set<u32>> {
        term_view(self.0@)
    }

    /// An empty node: `[1, 2]`.
    pub fn new() -> (res: Self)
        ensures
            term_wf(res.0@),
            res.view() == Map::<u32, Set<u32>>::empty(),
            res.0@ == seq![1u32, 2u32],
    {
        let mut a: Vec<u32> = Vec::with_capacity(16);
        a.push(1);
        a.push(2);
        proof {
            assert(a@ =~= seq![1u32, 2u32]);
            lemma_empty_term_node(a@);
        }
        TermTrieNode(a)
    }

    /// Whether the node stores no mid.
    pub fn is_empty(&self) -> (res: bool)
        requires
            term_wf(self.0@),
        ensures
            res == (self.view() =~= Map::<u32, Set<u32>>::empty()),
    {
        proof {
            let v = self.0@;
            lemma_layout_numbers(v, 1);
            let m = mids_of(v, 1);
            let s = segs_of(v, 1);
            if m.len() > 0 {
                lemma_branches_at(m, s, 0);
                assert(self.view().dom().contains(m[0]));
            } else {
                lemma_offset_all(s);
                assert(s.len() == 0);
                assert(s.take(0) =~= s);
                assert(self.view().dom() =~= Set::<u32>::empty());
            }
        }
        self.0.len() == 2
    }
}

/// A trie of `prefix` nodes grown to `prefix` roots when it has fewer.
pub open spec fn ensured(view: Seq<Map<u32, Set<u32>>>, prefix: int) -> Seq<Map<u32, Set<u32>>> {
    if view.len() < prefix {
        view + Seq::new((prefix - view.len()) as nat, |j: int| Map::<u32, Set<u32>>::empty())
    } else {
        view
    }
}

impl TermTrie {
    /// Every node of the trie is well laid out.
    pub closed spec fn wf(&self) -> bool {
        forall|j: int| 0 <= j < self.roots@.len() ==> term_wf(#[trigger] self.roots@[j].0@)
    }

    /// The map stored under each prefix.
    pub closed spec fn view(&self) -> Seq<Map<u32, Set<u32>>> {
        self.roots@.map_values(|n: TermTrieNode| n.view())
    }

    /// The array of each node.
    pub closed spec fn arrays(&self) -> Seq<Seq<u32>> {
        self.roots@.map_values(|n: TermTrieNode| n.0@)
    }

    /// The node under `prefix` can take one more branch.
    pub closed spec fn has_room(&self, prefix: int) -> bool {
        self.roots@[prefix].0@.len() + 3 <= u32::MAX
    }

    /// An empty trie.
    pub fn new() -> (res: Self)
        ensures
            res.wf(),
            res.view() == Seq::<Map<u32, Set<u32>>>::empty(),
    {
        let res = TermTrie { roots: Vec::with_capacity(1000) };
        proof {
            assert(res.view() =~= Seq::<Map<u32, Set<u32>>>::empty());
        }
        res
    }

    /// Grows the trie to `prefix` roots with empty nodes when it has fewer.
    pub fn ensure(&mut self, prefix: usize)
        requires
            old(self).wf(),
        ensures
            final(self).wf(),
            final(self).view() == ensured(old(self).view(), prefix as int),
            final(self).arrays().take(old(self).arrays().len() as int) == old(self).arrays(),
    {
        if self.roots.len() < prefix {
            let ghost old_roots = self.roots@;
            while self.roots.len() < prefix
                invariant
                    old_roots.len() <= self.roots@.len() <= prefix,
                    forall|j: int| 0 <= j < old_roots.len() ==> self.roots@[j] == old_roots[j],
                    forall|j: int|
                        old_roots.len() <= j < self.roots@.len() ==> #[trigger] self.roots@[j].0@
                            == seq![1u32, 2u32],
                    forall|j: int|
                        0 <= j < self.roots@.len() ==> term_wf(#[trigger] self.roots@[j].0@),
                decreases prefix - self.roots@.len(),
            {
                let node = TermTrieNode::new();
                self.roots.push(node);
            }
            proof {
                assert forall|j: int| old_roots.len() <= j < self.roots@.len() implies (
                #[trigger] self.roots@[j]).view() == Map::<u32, Set<u32>>::empty() by {
                    lemma_empty_term_node(self.roots@[j].0@);
                }
                assert(self.view() =~= ensured(
                    old_roots.map_values(|n: TermTrieNode| n.view()),
                    prefix as int,
                ));
                assert(self.arrays().take(old_roots.len() as int) =~= old_roots.map_values(
                    |n: TermTrieNode| n.0@,
                ));
            }
        } else {
            proof {
                assert(self.arrays().take(self.arrays().len() as int) =~= self.arrays());
            }
        }
    }

    /// Inserts a pair under `prefix`, first growing the trie to `prefix`
    /// roots. Only a `prefix` below the number of roots can take a `mid`.
    pub fn insert(&mut self, prefix: u32, mid: Option<u32>, postfix: Option<u32>)
        requires
            old(self).wf(),
            mid is Some ==> prefix < old(self).view().len() && old(self).has_room(prefix as int),
        ensures
            final(self).wf(),
            final(self).view() == match mid {
                None => ensured(old(self).view(), prefix as int),
                Some(m) => old(self).view().update(
                    prefix as int,
                    term_insert(old(self).view()[prefix as int], m, postfix),
                ),
            },
    {
        self.ensure(prefix as usize);
        if let Some(mid_value) = mid {
            let p = prefix as usize;
            proof {
                assert(self.arrays()[p as int] == old(self).arrays()[p as int]);
                assert(self.view() == old(self).view());
            }
            self.roots[p].insert(mid_value, postfix);
            proof {
                assert(self.view() =~= old(self).view().update(
                    prefix as int,
                    term_insert(old(self).view()[prefix as int], mid_value, postfix),
                ));
            }
        }
    }

    /// Whether the pair is stored under `prefix`. A `prefix` beyond the
    /// roots is not stored; without a `mid` any other prefix counts as stored.
    pub fn find(&self, prefix: u32, mid: Option<u32>, postfix: Option<u32>) -> (res: bool)
        requires
            self.wf(),
            !(mid is Some && prefix == self.view().len()),
        ensures
            res == if self.view().len() < prefix {
                false
            } else {
                match mid {
                    None => true,
                    Some(m) => term_has(self.view()[prefix as int], m, postfix),
                }
            },
    {
        if self.roots.len() < prefix as usize {
            return false;
        }
        if let Some(mid_value) = mid {
            self.roots[prefix as usize].find(mid_value, postfix)
        } else {
            true
        }
    }
}

} // verus!
