use vstd::prelude::*;

pub mod flat;
pub mod gap_list;
pub mod ngram_tries;
pub mod term_trie;

verus! {

/// A flat trie node that stores (mid, postfix) pairs under one prefix; a
/// pair may omit the postfix.
pub trait TreeNode: Sized {
    /// The node's array is laid out as its type describes.
    spec fn node_wf(&self) -> bool;

    /// The pair (`mid`, `postfix`) is stored in the node.
    spec fn has(&self, mid: u32, postfix: Option<u32>) -> bool;

    /// The node's array.
    spec fn array(&self) -> Seq<u32>;

    /// The node can grow by a new branch without its indices leaving `u32`.
    spec fn has_room(&self) -> bool;

    /// Inserts (`mid`, `postfix`), keeping the array sorted; nothing changes
    /// when the pair is already stored.
    fn insert(&mut self, mid: u32, postfix: Option<u32>)
        requires
            old(self).node_wf(),
            old(self).has_room(),
        ensures
            final(self).node_wf(),
            final(self).has(mid, postfix),
            forall|m: u32, p: Option<u32>| #[trigger] old(self).has(m, p) ==> final(self).has(m, p),
            old(self).has(mid, postfix) ==> final(self).array() == old(self).array(),
            final(self).array().len() <= old(self).array().len() + 4,
    ;

    /// Whether (`mid`, `postfix`) is stored in the node.
    fn find(&self, mid: u32, postfix: Option<u32>) -> (found: bool)
        requires
            self.node_wf(),
        ensures
            found == self.has(mid, postfix),
    ;
}

} // verus!
