use vstd::prelude::*;
use crate::arena::Arena;
use crate::model::path_sizes;
use crate::transcript::transcript_tree;
use crate::tree::Dir;

verus! {

/// The set of (absolute path, size) pairs of every node of a tree.
pub open spec fn node_table(e: crate::model::Entry) -> Set<(Seq<Seq<char>>, nat)> {
    path_sizes(e, Seq::empty()).to_set()
}

/// The arena and the owned tree built from one transcript hold the same
/// nodes: the same absolute paths with the same sizes. `a` and `d` are what
/// `parse_input_arena` and `parse_input` return on `text`.
pub proof fn lemma_stores_agree(text: Seq<char>, a: &Arena, d: &Dir)
    requires
        transcript_tree(text) is Ok,
        a.view() == transcript_tree(text)->Ok_0,
        d.view() == transcript_tree(text)->Ok_0,
    ensures
        node_table(a.view()) == node_table(d.view()),
        path_sizes(a.view(), Seq::empty()) == path_sizes(d.view(), Seq::empty()),
{
}

} // verus!
