use vstd::prelude::*;
use crate::error::Error;
use crate::node_type::{Key, KeyValuePair, NodeType, NodeTypeView, Offset, PairView};

verus! {

/// An in-memory node of the tree.
#[derive(Debug)]
pub struct Node {
    pub node_type: NodeType,
    pub is_root: bool,
    pub parent_offset: Option<Offset>,
}

/// The mathematical value of a `Node`.
#[verifier::ext_equal]
pub struct NodeView {
    pub node_type: NodeTypeView,
    pub is_root: bool,
    pub parent_offset: Option<usize>,
}

impl View for Node {
    type V = NodeView;

    open spec fn view(&self) -> NodeView {
        NodeView {
            node_type: self.node_type@,
            is_root: self.is_root,
            parent_offset: match self.parent_offset {
                Some(o) => Some(o.0),
                None => None,
            },
        }
    }
}

/// How many keys (internal node) or pairs (leaf) a node holds.
pub open spec fn entry_count(nt: NodeTypeView) -> nat {
    match nt {
        NodeTypeView::Internal(_, keys) => keys.len(),
        NodeTypeView::Leaf(pairs) => pairs.len(),
        NodeTypeView::Unexpected => 0,
    }
}

/// A node is full when it holds exactly `2b - 1` keys or pairs.
pub open spec fn is_full(nt: NodeTypeView, b: int) -> bool {
    entry_count(nt) == 2 * b - 1
}

/// The key a split of a full node promotes: the last key the left half
/// keeps.
pub open spec fn median_key(nt: NodeTypeView, b: int) -> Seq<u8> {
    match nt {
        NodeTypeView::Leaf(pairs) => pairs[b - 1].key,
        NodeTypeView::Internal(_, keys) => keys[b - 1],
        NodeTypeView::Unexpected => Seq::empty(),
    }
}

impl Node {
    pub fn new(node_type: NodeType, is_root: bool, parent_offset: Option<Offset>) -> (r: Node)
        ensures
            r.node_type == node_type,
            r.is_root == is_root,
            r.parent_offset == parent_offset,
    {
        Node { node_type, is_root, parent_offset }
    }

    /// Splits a full node around its median key.
    ///
    /// A full leaf keeps its first `b` pairs; the key of the last kept pair
    /// is the median, so every key at most the median stays on the left and
    /// the sibling takes the strictly greater pairs. Leaves do not move a
    /// pair up: the median's pair remains in the left leaf. A full internal
    /// node keeps its first `b - 1` keys and `b` children; the key at
    /// position `b - 1` is promoted and the remaining keys and children move
    /// to the sibling. Splitting a node that is not full, or an `Unexpected`
    /// node, fails.
    pub fn split(&mut self, b: usize) -> (r: Result<(Key, Node), Error>)
        requires
            2 <= b,
            b <= usize::MAX / 2,
        ensures
            match r {
                Ok((median, sibling)) => {
                    &&& is_full(old(self).node_type@, b as int)
                    &&& sibling.is_root == false
                    &&& sibling@.parent_offset == old(self)@.parent_offset
                    &&& final(self).is_root == old(self).is_root
                    &&& final(self)@.parent_offset == old(self)@.parent_offset
                    &&& match old(self).node_type@ {
                        NodeTypeView::Leaf(ps) => {
                            &&& final(self).node_type@ == NodeTypeView::Leaf(
                                ps.subrange(0, b as int),
                            )
                            &&& median@ == ps[b - 1].key
                            &&& sibling.node_type@ == NodeTypeView::Leaf(
                                ps.subrange(b as int, 2 * b - 1),
                            )
                        },
                        NodeTypeView::Internal(cs, ks) => {
                            &&& cs.len() == ks.len() + 1
                            &&& final(self).node_type@ == NodeTypeView::Internal(
                                cs.subrange(0, b as int),
                                ks.subrange(0, b - 1),
                            )
                            &&& median@ == ks[b - 1]
                            &&& sibling.node_type@ == NodeTypeView::Internal(
                                cs.subrange(b as int, 2 * b),
                                ks.subrange(b as int, 2 * b - 1),
                            )
                        },
                        NodeTypeView::Unexpected => false,
                    }
                },
                Err(e) => {
                    &&& e == Error::UnexpectedError
                    &&& *final(self) == *old(self)
                    &&& (old(self).node_type@ is Unexpected || !is_full(
                        old(self).node_type@,
                        b as int,
                    ) || (old(self).node_type@ matches NodeTypeView::Internal(cs, ks) && cs.len()
                        != ks.len() + 1))
                },
            },
    {
        let full_len = 2 * b - 1;
        let mut nt = NodeType::Unexpected;
        core::mem::swap(&mut nt, &mut self.node_type);
        match nt {
            NodeType::Leaf(mut pairs) => {
                if pairs.len() != full_len {
                    self.node_type = NodeType::Leaf(pairs);
                    return Err(Error::UnexpectedError);
                }
                let sibling_pairs = pairs.split_off(b);
                let median = Key(pairs[b - 1].key.clone());
                proof {
                    let ps = old(self).node_type@->Leaf_0;
                    assert(pairs@.map_values(|p: KeyValuePair| p@) =~= ps.subrange(0, b as int));
                    assert(sibling_pairs@.map_values(|p: KeyValuePair| p@) =~= ps.subrange(
                        b as int,
                        2 * b - 1,
                    ));
                    assert(median@ == ps[b - 1].key);
                }
                let sibling = Node {
                    node_type: NodeType::Leaf(sibling_pairs),
                    is_root: false,
                    parent_offset: self.parent_offset,
                };
                self.node_type = NodeType::Leaf(pairs);
                Ok((median, sibling))
            },
            NodeType::Internal(mut children, mut keys) => {
                if keys.len() != full_len || children.len() != full_len + 1 {
                    self.node_type = NodeType::Internal(children, keys);
                    return Err(Error::UnexpectedError);
                }
                let sibling_children = children.split_off(b);
                let mut sibling_keys = keys.split_off(b - 1);
                let median = sibling_keys.remove(0);
                proof {
                    let cs = old(self).node_type@->Internal_0;
                    let ks = old(self).node_type@->Internal_1;
                    assert(children@.map_values(|c: Offset| c.0) =~= cs.subrange(0, b as int));
                    assert(keys@.map_values(|k: Key| k@) =~= ks.subrange(0, b - 1));
                    assert(sibling_children@.map_values(|c: Offset| c.0) =~= cs.subrange(
                        b as int,
                        2 * b,
                    ));
                    assert(sibling_keys@.map_values(|k: Key| k@) =~= ks.subrange(
                        b as int,
                        2 * b - 1,
                    ));
                    assert(median@ == ks[b - 1]);
                }
                let sibling = Node {
                    node_type: NodeType::Internal(sibling_children, sibling_keys),
                    is_root: false,
                    parent_offset: self.parent_offset,
                };
                self.node_type = NodeType::Internal(children, keys);
                Ok((median, sibling))
            },
            NodeType::Unexpected => Err(Error::UnexpectedError),
        }
    }
}

} // verus!
