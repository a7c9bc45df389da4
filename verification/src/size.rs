//! The size of a file tree, taken from a picture of it.

use vstd::prelude::*;

verus! {

/// A picture of a path on disk, as far as its size goes: a file with its
/// length in bytes, or a directory with the pictures of its entries.
#[derive(Debug, PartialEq, Eq)]
pub enum FsNode {
    /// Anything that is not a directory, with its length in bytes.
    File(u64),
    /// A directory with what it holds.
    Dir(Vec<FsNode>),
}

/// The bytes under `node`: the length of a file, and for a directory the
/// bytes under all of its entries together.
pub open spec fn tree_size(node: FsNode) -> nat
    decreases node,
{
    match node {
        FsNode::File(len) => len as nat,
        FsNode::Dir(children) => forest_size(children@),
    }
}

/// The bytes under all of `nodes` together.
pub open spec fn forest_size(nodes: Seq<FsNode>) -> nat
    decreases nodes,
{
    if nodes.len() == 0 {
        0
    } else {
        forest_size(nodes.drop_last()) + tree_size(nodes.last())
    }
}

/// The files and directories of the tree `node`, itself included.
spec fn node_count(node: FsNode) -> nat
    decreases node,
{
    match node {
        FsNode::File(_) => 1,
        FsNode::Dir(children) => 1 + forest_count(children@),
    }
}

/// The files and directories of all the trees `nodes`.
spec fn forest_count(nodes: Seq<FsNode>) -> nat
    decreases nodes,
{
    if nodes.len() == 0 {
        0
    } else {
        forest_count(nodes.drop_last()) + node_count(nodes.last())
    }
}

/// The nodes that a list of references points to.
spec fn pointees(refs: Seq<&FsNode>) -> Seq<FsNode> {
    refs.map_values(|node: &FsNode| *node)
}

/// Two lists of trees one after the other hold the bytes, and the nodes, of
/// both.
proof fn lemma_forest_concat(front: Seq<FsNode>, back: Seq<FsNode>)
    ensures
        forest_size(front + back) == forest_size(front) + forest_size(back),
        forest_count(front + back) == forest_count(front) + forest_count(back),
    decreases back.len(),
{
    if back.len() == 0 {
        assert(front + back =~= front);
    } else {
        assert((front + back).drop_last() =~= front + back.drop_last());
        lemma_forest_concat(front, back.drop_last());
    }
}

/// The size of the tree that `node` pictures, where it fits into 64 bits.
///
/// The tree is walked with a list of the nodes still to visit, so its depth
/// costs memory on the heap and none on the stack.
pub fn get_size(node: &FsNode) -> (total: Option<u64>)
    ensures
        total == (if tree_size(*node) <= u64::MAX {
            Some(tree_size(*node) as u64)
        } else {
            None
        }),
{
    let mut pending: Vec<&FsNode> = Vec::new();
    pending.push(node);
    let mut total: u64 = 0;
    proof {
        let first = pointees(pending@);
        assert(forest_size(first.drop_last()) == 0);
    }
    while pending.len() > 0
        invariant
            total + forest_size(pointees(pending@)) == tree_size(*node),
        decreases forest_count(pointees(pending@)),
    {
        let ghost before = pointees(pending@);
        let next = pending.pop().unwrap();
        let ghost rest = pointees(pending@);
        proof {
            assert(rest =~= before.drop_last());
            assert(forest_size(before) == forest_size(rest) + tree_size(*next));
            assert(forest_count(before) == forest_count(rest) + node_count(*next));
        }
        match next {
            FsNode::File(len) => {
                match total.checked_add(*len) {
                    Some(sum) => {
                        total = sum;
                    },
                    None => {
                        return None;
                    },
                }
            },
            FsNode::Dir(children) => {
                let mut i: usize = 0;
                while i < children.len()
                    invariant
                        i <= children.len(),
                        pointees(pending@) == rest + children@.take(i as int),
                    decreases children.len() - i,
                {
                    let ghost held = pointees(pending@);
                    pending.push(&children[i]);
                    proof {
                        assert(pointees(pending@) =~= held.push(children@[i as int]));
                        assert(rest + children@.take(i + 1) =~= (rest + children@.take(
                            i as int,
                        )).push(children@[i as int]));
                    }
                    i += 1;
                }
                proof {
                    assert(children@.take(i as int) =~= children@);
                    lemma_forest_concat(rest, children@);
                }
            },
        }
    }
    Some(total)
}

} // verus!
