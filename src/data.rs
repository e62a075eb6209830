use crate::bounding::{BoundingNumber, BoxBounded};
use crate::handles::{handle_seq, handles_at, handles_len};
use crate::node::{present, QuadTreeNode};
use crate::storage::StableStore;
use vstd::prelude::*;

verus! {

/// What a visit hands over for one node: the node, and the elements it holds
/// directly, in the order of its handles.
pub struct QuadTreeData<'a, T, DataT> {
    pub node: &'a QuadTreeNode<T>,
    pub data: Vec<&'a DataT>,
}

impl<'a, T: BoundingNumber, DataT> QuadTreeData<'a, T, DataT> {
    /// This snapshot is of node `n`, with its elements resolved in `store`.
    pub open spec fn describes(self, n: QuadTreeNode<T>, store: Seq<Option<DataT>>) -> bool {
        &&& *self.node == n
        &&& self.data@.len() == handle_seq(n.data).len()
        &&& forall|k: int|
            0 <= k < self.data@.len() ==> *(#[trigger] self.data@[k]) == store[handle_seq(
                n.data,
            )[k] as int]->Some_0
    }

    pub(crate) fn new(node: &'a QuadTreeNode<T>, data: &'a StableStore<DataT>) -> (r: Self)
        requires
            forall|k: int|
                0 <= k < handle_seq(node.data).len() ==> present(
                    data@,
                    #[trigger] handle_seq(node.data)[k],
                ),
        ensures
            r.describes(*node, data@),
    {
        let n = handles_len(&node.data);
        let mut refs: Vec<&'a DataT> = Vec::new();
        let mut i: usize = 0;
        while i < n
            invariant
                n == handle_seq(node.data).len(),
                i <= n,
                refs@.len() == i,
                forall|k: int|
                    0 <= k < handle_seq(node.data).len() ==> present(
                        data@,
                        #[trigger] handle_seq(node.data)[k],
                    ),
                forall|k: int|
                    0 <= k < i ==> *(#[trigger] refs@[k]) == data@[handle_seq(
                        node.data,
                    )[k] as int]->Some_0,
            decreases n - i,
        {
            let h = handles_at(&node.data, i);
            refs.push(data.get(h));
            i = i + 1;
        }
        QuadTreeData { node: node, data: refs }
    }
}

} // verus!
