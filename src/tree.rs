use crate::bounding::{BoundingNumber, BoxBounded};
use crate::data::QuadTreeData;
use crate::node::{box_of, present, QuadTreeNode};
use crate::rect::Rect;
use crate::storage::{occupied, StableStore};
use vstd::prelude::*;

verus! {

/// A region quadtree over elements of type `DataT`, subdividing a node once
/// it holds more than `SPLIT_LIMIT` elements directly.
///
/// Elements live in one stable store; nodes hold handles into it.
pub struct QuadTree<T, DataT, const SPLIT_LIMIT: usize> {
    storage: StableStore<DataT>,
    root: QuadTreeNode<T>,
}

impl<T: BoundingNumber, DataT: BoxBounded<T>, const SPLIT_LIMIT: usize> QuadTree<
    T,
    DataT,
    SPLIT_LIMIT,
> {
    /// The slots of the store: `Some(e)` for a present element.
    pub closed spec fn store(self) -> Seq<Option<DataT>> {
        self.storage@
    }

    pub closed spec fn root_node(self) -> QuadTreeNode<T> {
        self.root
    }

    /// The region covered by the tree.
    pub open spec fn region(self) -> Rect<T> {
        self.root_node().bb
    }

    /// The number of elements stored.
    pub open spec fn count(self) -> nat {
        occupied(self.store(), self.store().len() as int)
    }

    pub closed spec fn inv(self) -> bool {
        &&& self.storage.wf()
        &&& self.root.wf(SPLIT_LIMIT as nat)
        &&& self.root.placed(self.storage@)
    }

    /// An empty tree over `bounding_box`, whose far corner must be
    /// representable in `T`.
    pub fn new(bounding_box: Rect<T>) -> (r: Self)
        requires
            bounding_box.representable(),
        ensures
            r.inv(),
            r.region() == bounding_box,
            r.store() == Seq::<Option<DataT>>::empty(),
            r.root_node().children.len() == 0,
            forall|h: usize| !r.root_node().holds(h),
    {
        let root = QuadTreeNode::new(bounding_box);
        let r = QuadTree { storage: StableStore::new(), root: root };
        proof {
            r.root.lemma_wf_unfold(SPLIT_LIMIT as nat);
            r.root.lemma_placed_unfold(r.storage@);
            assert forall|h: usize| !r.root.holds(h) by {
                crate::node::lemma_holds_unfold(r.root, h);
            }
        }
        r
    }

    /// Stores `data` and places it in the tree.
    ///
    /// Succeeds exactly when the element's box fits inside the tree's region,
    /// and then hands back the stored element. Otherwise hands `data` back:
    /// the tree and the number of elements are unchanged (its slot in the
    /// store is left empty).
    pub fn try_insert(&mut self, data: DataT) -> (r: Result<&mut DataT, DataT>)
        requires
            old(self).inv(),
            old(self).store().len() < usize::MAX,
        ensures
            r is Ok <==> data.bounding_box().spec_fits_inside(old(self).region()),
            final(self).region() == old(self).region(),
            match r {
                Ok(m) => {
                    &&& *m == data
                    &&& final(self).store() == old(self).store().push(Some(*final(m)))
                    &&& final(self).count() == old(self).count() + 1
                    &&& forall|h: usize|
                        #[trigger] final(self).root_node().holds(h) <==> old(self).root_node().holds(h)
                            || h == old(self).store().len()
                    &&& final(m).bounding_box() == data.bounding_box() ==> final(self).inv()
                    &&& old(self).root_node().children.len() > 0 ==> final(self).root_node().children.len() == 4
                    &&& old(self).root_node().children.len() == 0 && (old(self).root_node().handles().len()
                        <= SPLIT_LIMIT || old(self).root_node().degenerate()) ==> final(self).root_node().children.len()
                        == 0 && final(self).root_node().handles() == old(self).root_node().handles().push(
                        old(self).store().len() as usize,
                    )
                    &&& old(self).root_node().children.len() == 0 && old(self).root_node().handles().len()
                        > SPLIT_LIMIT && !old(self).root_node().degenerate() ==> final(self).root_node().children.len()
                        == 4
                },
                Err(e) => {
                    &&& e == data
                    &&& final(self).inv()
                    &&& final(self).store() == old(self).store().push(None)
                    &&& final(self).count() == old(self).count()
                    &&& final(self).root_node() == old(self).root_node()
                },
            },
    {
        let ghost s0 = self.storage@;
        let index = self.storage.push(data);
        let bb = self.storage.get(index).get_bounding_box();
        proof {
            crate::storage::lemma_occupied_push(s0, Some(data), s0.len() as int);
            self.root.lemma_placed_unfold(s0);
            self.root.lemma_placed_stable(s0, self.storage@);
        }
        if let Some(unused) = self.root.try_insert(&bb, &self.storage, index, SPLIT_LIMIT) {
            let ghost s1 = self.storage@;
            let removed = self.storage.remove(unused);
            proof {
                self.root.lemma_placed_unfold(s1);
                self.root.lemma_placed_stable(s1, self.storage@);
                assert(self.storage@ =~= s0.push(None));
                crate::storage::lemma_occupied_push(s0, None, s0.len() as int);
            }
            return Err(removed.unwrap());
        }
        let ghost s1 = self.storage@;
        proof {
            self.root.lemma_placed_unfold(s1);
            assert forall|x: DataT| x.bounding_box() == data.bounding_box() implies #[trigger] self.root.placed(
                s1.update(index as int, Some(x)),
            ) by {
                self.root.lemma_placed_stable(s1, s1.update(index as int, Some(x)));
            }
            crate::storage::lemma_occupied_push(s0, Some(data), s0.len() as int);
            assert forall|x: DataT| #[trigger] occupied(s1.update(index as int, Some(x)), s1.len() as int)
                == occupied(s1, s1.len() as int) by {
                crate::storage::lemma_occupied_set(s1, index as int, x, s1.len() as int);
            }
        }
        let m = self.storage.get_mut(index);
        Ok(m)
    }

    /// The number of elements stored.
    pub fn num_elements(&self) -> (r: usize)
        requires
            self.inv(),
        ensures
            r == self.count(),
    {
        self.storage.num_elements()
    }

    /// The snapshots that a visit hands over, in visiting order: one per
    /// node of `root_node().preorder()`.
    pub fn snapshots(&self) -> (r: Vec<QuadTreeData<'_, T, DataT>>)
        requires
            self.inv(),
        ensures
            r@.len() == self.root_node().preorder().len(),
            forall|j: int|
                0 <= j < r@.len() ==> (#[trigger] r@[j]).describes(
                    self.root_node().preorder()[j],
                    self.store(),
                ),
    {
        let mut out: Vec<QuadTreeData<'_, T, DataT>> = Vec::new();
        self.root.collect(&self.storage, &mut out);
        proof {
            assert forall|j: int| 0 <= j < out@.len() implies (#[trigger] out@[j]).describes(
                self.root_node().preorder()[j],
                self.store(),
            ) by {
                assert(out@[0 + j] == out@[j]);
            }
        }
        out
    }

    /// Hands `f` one snapshot per node: the root first, then the subtree of
    /// each child in turn, top-left, top-right, bottom-right, bottom-left.
    pub fn visit<F>(&self, f: F)
        where
            F: FnMut(QuadTreeData<T, DataT>),
        requires
            self.inv(),
            forall|g: F, s: QuadTreeData<T, DataT>| call_requires(g, (s,)),
    {
        self.root.visit(&self.storage, f);
    }
}

/// Containment: in a tree that keeps its invariant, every element held by a
/// node or below it is present, and its box fits inside that node's region.
pub proof fn lemma_containment<T: BoundingNumber, DataT: BoxBounded<T>, const SPLIT_LIMIT: usize>(
    t: QuadTree<T, DataT, SPLIT_LIMIT>,
    k: int,
    h: usize,
)
    requires
        t.inv(),
        0 <= k < t.root_node().preorder().len(),
        t.root_node().preorder()[k].holds(h),
    ensures
        present(t.store(), h),
        box_of(t.store(), h).spec_fits_inside(t.root_node().preorder()[k].bb),
{
    t.root.lemma_preorder_all(SPLIT_LIMIT as nat, t.storage@);
    t.root.preorder()[k].lemma_placed_unfold(t.storage@);
}

/// Split threshold: in a tree that keeps its invariant, every node has no
/// children or exactly four, and a leaf whose region can be divided holds at
/// most `SPLIT_LIMIT + 1` elements directly.
pub proof fn lemma_split_threshold<T: BoundingNumber, DataT: BoxBounded<T>, const SPLIT_LIMIT: usize>(
    t: QuadTree<T, DataT, SPLIT_LIMIT>,
    k: int,
)
    requires
        t.inv(),
        0 <= k < t.root_node().preorder().len(),
    ensures
        t.root_node().preorder()[k].children.len() == 0 || t.root_node().preorder()[k].children.len()
            == 4,
        t.root_node().preorder()[k].children.len() == 0 && !t.root_node().preorder()[k].degenerate()
            ==> t.root_node().preorder()[k].handles().len() <= SPLIT_LIMIT + 1,
{
    t.root.lemma_preorder_all(SPLIT_LIMIT as nat, t.storage@);
    t.root.preorder()[k].lemma_wf_unfold(SPLIT_LIMIT as nat);
}

} // verus!
