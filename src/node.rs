use crate::bounding::{BoundingNumber, BoxBounded};
use crate::handles::{handle_seq, handles_len, handles_new, handles_pop, handles_push, HandleList};
use crate::rect::{half, Rect};
use crate::data::QuadTreeData;
use crate::storage::StableStore;
use vstd::prelude::*;

verus! {

/// Handle `h` refers to an element present in `store`.
pub open spec fn present<D>(store: Seq<Option<D>>, h: usize) -> bool {
    h < store.len() && store[h as int] is Some
}

/// The box of the element behind handle `h`.
pub open spec fn box_of<T: BoundingNumber, D: BoxBounded<T>>(store: Seq<Option<D>>, h: usize) -> Rect<T> {
    store[h as int]->Some_0.bounding_box()
}

pub open spec fn abs(v: int) -> nat {
    if v >= 0 {
        v as nat
    } else {
        (-v) as nat
    }
}

/// Some node of `cs` holds `h`, directly or below.
pub open spec fn children_hold<T>(cs: Seq<QuadTreeNode<T>>, h: usize) -> bool {
    exists|i: int| 0 <= i < cs.len() && #[trigger] cs[i].holds(h)
}

proof fn lemma_half(v: int)
    ensures
        v >= 0 ==> 0 <= half(v) && 2 * half(v) <= v && v <= 2 * half(v) + 1,
        v < 0 ==> half(v) <= 0 && v <= 2 * half(v) && 2 * half(v) - 1 <= v,
        abs(half(v)) <= abs(v),
        v != 0 ==> abs(half(v)) < abs(v),
{
}

/// Halving truncated toward zero, as `half` states it.
fn halve(v: i128) -> (r: i128)
    requires
        -0x1_0000_0000_0000_0000 <= v <= 0x1_0000_0000_0000_0000,
    ensures
        r == half(v as int),
{
    if v >= 0 {
        v / 2
    } else {
        -((-v) / 2)
    }
}

/// A node of the tree: its region, zero or four children, and the handles it
/// holds directly.
pub struct QuadTreeNode<T> {
    pub bb: Rect<T>,
    pub children: Vec<QuadTreeNode<T>>,
    pub data: HandleList,
}

impl<T> QuadTreeNode<T> {
    /// `h` is held by this node or by a node below it.
    pub open spec fn holds(self, h: usize) -> bool
        decreases self, 1int, 0int,
    {
        handle_seq(self.data).contains(h) || self.held_below(h, self.children.len() as int)
    }

    /// The nodes of this subtree in visiting order: the node itself, then the
    /// subtree of each child in turn.
    pub open spec fn preorder(self) -> Seq<QuadTreeNode<T>>
        decreases self, 1int, 0int,
    {
        seq![self] + self.preorder_children(self.children.len() as int)
    }

    /// The visiting order of the subtrees of the first `k` children.
    pub open spec fn preorder_children(self, k: int) -> Seq<QuadTreeNode<T>>
        decreases self, 0int, k,
    {
        if k <= 0 || k > self.children.len() {
            Seq::empty()
        } else {
            self.preorder_children(k - 1) + self.children@[k - 1].preorder()
        }
    }

    /// One of the first `k` children holds `h`.
    pub open spec fn held_below(self, h: usize, k: int) -> bool
        decreases self, 0int, k,
    {
        if k <= 0 || k > self.children.len() {
            false
        } else {
            self.children@[k - 1].holds(h) || self.held_below(h, k - 1)
        }
    }
}

proof fn lemma_held_below<T>(n: QuadTreeNode<T>, h: usize, k: int)
    requires
        0 <= k <= n.children.len(),
    ensures
        n.held_below(h, k) <==> exists|i: int| 0 <= i < k && #[trigger] n.children@[i].holds(h),
    decreases k,
{
    if k > 0 {
        lemma_held_below(n, h, k - 1);
        if n.children@[k - 1].holds(h) {
            assert(exists|i: int| 0 <= i < k && #[trigger] n.children@[i].holds(h));
        }
    }
}

proof fn lemma_push_contains(s: Seq<usize>, x: usize, h: usize)
    ensures
        s.push(x).contains(h) <==> s.contains(h) || h == x,
{
    if s.contains(h) {
        let k = choose|k: int| 0 <= k < s.len() && s[k] == h;
        assert(s.push(x)[k] == h);
    }
    assert(s.push(x)[s.len() as int] == x);
}

/// `h` is in `orig` exactly when it is held below one of `cs`, or is in
/// `rem` or in `hs`.
pub open spec fn accounted<T>(
    cs: Seq<QuadTreeNode<T>>,
    rem: Seq<usize>,
    hs: Seq<usize>,
    orig: Seq<usize>,
    h: usize,
) -> bool {
    (children_hold(cs, h) || rem.contains(h) || hs.contains(h)) == orig.contains(h)
}

/// One step of unfolding `holds`.
pub proof fn lemma_holds_unfold<T>(n: QuadTreeNode<T>, h: usize)
    ensures
        n.holds(h) == (handle_seq(n.data).contains(h) || children_hold(n.children@, h)),
{
    lemma_held_below(n, h, n.children.len() as int);
}

impl<T: BoundingNumber> QuadTreeNode<T> {
    /// The handles held directly, in order.
    pub open spec fn handles(self) -> Seq<usize> {
        handle_seq(self.data)
    }

    /// The region has zero width and zero height; its quadrants would all be
    /// the region itself, so such a node never subdivides.
    pub open spec fn degenerate(self) -> bool {
        self.bb.w.value() == 0 && self.bb.h.value() == 0
    }

    pub open spec fn size(self) -> nat {
        abs(self.bb.w.value()) + abs(self.bb.h.value())
    }

    /// Structure: children are none or the four quadrants in order, each
    /// well formed; a leaf that can subdivide holds at most `limit + 1`
    /// handles.
    pub open spec fn wf(self, limit: nat) -> bool
        decreases self, 1int, 0int,
    {
        &&& self.bb.representable()
        &&& (self.children.len() == 0 || (self.children.len() == 4 && !self.degenerate()))
        &&& (self.children.len() == 0 && !self.degenerate()) ==> self.handles().len() <= limit + 1
        &&& self.children_wf(limit, self.children.len() as int)
    }

    /// The first `k` children are the matching quadrants and well formed.
    pub open spec fn children_wf(self, limit: nat, k: int) -> bool
        decreases self, 0int, k,
    {
        if k <= 0 || k > self.children.len() {
            true
        } else {
            &&& self.bb.is_quadrant(self.children@[k - 1].bb, k - 1)
            &&& self.children@[k - 1].wf(limit)
            &&& self.children_wf(limit, k - 1)
        }
    }

    /// Every handle held at or below this node, and below each descendant,
    /// refers to a present element whose box fits inside that node's region.
    pub open spec fn placed<D: BoxBounded<T>>(self, store: Seq<Option<D>>) -> bool
        decreases self, 1int, 0int,
    {
        &&& forall|h: usize|
            #[trigger] self.holds(h) ==> present(store, h) && box_of(store, h).spec_fits_inside(
                self.bb,
            )
        &&& self.children_placed(store, self.children.len() as int)
    }

    /// The first `k` children are placed.
    pub open spec fn children_placed<D: BoxBounded<T>>(self, store: Seq<Option<D>>, k: int) -> bool
        decreases self, 0int, k,
    {
        if k <= 0 || k > self.children.len() {
            true
        } else {
            self.children@[k - 1].placed(store) && self.children_placed(store, k - 1)
        }
    }

    proof fn lemma_children_wf(self, limit: nat, k: int)
        requires
            0 <= k <= self.children.len(),
        ensures
            self.children_wf(limit, k) <==> forall|i: int|
                0 <= i < k ==> self.bb.is_quadrant(#[trigger] self.children@[i].bb, i)
                    && self.children@[i].wf(limit),
        decreases k,
    {
        if k > 0 {
            self.lemma_children_wf(limit, k - 1);
        }
    }

    proof fn lemma_children_placed<D: BoxBounded<T>>(self, store: Seq<Option<D>>, k: int)
        requires
            0 <= k <= self.children.len(),
        ensures
            self.children_placed(store, k) <==> forall|i: int|
                0 <= i < k ==> #[trigger] self.children@[i].placed(store),
        decreases k,
    {
        if k > 0 {
            self.lemma_children_placed(store, k - 1);
            assert(self.children_placed(store, k) == (self.children@[k - 1].placed(store)
                && self.children_placed(store, k - 1)));
        }
    }

    /// `wf` in quantified form.
    pub proof fn lemma_wf_unfold(self, limit: nat)
        ensures
            self.wf(limit) <==> {
                &&& self.bb.representable()
                &&& (self.children.len() == 0 || (self.children.len() == 4 && !self.degenerate()))
                &&& (self.children.len() == 0 && !self.degenerate()) ==> self.handles().len()
                    <= limit + 1
                &&& forall|i: int|
                    0 <= i < self.children.len() ==> self.bb.is_quadrant(
                        #[trigger] self.children@[i].bb,
                        i,
                    ) && self.children@[i].wf(limit)
            },
    {
        self.lemma_children_wf(limit, self.children.len() as int);
    }

    /// `placed` in quantified form.
    pub proof fn lemma_placed_unfold<D: BoxBounded<T>>(self, store: Seq<Option<D>>)
        ensures
            self.placed(store) <==> {
                &&& forall|h: usize|
                    #[trigger] self.holds(h) ==> present(store, h) && box_of(
                        store,
                        h,
                    ).spec_fits_inside(self.bb)
                &&& forall|i: int|
                    0 <= i < self.children.len() ==> #[trigger] self.children@[i].placed(store)
            },
    {
        self.lemma_children_placed(store, self.children.len() as int);
    }

    /// `placed` carries over to another store in which every held handle is
    /// still present with the same box.
    pub proof fn lemma_placed_stable<D: BoxBounded<T>>(self, s1: Seq<Option<D>>, s2: Seq<Option<D>>)
        requires
            self.placed(s1),
            forall|h: usize|
                #[trigger] self.holds(h) ==> present(s2, h) && box_of(s2, h) == box_of(s1, h),
        ensures
            self.placed(s2),
        decreases self,
    {
        self.lemma_placed_unfold(s1);
        self.lemma_placed_unfold(s2);
        assert forall|i: int| 0 <= i < self.children.len() implies #[trigger] self.children@[i].placed(s2) by {
            let c = self.children@[i];
            assert forall|h: usize| #[trigger] c.holds(h) implies present(s2, h) && box_of(s2, h) == box_of(s1, h) by {
                lemma_holds_unfold(self, h);
                assert(children_hold(self.children@, h));
            }
            c.lemma_placed_stable(s1, s2);
        }
    }

    proof fn lemma_preorder_children_all<D: BoxBounded<T>>(self, limit: nat, s: Seq<Option<D>>, k: int)
        requires
            0 <= k <= self.children.len(),
            forall|i: int| 0 <= i < self.children.len() ==> #[trigger] self.children@[i].wf(limit),
            forall|i: int| 0 <= i < self.children.len() ==> #[trigger] self.children@[i].placed(s),
        ensures
            forall|j: int|
                0 <= j < self.preorder_children(k).len() ==> (#[trigger] self.preorder_children(
                    k,
                )[j]).wf(limit) && self.preorder_children(k)[j].placed(s),
        decreases self, 0int, k,
    {
        if k > 0 {
            self.lemma_preorder_children_all(limit, s, k - 1);
            let c = self.children@[k - 1];
            c.lemma_preorder_all(limit, s);
            let a = self.preorder_children(k - 1);
            assert(self.preorder_children(k) == a + c.preorder());
            assert forall|j: int| 0 <= j < self.preorder_children(k).len() implies (
            #[trigger] self.preorder_children(k)[j]).wf(limit) && self.preorder_children(k)[j].placed(s) by {
                if j < a.len() {
                    assert(self.preorder_children(k)[j] == a[j]);
                } else {
                    assert(self.preorder_children(k)[j] == c.preorder()[j - a.len()]);
                }
            }
        }
    }

    /// Every node in the visiting order of a well formed, placed subtree is
    /// itself well formed and placed.
    pub proof fn lemma_preorder_all<D: BoxBounded<T>>(self, limit: nat, s: Seq<Option<D>>)
        requires
            self.wf(limit),
            self.placed(s),
        ensures
            forall|j: int|
                0 <= j < self.preorder().len() ==> (#[trigger] self.preorder()[j]).wf(limit)
                    && self.preorder()[j].placed(s),
        decreases self, 1int, 0int,
    {
        self.lemma_wf_unfold(limit);
        self.lemma_placed_unfold(s);
        let n = self.children.len() as int;
        self.lemma_preorder_children_all(limit, s, n);
        assert forall|j: int| 0 <= j < self.preorder().len() implies (#[trigger] self.preorder()[j]).wf(limit)
            && self.preorder()[j].placed(s) by {
            if j > 0 {
                assert(self.preorder()[j] == self.preorder_children(n)[j - 1]);
            }
        }
    }

    /// An empty leaf over `bb`.
    pub fn new(bb: Rect<T>) -> (r: Self)
        ensures
            r.bb == bb,
            r.children.len() == 0,
            r.handles() == Seq::<usize>::empty(),
    {
        QuadTreeNode { bb: bb, children: Vec::new(), data: handles_new() }
    }

    proof fn lemma_quadrant(p: Rect<T>, c: Rect<T>, k: int)
        requires
            p.representable(),
            p.is_quadrant(c, k),
        ensures
            c.representable(),
            abs(c.w.value()) + abs(c.h.value()) <= abs(p.w.value()) + abs(p.h.value()),
            !(p.w.value() == 0 && p.h.value() == 0) ==> abs(c.w.value()) + abs(c.h.value()) < abs(
                p.w.value(),
            ) + abs(p.h.value()),
    {
        p.x.lemma_in_range();
        p.y.lemma_in_range();
        p.w.lemma_in_range();
        p.h.lemma_in_range();
        lemma_half(p.w.value());
        lemma_half(p.h.value());
    }

    /// Replaces the (absent) children by the four quadrants of the region:
    /// top-left, top-right, bottom-right, bottom-left.
    fn split(&mut self)
        requires
            old(self).children.len() == 0,
            old(self).bb.representable(),
        ensures
            final(self).bb == old(self).bb,
            final(self).data == old(self).data,
            final(self).children.len() == 4,
            forall|i: int|
                0 <= i < 4 ==> old(self).bb.is_quadrant(#[trigger] final(self).children@[i].bb, i)
                    && final(self).children@[i].children.len() == 0
                    && final(self).children@[i].handles().len() == 0,
    {
        let bb = self.bb;
        proof {
            bb.x.lemma_in_range();
            bb.y.lemma_in_range();
            bb.w.lemma_in_range();
            bb.h.lemma_in_range();
            lemma_half(bb.w.value());
            lemma_half(bb.h.value());
        }
        let hw = halve(bb.w.widen());
        let hh = halve(bb.h.widen());
        let half_w = T::narrow(hw);
        let half_h = T::narrow(hh);
        let mid_x = T::narrow(bb.x.widen() + hw);
        let mid_y = T::narrow(bb.y.widen() + hh);
        let top_left = Rect { x: bb.x, y: bb.y, w: half_w, h: half_h };
        let top_right = Rect { x: mid_x, y: bb.y, w: half_w, h: half_h };
        let bottom_right = Rect { x: mid_x, y: mid_y, w: half_w, h: half_h };
        let bottom_left = Rect { x: bb.x, y: mid_y, w: half_w, h: half_h };
        self.children = vec![
            QuadTreeNode::new(top_left),
            QuadTreeNode::new(top_right),
            QuadTreeNode::new(bottom_right),
            QuadTreeNode::new(bottom_left),
        ];
    }

    /// Offers `index` (whose element has box `bb`) to each child in turn,
    /// top-left, top-right, bottom-right, bottom-left, until one takes it.
    /// Returns `None` when a child took it, `Some(index)` when none did.
    fn try_children<D: BoxBounded<T>>(
        &mut self,
        bb: &Rect<T>,
        storage: &StableStore<D>,
        index: usize,
        limit: usize,
    ) -> (r: Option<usize>)
        requires
            old(self).wf(limit as nat),
            forall|i: int|
                0 <= i < old(self).children.len() ==> #[trigger] old(self).children@[i].placed(
                    storage@,
                ),
            storage.valid(index),
            *bb == box_of(storage@, index),
        ensures
            final(self).wf(limit as nat),
            final(self).bb == old(self).bb,
            final(self).data == old(self).data,
            final(self).children.len() == old(self).children.len(),
            forall|i: int|
                0 <= i < final(self).children.len() ==> #[trigger] final(self).children@[i].placed(
                    storage@,
                ),
            r is None <==> exists|i: int|
                0 <= i < old(self).children.len() && bb.spec_fits_inside(
                    #[trigger] old(self).children@[i].bb,
                ),
            r is Some ==> r == Some(index) && final(self).children@ == old(self).children@,
            forall|h: usize|
                #[trigger] children_hold(final(self).children@, h) <==> children_hold(
                    old(self).children@,
                    h,
                ) || (r is None && h == index),
        decreases old(self).size(), 0nat,
    {
        let ghost old_self = *self;
        proof {
            old_self.lemma_wf_unfold(limit as nat);
        }
        let mut maybe_index: Option<usize> = Some(index);
        let n = self.children.len();
        let mut i: usize = 0;
        while i < n
            invariant
                n == self.children.len(),
                n == old_self.children.len(),
                i <= n,
                self.bb == old_self.bb,
                self.data == old_self.data,
                n == 0 || (n == 4 && !old_self.degenerate()),
                old_self.bb.representable(),
                forall|j: int| 0 <= j < n ==> old_self.bb.is_quadrant(#[trigger] old_self.children@[j].bb, j),
                storage.valid(index),
                *bb == box_of(storage@, index),
                forall|j: int|
                    0 <= j < n ==> (#[trigger] self.children@[j]).bb == old_self.children@[j].bb
                        && self.children@[j].wf(limit as nat) && self.children@[j].placed(
                        storage@,
                    ),
                forall|j: int| i <= j < n ==> #[trigger] self.children@[j] == old_self.children@[j],
                old_self == *old(self),
                maybe_index is Some ==> maybe_index == Some(index) && self.children@ == old_self.children@,
                maybe_index is Some ==> forall|j: int|
                    0 <= j < i ==> !bb.spec_fits_inside(#[trigger] old_self.children@[j].bb),
                maybe_index is None ==> exists|j: int|
                    0 <= j < i && bb.spec_fits_inside(#[trigger] old_self.children@[j].bb),
                forall|h: usize|
                    #[trigger] children_hold(self.children@, h) <==> children_hold(
                        old_self.children@,
                        h,
                    ) || (maybe_index is None && h == index),
            ensures
                i == n || maybe_index is None,
            decreases n - i,
        {
            match maybe_index {
                None => break,
                Some(x) => {
                    proof {
                        Self::lemma_quadrant(old_self.bb, old_self.children@[i as int].bb, i as int);
                    }
                    assert(self.children@[i as int].size() < old_self.size());
                    let ghost before = self.children@;
                    let child = &mut self.children[i];
                    assert(child.size() < old(self).size());
                    maybe_index = child.try_insert(bb, storage, x, limit);
                    proof {
                        let after = self.children@;
                        assert(after == before.update(i as int, after[i as int]));
                        let ii = i as int;
                        assert forall|h: usize|
                            #[trigger] children_hold(after, h) <==> children_hold(
                                before,
                                h,
                            ) || (maybe_index is None && h == index) by {
                            if children_hold(after, h) {
                                let j = choose|j: int| 0 <= j < after.len() && #[trigger] after[j].holds(h);
                                if j == ii {
                                    assert(after[ii].holds(h));
                                    if before[ii].holds(h) {
                                        assert(children_hold(before, h));
                                    }
                                } else {
                                    assert(before[j] == after[j]);
                                    assert(before[j].holds(h));
                                    assert(children_hold(before, h));
                                }
                            }
                            if children_hold(before, h) {
                                let j = choose|j: int| 0 <= j < before.len() && #[trigger] before[j].holds(h);
                                if j == ii {
                                    assert(after[ii].holds(h));
                                } else {
                                    assert(before[j] == after[j]);
                                    assert(after[j].holds(h));
                                }
                                assert(children_hold(after, h));
                            }
                            if maybe_index is None && h == index {
                                assert(after[ii].holds(h));
                                assert(children_hold(after, h));
                            }
                        }
                        if maybe_index is None {
                            assert(bb.spec_fits_inside(old_self.children@[i as int].bb));
                        }
                    }
                },
            }
            i = i + 1;
        }
        proof {
            if maybe_index is Some {
                assert forall|j: int| 0 <= j < n implies !bb.spec_fits_inside(
                    #[trigger] old_self.children@[j].bb,
                ) by {}
            }
            self.lemma_wf_unfold(limit as nat);
        }
        maybe_index
    }

    /// Places `index`, whose element has box `bb`, in this subtree.
    ///
    /// Fails, returning `Some(index)` and changing nothing, when `bb` does not
    /// fit inside the region. Otherwise the handle goes to the first child
    /// whose region holds `bb`, or stays here; a leaf holding more than
    /// `limit` handles first subdivides and redistributes them the same way.
    pub(crate) fn try_insert<D: BoxBounded<T>>(
        &mut self,
        bb: &Rect<T>,
        storage: &StableStore<D>,
        index: usize,
        limit: usize,
    ) -> (r: Option<usize>)
        requires
            old(self).wf(limit as nat),
            old(self).placed(storage@),
            storage.valid(index),
            *bb == box_of(storage@, index),
        ensures
            final(self).wf(limit as nat),
            final(self).placed(storage@),
            final(self).bb == old(self).bb,
            r is None <==> bb.spec_fits_inside(old(self).bb),
            r is Some ==> r == Some(index) && *final(self) == *old(self),
            forall|h: usize|
                #[trigger] final(self).holds(h) <==> old(self).holds(h) || (r is None && h
                    == index),
            old(self).children.len() > 0 ==> final(self).children.len() == old(self).children.len(),
            r is None && old(self).children.len() == 0 && (old(self).handles().len() <= limit
                || old(self).degenerate()) ==> final(self).children.len() == 0
                && final(self).handles() == old(self).handles().push(index),
            r is None && old(self).children.len() == 0 && old(self).handles().len() > limit
                && !old(self).degenerate() ==> final(self).children.len() == 4,
        decreases old(self).size(), 1nat,
    {
        if !bb.fits_inside(&self.bb) {
            return Some(index);
        }
        let ghost old_self = *self;
        proof {
            old_self.lemma_placed_unfold(storage@);
            old_self.lemma_wf_unfold(limit as nat);
        }
        if self.children.len() != 0 {
            let res = self.try_children(bb, storage, index, limit);
            let ghost mid = *self;
            if let Some(unused) = res {
                handles_push(&mut self.data, unused);
            }
            proof {
                mid.lemma_wf_unfold(limit as nat);
                self.lemma_wf_unfold(limit as nat);
                assert forall|h: usize| #[trigger] self.holds(h) <==> old_self.holds(h) || h == index by {
                    lemma_holds_unfold(*self, h);
                    lemma_holds_unfold(old_self, h);
                    lemma_push_contains(old_self.handles(), index, h);
                }
                self.lemma_placed_unfold(storage@);
            }
            return None;
        }
        let degenerate = self.bb.w.widen() == 0 && self.bb.h.widen() == 0;
        if handles_len(&self.data) > limit && !degenerate {
            self.split();
            proof {
                assert forall|i: int| 0 <= i < 4 implies #[trigger] self.children@[i].wf(limit as nat) && self.children@[i].placed(storage@) by {
                    Self::lemma_quadrant(self.bb, self.children@[i].bb, i);
                    self.children@[i].lemma_wf_unfold(limit as nat);
                    self.children@[i].lemma_placed_unfold(storage@);
                    assert forall|h: usize| !self.children@[i].holds(h) by {
                        lemma_holds_unfold(self.children@[i], h);
                    }
                }
                assert forall|i: int, h: usize| 0 <= i < 4 implies !#[trigger] self.children@[i].holds(h) by {
                    assert(old_self.bb.is_quadrant(self.children@[i].bb, i));
                    lemma_holds_unfold(self.children@[i], h);
                }
                assert forall|i: int| 0 <= i < 4 implies #[trigger] self.children@[i].placed(storage@) by {
                    assert(self.children@[i].wf(limit as nat));
                }
                assert forall|h: usize| !children_hold(self.children@, h) by {}
            }
            let ghost orig = old_self.handles();
            let mut remaining: Vec<usize> = Vec::new();
            loop
                invariant
                    old_self == *old(self),
                    self.bb == old_self.bb,
                    self.bb.representable(),
                    !self.degenerate(),
                    self.children.len() == 4,
                    forall|i: int|
                        0 <= i < 4 ==> self.bb.is_quadrant(#[trigger] self.children@[i].bb, i)
                            && self.children@[i].wf(limit as nat),
                    forall|i: int| 0 <= i < 4 ==> #[trigger] self.children@[i].placed(storage@),
                    old_self.children.len() == 0,
                    forall|h: usize|
                        #[trigger] old_self.holds(h) ==> present(storage@, h) && box_of(storage@, h).spec_fits_inside(old_self.bb),
                    forall|h: usize| #[trigger] orig.contains(h) ==> old_self.holds(h),
                    storage.valid(index),
                    *bb == box_of(storage@, index),
                    self.handles() == orig.subrange(0, self.handles().len() as int),
                    self.handles().len() <= orig.len(),
                    forall|h: usize| #[trigger] accounted(self.children@, remaining@, self.handles(), orig, h),
                ensures
                    self.handles().len() == 0,
                decreases self.handles().len(),
            {
                let ghost before = self.handles();
                let ghost kids0 = self.children@;
                let ghost rem0 = remaining@;
                match handles_pop(&mut self.data) {
                    None => break,
                    Some(id) => {
                        proof {
                            assert(before[before.len() - 1] == orig[before.len() - 1]);
                            assert(orig.contains(id));
                            self.lemma_wf_unfold(limit as nat);
                        }
                        let element = storage.get(id);
                        let old_bb = element.get_bounding_box();
                        assert(self.size() == old(self).size());
                        let ghost rem_before = remaining@;
                        let ghost kids = self.children@;
                        let res = self.try_children(&old_bb, storage, id, limit);
                        if let Some(unused) = res {
                            remaining.push(unused);
                        }
                        proof {
                            self.lemma_wf_unfold(limit as nat);
                            assert(before == self.handles().push(id));
                            assert(self.handles() =~= orig.subrange(0, self.handles().len() as int));
                            assert forall|h: usize| #[trigger] accounted(self.children@, remaining@, self.handles(), orig, h) by {
                                lemma_push_contains(self.handles(), id, h);
                                lemma_push_contains(rem_before, id, h);
                                if res is Some {
                                    assert(remaining@ == rem_before.push(id));
                                } else {
                                    assert(remaining@ == rem_before);
                                }
                                assert(kids == kids0);
                                assert(rem_before == rem0);
                                assert(accounted(kids0, rem0, before, orig, h));
                            }
                        }
                    },
                }
            }
            proof {
                assert(self.handles() =~= Seq::<usize>::empty());
                assert forall|h: usize| #[trigger] accounted(self.children@, remaining@, Seq::<usize>::empty(), orig, h) by {
                    assert(accounted(self.children@, remaining@, self.handles(), orig, h));
                }
            }
            let mut k: usize = 0;
            while k < remaining.len()
                invariant
                    old_self == *old(self),
                    self.bb == old_self.bb,
                    self.bb.representable(),
                    !self.degenerate(),
                    self.children.len() == 4,
                    forall|i: int|
                        0 <= i < 4 ==> self.bb.is_quadrant(#[trigger] self.children@[i].bb, i)
                            && self.children@[i].wf(limit as nat),
                    forall|i: int| 0 <= i < 4 ==> #[trigger] self.children@[i].placed(storage@),
                    k <= remaining.len(),
                    self.handles() == remaining@.subrange(0, k as int),
                    forall|h: usize| #[trigger] accounted(self.children@, remaining@, Seq::<usize>::empty(), orig, h),
                decreases remaining.len() - k,
            {
                handles_push(&mut self.data, remaining[k]);
                k = k + 1;
                proof {
                    assert(self.handles() =~= remaining@.subrange(0, k as int));
                }
            }
            proof {
                assert(self.handles() =~= remaining@);
                self.lemma_wf_unfold(limit as nat);
            }
            assert(self.size() == old(self).size());
            let ghost pre_kids = self.children@;
            let res = self.try_children(bb, storage, index, limit);
            let ghost mid = *self;
            if let Some(x) = res {
                handles_push(&mut self.data, x);
            }
            proof {
                mid.lemma_wf_unfold(limit as nat);
                self.lemma_wf_unfold(limit as nat);
                assert forall|h: usize| #[trigger] self.holds(h) <==> old_self.holds(h) || h == index by {
                    lemma_holds_unfold(*self, h);
                    lemma_holds_unfold(old_self, h);
                    lemma_push_contains(remaining@, index, h);
                    assert(!children_hold(old_self.children@, h));
                    if res is Some {
                        assert(self.handles() == remaining@.push(index));
                    } else {
                        assert(self.handles() == remaining@);
                    }
                    assert(accounted(pre_kids, remaining@, Seq::<usize>::empty(), orig, h));
                }
                self.lemma_placed_unfold(storage@);
            }
            return None;
        }
        handles_push(&mut self.data, index);
        proof {
            self.lemma_wf_unfold(limit as nat);
            assert forall|h: usize| #[trigger] self.holds(h) <==> old_self.holds(h) || h == index by {
                lemma_holds_unfold(*self, h);
                lemma_holds_unfold(old_self, h);
                lemma_push_contains(old_self.handles(), index, h);
            }
            self.lemma_placed_unfold(storage@);
        }
        None
    }

    /// Appends to `out` one snapshot per node of this subtree, in visiting
    /// order.
    pub(crate) fn collect<'a, D: BoxBounded<T>>(
        &'a self,
        storage: &'a StableStore<D>,
        out: &mut Vec<QuadTreeData<'a, T, D>>,
    )
        requires
            self.placed(storage@),
        ensures
            final(out)@.len() == old(out)@.len() + self.preorder().len(),
            forall|j: int| 0 <= j < old(out)@.len() ==> #[trigger] final(out)@[j] == old(out)@[j],
            forall|j: int|
                0 <= j < self.preorder().len() ==> (#[trigger] final(out)@[old(out)@.len() + j]).describes(
                    self.preorder()[j],
                    storage@,
                ),
        decreases self,
    {
        let ghost o0 = out@;
        proof {
            self.lemma_placed_unfold(storage@);
            assert forall|k: int| 0 <= k < handle_seq(self.data).len() implies present(
                storage@,
                #[trigger] handle_seq(self.data)[k],
            ) by {
                let h = handle_seq(self.data)[k];
                assert(handle_seq(self.data).contains(h));
                lemma_holds_unfold(*self, h);
            }
        }
        out.push(QuadTreeData::new(self, storage));
        let n = self.children.len();
        let mut i: usize = 0;
        while i < n
            invariant
                n == self.children.len(),
                i <= n,
                forall|k: int| 0 <= k < n ==> #[trigger] self.children@[k].placed(storage@),
                out@.len() == o0.len() + 1 + self.preorder_children(i as int).len(),
                forall|j: int| 0 <= j < o0.len() ==> #[trigger] out@[j] == o0[j],
                out@[o0.len() as int].describes(*self, storage@),
                forall|j: int|
                    0 <= j < self.preorder_children(i as int).len() ==> (#[trigger] out@[o0.len() + 1
                        + j]).describes(self.preorder_children(i as int)[j], storage@),
            decreases n - i,
        {
            let ghost before = out@;
            let child = &self.children[i];
            child.collect(storage, out);
            i = i + 1;
            proof {
                let pc = self.preorder_children(i - 1);
                assert(self.preorder_children(i as int) == pc + self.children@[i - 1].preorder());
                assert forall|j: int| 0 <= j < self.preorder_children(i as int).len() implies (
                #[trigger] out@[o0.len() + 1 + j]).describes(self.preorder_children(i as int)[j], storage@) by {
                    if j < pc.len() {
                        assert(out@[o0.len() + 1 + j] == before[o0.len() + 1 + j]);
                    } else {
                        let jj = j - pc.len();
                        assert(out@[before.len() + jj] == out@[o0.len() + 1 + j]);
                    }
                }
            }
        }
        proof {
            assert forall|j: int| 0 <= j < self.preorder().len() implies (#[trigger] out@[o0.len() + j]).describes(
                self.preorder()[j],
                storage@,
            ) by {
                if j > 0 {
                    assert(self.preorder()[j] == self.preorder_children(n as int)[j - 1]);
                    assert(out@[o0.len() + j] == out@[o0.len() + 1 + (j - 1)]);
                }
            }
        }
    }

    /// Hands `f` one snapshot per node of this subtree: the node first, then
    /// the subtree of each child, top-left, top-right, bottom-right,
    /// bottom-left.
    pub fn visit<D: BoxBounded<T>, F: FnMut(QuadTreeData<T, D>)>(&self, data: &StableStore<D>, f: F)
        requires
            self.placed(data@),
            forall|g: F, s: QuadTreeData<T, D>| call_requires(g, (s,)),
    {
        let mut f = f;
        let mut acc: Vec<QuadTreeData<T, D>> = Vec::new();
        self.collect(data, &mut acc);
        let mut rev: Vec<QuadTreeData<T, D>> = Vec::new();
        while acc.len() > 0
            decreases acc.len(),
        {
            let s = acc.pop().unwrap();
            rev.push(s);
        }
        while rev.len() > 0
            invariant
                forall|g: F, s: QuadTreeData<T, D>| call_requires(g, (s,)),
            decreases rev.len(),
        {
            let s = rev.pop().unwrap();
            f(s);
        }
    }
}

impl<T: BoundingNumber> BoxBounded<T> for QuadTreeNode<T> {
    open spec fn bounding_box(&self) -> Rect<T> {
        self.bb
    }

    /// The node's region.
    fn get_bounding_box(&self) -> (r: Rect<T>) {
        self.bb
    }
}

/// Visiting order: a node with four children is visited first, then the whole
/// subtree of its top-left child, then top-right, bottom-right and
/// bottom-left; where the four children are leaves, that is exactly the node
/// and its four children in that order.
pub proof fn lemma_visit_order<T>(n: QuadTreeNode<T>)
    requires
        n.children.len() == 4,
    ensures
        n.preorder() == seq![n] + n.children@[0].preorder() + n.children@[1].preorder()
            + n.children@[2].preorder() + n.children@[3].preorder(),
        (forall|i: int| 0 <= i < 4 ==> (#[trigger] n.children@[i]).children.len() == 0)
            ==> n.preorder() == seq![n, n.children@[0], n.children@[1], n.children@[2], n.children@[3]],
{
    let c = n.children@;
    assert(n.preorder_children(0) == Seq::<QuadTreeNode<T>>::empty());
    assert(n.preorder_children(1) == n.preorder_children(0) + c[0].preorder());
    assert(n.preorder_children(2) == n.preorder_children(1) + c[1].preorder());
    assert(n.preorder_children(3) == n.preorder_children(2) + c[2].preorder());
    assert(n.preorder_children(4) == n.preorder_children(3) + c[3].preorder());
    assert(n.preorder() =~= seq![n] + c[0].preorder() + c[1].preorder() + c[2].preorder()
        + c[3].preorder());
    if forall|i: int| 0 <= i < 4 ==> (#[trigger] n.children@[i]).children.len() == 0 {
        assert forall|i: int| 0 <= i < 4 implies (#[trigger] c[i]).preorder() == seq![c[i]] by {
            assert(c[i].preorder_children(0) == Seq::<QuadTreeNode<T>>::empty());
            assert(c[i].preorder() =~= seq![c[i]]);
        }
        assert(c[0].preorder() == seq![c[0]]);
        assert(c[1].preorder() == seq![c[1]]);
        assert(c[2].preorder() == seq![c[2]]);
        assert(c[3].preorder() == seq![c[3]]);
        assert(n.preorder() =~= seq![n, c[0], c[1], c[2], c[3]]);
    }
}

/// Handle stability: a handle that is present keeps resolving to the same
/// element after another element is stored, and after the removal of any
/// other handle.
pub proof fn lemma_handle_stability<D>(s: Seq<Option<D>>, x: Option<D>, r: usize, h: usize)
    requires
        present(s, h),
        r != h,
    ensures
        present(s.push(x), h),
        s.push(x)[h as int] == s[h as int],
        r < s.len() ==> present(s.update(r as int, None), h) && s.update(r as int, None)[h as int]
            == s[h as int],
{
}

} // verus!
