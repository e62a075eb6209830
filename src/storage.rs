use vstd::prelude::*;

verus! {

/// Element storage with stable handles.
///
/// `push` hands out the next handle in sequence; `remove` leaves an empty slot
/// behind, so that no other element's handle moves and no handle is given out
/// twice.
pub struct StableStore<D> {
    slots: Vec<Option<D>>,
    count: usize,
}

/// Number of occupied slots among the first `n` of `s`.
pub open spec fn occupied<D>(s: Seq<Option<D>>, n: int) -> nat
    decreases n,
{
    if n <= 0 {
        0
    } else {
        occupied(s, n - 1) + if s[n - 1] is Some { 1nat } else { 0nat }
    }
}

proof fn lemma_occupied_bound<D>(s: Seq<Option<D>>, n: int)
    requires
        0 <= n <= s.len(),
    ensures
        occupied(s, n) <= n,
    decreases n,
{
    if n > 0 {
        lemma_occupied_bound(s, n - 1);
    }
}

pub proof fn lemma_occupied_push<D>(s: Seq<Option<D>>, d: Option<D>, n: int)
    requires
        0 <= n <= s.len(),
    ensures
        occupied(s.push(d), n) == occupied(s, n),
    decreases n,
{
    if n > 0 {
        lemma_occupied_push(s, d, n - 1);
    }
}

proof fn lemma_occupied_update<D>(s: Seq<Option<D>>, i: int, n: int)
    requires
        0 <= i < s.len(),
        0 <= n <= s.len(),
        s[i] is Some,
    ensures
        i < n ==> occupied(s.update(i, None), n) + 1 == occupied(s, n),
        i >= n ==> occupied(s.update(i, None), n) == occupied(s, n),
    decreases n,
{
    if n > 0 {
        lemma_occupied_update(s, i, n - 1);
    }
}

pub proof fn lemma_occupied_set<D>(s: Seq<Option<D>>, i: int, x: D, n: int)
    requires
        0 <= i < s.len(),
        0 <= n <= s.len(),
        s[i] is Some,
    ensures
        occupied(s.update(i, Some(x)), n) == occupied(s, n),
    decreases n,
{
    if n > 0 {
        lemma_occupied_set(s, i, x, n - 1);
    }
}

impl<D> StableStore<D> {
    /// Slot `h` holds an element exactly where the sequence holds `Some`.
    pub closed spec fn view(&self) -> Seq<Option<D>> {
        self.slots@
    }

    pub closed spec fn wf(&self) -> bool {
        self.count == occupied(self.slots@, self.slots@.len() as int)
    }

    /// `h` refers to an element that is present.
    pub open spec fn valid(&self, h: usize) -> bool {
        h < self.view().len() && self.view()[h as int] is Some
    }

    /// The element behind a valid handle.
    pub open spec fn elem(&self, h: usize) -> D {
        self.view()[h as int]->Some_0
    }

    /// The number of elements present.
    pub open spec fn len_spec(&self) -> nat {
        occupied(self.view(), self.view().len() as int)
    }

    pub fn new() -> (r: Self)
        ensures
            r.wf(),
            r.view() == Seq::<Option<D>>::empty(),
    {
        StableStore { slots: Vec::new(), count: 0 }
    }

    /// Stores `d` under a fresh handle, the index just past every earlier one.
    pub fn push(&mut self, d: D) -> (r: usize)
        requires
            old(self).wf(),
            old(self).view().len() < usize::MAX,
        ensures
            final(self).wf(),
            r == old(self).view().len(),
            final(self).view() == old(self).view().push(Some(d)),
    {
        let ghost s = self.slots@;
        proof {
            lemma_occupied_push(s, Some(d), s.len() as int);
            lemma_occupied_bound(s, s.len() as int);
        }
        let h = self.slots.len();
        self.slots.push(Some(d));
        self.count = self.count + 1;
        h
    }

    /// The element behind `h`; `h` must be valid.
    pub fn get(&self, h: usize) -> (r: &D)
        requires
            self.valid(h),
        ensures
            *r == self.elem(h),
    {
        self.slots[h].as_ref().unwrap()
    }

    /// The element behind `h`, for change in place; `h` must be valid.
    pub fn get_mut(&mut self, h: usize) -> (r: &mut D)
        requires
            old(self).wf(),
            old(self).valid(h),
        ensures
            *r == old(self).elem(h),
            final(self).view() == old(self).view().update(h as int, Some(*final(r))),
            final(self).wf(),
    {
        let ghost s = self.slots@;
        let slot = &mut self.slots[h];
        let r = slot.as_mut().unwrap();
        proof {
            lemma_occupied_set(s, h as int, *final(r), s.len() as int);
        }
        r
    }

    /// The element behind `h`, or `None` where `h` is not valid.
    pub fn get_checked(&self, h: usize) -> (r: Option<&D>)
        ensures
            self.valid(h) ==> r == Some(&self.elem(h)),
            !self.valid(h) ==> r is None,
    {
        if h < self.slots.len() {
            self.slots[h].as_ref()
        } else {
            None
        }
    }

    /// Takes the element behind `h` out, leaving its slot empty; `None` where
    /// `h` is not valid, and then nothing changes.
    pub fn remove(&mut self, h: usize) -> (r: Option<D>)
        requires
            old(self).wf(),
        ensures
            final(self).wf(),
            old(self).valid(h) ==> r == Some(old(self).elem(h)) && final(self).view() == old(
                self,
            ).view().update(h as int, None),
            !old(self).valid(h) ==> r is None && final(self).view() == old(self).view(),
    {
        if h < self.slots.len() && self.slots[h].is_some() {
            let ghost s = self.slots@;
            proof {
                lemma_occupied_update(s, h as int, s.len() as int);
            }
            let mut taken: Option<D> = None;
            self.slots.set_and_swap(h, &mut taken);
            self.count = self.count - 1;
            taken
        } else {
            None
        }
    }

    /// The number of elements present.
    pub fn num_elements(&self) -> (r: usize)
        requires
            self.wf(),
        ensures
            r == self.len_spec(),
    {
        self.count
    }
}

} // verus!
