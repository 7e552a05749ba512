//! Generational slot arena: stable handles that detect use after removal.
use vstd::prelude::*;

verus! {

/// A handle into an [`Arena`]: a slot index and the generation of that slot
/// at the time the element was allocated.
#[derive(Clone, Copy, PartialEq, Eq, Structural, Debug, Hash, PartialOrd, Ord)]
pub struct Key {
    pub idx: usize,
    pub generation: u64,
}

pub struct Slot<T> {
    pub generation: u64,
    pub value: Option<T>,
}

/// Slots that hold elements or lie vacant. Removing an element bumps its
/// slot's generation, so a handle to a removed element never resolves again.
pub struct Arena<T> {
    slots: Vec<Slot<T>>,
    free: Vec<usize>,
}

impl<T> Arena<T> {
    /// Whether `k` names a live element.
    pub closed spec fn live(&self, k: Key) -> bool {
        &&& k.idx < self.slots@.len()
        &&& self.slots@[k.idx as int].generation == k.generation
        &&& self.slots@[k.idx as int].value is Some
    }

    /// The live elements, by handle.
    pub closed spec fn view(&self) -> Map<Key, T> {
        Map::new(|k: Key| self.live(k), |k: Key| self.slots@[k.idx as int].value->Some_0)
    }

    /// The number of slots ever used; every live handle's index is below it.
    pub closed spec fn capacity(&self) -> nat {
        self.slots@.len()
    }

    pub closed spec fn wf(&self) -> bool {
        &&& forall|i: int|
            0 <= i < self.free@.len() ==> {
                &&& self.free@[i] < self.slots@.len()
                &&& self.slots@[self.free@[i] as int].value is None
            }
        &&& forall|i: int, j: int|
            0 <= i < j < self.free@.len() ==> self.free@[i] != self.free@[j]
    }

    /// Two live handles that differ sit in different slots, each below the
    /// capacity.
    pub proof fn lemma_distinct_slots(&self, a: Key, b: Key)
        requires
            self@.contains_key(a),
            self@.contains_key(b),
            a != b,
        ensures
            a.idx != b.idx,
            a.idx < self.capacity(),
            b.idx < self.capacity(),
    {
    }

    /// A live handle's slot lies below the capacity.
    pub proof fn lemma_live_below(&self, k: Key)
        requires
            self@.contains_key(k),
        ensures
            k.idx < self.capacity(),
    {
    }

    /// Only finitely many handles are live.
    pub proof fn lemma_finite(&self)
        ensures
            self@.dom().finite(),
    {
        let all = Seq::new(
            self.slots@.len(),
            |i: int| Key { idx: i as usize, generation: self.slots@[i].generation },
        );
        vstd::seq_lib::seq_to_set_is_finite(all);
        assert forall|k: Key| self@.dom().contains(k) implies all.to_set().contains(k) by {
            assert(all[k.idx as int] == k);
        }
        vstd::set_lib::lemma_len_subset(self@.dom(), all.to_set());
    }

    pub fn new() -> (r: Self)
        ensures
            r.wf(),
            r@ == Map::<Key, T>::empty(),
            r.capacity() == 0,
    {
        let r = Arena { slots: Vec::new(), free: Vec::new() };
        assert(r@ =~= Map::<Key, T>::empty());
        r
    }

    pub fn slot_count(&self) -> (r: usize)
        ensures
            r == self.capacity(),
    {
        self.slots.len()
    }

    pub fn contains(&self, k: Key) -> (r: bool)
        ensures
            r == self@.contains_key(k),
    {
        k.idx < self.slots.len() && self.slots[k.idx].generation == k.generation
            && self.slots[k.idx].value.is_some()
    }

    pub fn get(&self, k: Key) -> (r: Option<&T>)
        ensures
            r == (if self@.contains_key(k) {
                Some(&self@[k])
            } else {
                None
            }),
    {
        if k.idx < self.slots.len() && self.slots[k.idx].generation == k.generation {
            match &self.slots[k.idx].value {
                Some(v) => Some(v),
                None => None,
            }
        } else {
            None
        }
    }

    /// Stores `v` in a vacant slot and returns its handle.
    pub fn insert(&mut self, v: T) -> (k: Key)
        requires
            old(self).wf(),
            old(self).capacity() < usize::MAX,
        ensures
            final(self).wf(),
            !old(self)@.contains_key(k),
            final(self)@ == old(self)@.insert(k, v),
            final(self).capacity() <= old(self).capacity() + 1,
            final(self).capacity() >= old(self).capacity(),
    {
        let ghost pre = self@;
        match self.free.pop() {
            Some(i) => {
                let g = self.slots[i].generation;
                let k = Key { idx: i, generation: g };
                self.slots[i] = Slot { generation: g, value: Some(v) };
                assert(forall|j: int| 0 <= j < self.free@.len() ==> self.free@[j] != i);
                assert(self@ =~= pre.insert(k, v));
                k
            },
            None => {
                let i = self.slots.len();
                let k = Key { idx: i, generation: 0 };
                self.slots.push(Slot { generation: 0, value: Some(v) });
                assert(self@ =~= pre.insert(k, v));
                k
            },
        }
    }

    /// Replaces the element that `k` names.
    pub fn set(&mut self, k: Key, v: T)
        requires
            old(self).wf(),
            old(self)@.contains_key(k),
        ensures
            final(self).wf(),
            final(self)@ == old(self)@.insert(k, v),
            final(self).capacity() == old(self).capacity(),
    {
        let ghost pre = self@;
        self.slots[k.idx] = Slot { generation: k.generation, value: Some(v) };
        assert(self@ =~= pre.insert(k, v));
    }

    /// Removes the element that `k` names, if it is live. The slot's
    /// generation is bumped; a slot whose generation cannot grow is retired.
    pub fn remove(&mut self, k: Key)
        requires
            old(self).wf(),
        ensures
            final(self).wf(),
            final(self)@ == old(self)@.remove(k),
            final(self).capacity() == old(self).capacity(),
    {
        let ghost pre = self@;
        if self.contains(k) {
            if k.generation < u64::MAX {
                self.slots[k.idx] = Slot { generation: k.generation + 1, value: None };
                self.free.push(k.idx);
            } else {
                self.slots[k.idx] = Slot { generation: k.generation, value: None };
            }
        }
        assert(self@ =~= pre.remove(k));
    }

    /// The handles of all live elements, in slot order, each once.
    pub fn keys(&self) -> (r: Vec<Key>)
        ensures
            forall|i: int| 0 <= i < r@.len() ==> self@.contains_key(#[trigger] r@[i]),
            forall|k: Key| self@.contains_key(k) ==> r@.contains(k),
            forall|i: int, j: int| 0 <= i < j < r@.len() ==> r@[i].idx < r@[j].idx,
    {
        let mut r: Vec<Key> = Vec::new();
        let mut i: usize = 0;
        while i < self.slots.len()
            invariant
                i <= self.slots@.len(),
                forall|j: int| 0 <= j < r@.len() ==> self@.contains_key(#[trigger] r@[j]),
                forall|j: int| 0 <= j < r@.len() ==> #[trigger] r@[j].idx < i,
                forall|k: Key| self@.contains_key(k) && k.idx < i ==> r@.contains(k),
                forall|a: int, b: int| 0 <= a < b < r@.len() ==> r@[a].idx < r@[b].idx,
            decreases self.slots@.len() - i,
        {
            if self.slots[i].value.is_some() {
                let k = Key { idx: i, generation: self.slots[i].generation };
                let ghost r0 = r@;
                r.push(k);
                proof {
                    assert forall|k2: Key| self@.contains_key(k2) && k2.idx < i + 1 implies r@.contains(k2) by {
                        if k2.idx == i {
                            assert(r@[r@.len() - 1] == k2);
                        } else {
                            assert(r0.contains(k2));
                            let w = choose|w: int| 0 <= w < r0.len() && r0[w] == k2;
                            assert(r@[w] == k2);
                        }
                    }
                }
            }
            i += 1;
        }
        r
    }
}

} // verus!
