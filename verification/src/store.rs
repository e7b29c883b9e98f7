//! Where shared signals are kept.

use crate::signal::{AsyncSignal, DynamicSignal, SignalView};
use vstd::prelude::*;

verus! {

broadcast use crate::signal::lemma_one_reference_per_address;

/// The shared signals of a channel, each under a reference of its own. A
/// reference that was given up is used again.
pub struct SignalStore<T> {
    slots: Vec<Option<AsyncSignal<T>>>,
    free: Vec<usize>,
}

impl<T> View for SignalStore<T> {
    type V = Map<DynamicSignal, SignalView<T>>;

    closed spec fn view(&self) -> Map<DynamicSignal, SignalView<T>> {
        Map::new(
            |p: DynamicSignal| p.address() < self.slots@.len() && self.slots@[p.address() as int] is Some,
            |p: DynamicSignal| self.slots@[p.address() as int]->0@,
        )
    }
}

impl<T> SignalStore<T> {
    /// The free list holds exactly the empty slots, each once.
    pub closed spec fn wf(self) -> bool {
        &&& forall|i: int|
            0 <= i < self.free@.len() ==> (#[trigger] self.free@[i]) < self.slots@.len()
                && self.slots@[self.free@[i] as int] is None
        &&& forall|i: int|
            0 <= i < self.slots@.len() && (#[trigger] self.slots@[i]) is None
                ==> self.free@.contains(i as usize)
        &&& self.free@.no_duplicates()
    }

    /// A store without signals.
    pub fn new() -> (r: SignalStore<T>)
        ensures
            r.wf(),
            r@ == Map::<DynamicSignal, SignalView<T>>::empty(),
    {
        let r = SignalStore { slots: Vec::new(), free: Vec::new() };
        assert(r@ =~= Map::<DynamicSignal, SignalView<T>>::empty());
        r
    }

    /// Puts a signal in, under a reference that is not in use.
    pub fn insert(&mut self, signal: AsyncSignal<T>) -> (r: DynamicSignal)
        requires
            old(self).wf(),
        ensures
            final(self).wf(),
            !old(self)@.dom().contains(r),
            final(self)@ == old(self)@.insert(r, signal@),
    {
        let ghost slots = self.slots@;
        let ghost free = self.free@;
        match self.free.pop() {
            Some(i) => {
                let r = DynamicSignal::new_async(i);
                assert(i == free[free.len() - 1]);
                self.slots.set(i, Some(signal));
                proof {
                    assert forall|k: int|
                        0 <= k < self.slots@.len() && (#[trigger] self.slots@[k]) is None implies self.free@.contains(
                        k as usize,
                    ) by {
                        assert(slots[k] is None);
                        let j = choose|j: int| 0 <= j < free.len() && free[j] == k as usize;
                        assert(self.free@[j] == k as usize);
                    }
                    assert(self@ =~= old(self)@.insert(r, signal@));
                }
                r
            },
            None => {
                let i: usize = self.slots.len();
                let r = DynamicSignal::new_async(i);
                self.slots.push(Some(signal));
                proof {
                    assert forall|k: int|
                        0 <= k < self.slots@.len() && (#[trigger] self.slots@[k]) is None implies self.free@.contains(
                        k as usize,
                    ) by {
                        assert(slots[k] is None);
                    }
                    assert(self@ =~= old(self)@.insert(r, signal@));
                }
                r
            },
        }
    }

    /// Takes a signal out and gives its reference up.
    pub fn remove(&mut self, ptr: DynamicSignal) -> (r: AsyncSignal<T>)
        requires
            old(self).wf(),
            old(self)@.dom().contains(ptr),
        ensures
            final(self).wf(),
            r@ == old(self)@[ptr],
            final(self)@ == old(self)@.remove(ptr),
    {
        let ghost slots = self.slots@;
        let ghost free = self.free@;
        let i: usize = ptr.as_tagged_ptr();
        let mut slot: Option<AsyncSignal<T>> = None;
        core::mem::swap(&mut self.slots[i], &mut slot);
        self.free.push(i);
        proof {
            assert forall|k: int|
                0 <= k < self.slots@.len() && (#[trigger] self.slots@[k]) is None implies self.free@.contains(
                k as usize,
            ) by {
                if k == i {
                    assert(self.free@[free.len() as int] == i);
                } else {
                    assert(slots[k] is None);
                    let j = choose|j: int| 0 <= j < free.len() && free[j] == k as usize;
                    assert(self.free@[j] == k as usize);
                }
            }
            assert(self@ =~= old(self)@.remove(ptr));
        }
        slot.unwrap()
    }

    /// A look at a signal.
    pub fn get(&self, ptr: DynamicSignal) -> (r: &AsyncSignal<T>)
        requires
            self.wf(),
            self@.dom().contains(ptr),
        ensures
            r@ == self@[ptr],
    {
        self.slots[ptr.as_tagged_ptr()].as_ref().unwrap()
    }

    /// A signal, to be changed in place.
    pub fn get_mut(&mut self, ptr: DynamicSignal) -> (r: &mut AsyncSignal<T>)
        requires
            old(self).wf(),
            old(self)@.dom().contains(ptr),
        ensures
            (*r)@ == old(self)@[ptr],
            final(self).wf(),
            final(self)@ == old(self)@.insert(ptr, (*final(r))@),
    {
        let slot = &mut self.slots[ptr.as_tagged_ptr()];
        slot.as_mut().unwrap()
    }
}

} // verus!
