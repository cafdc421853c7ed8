//! Maps from cells to values that empty in constant time.
//!
//! Every slot carries the generation in which it was written; a new generation
//! makes all older slots stale, so starting over neither clears nor allocates.
use vstd::prelude::*;

verus! {

/// A map from cell indices to values, reusable without clearing.
pub struct StampedMap<T> {
    stamp: Vec<u32>,
    value: Vec<T>,
    generation: u32,
}

impl<T: Copy> View for StampedMap<T> {
    type V = Map<int, T>;

    closed spec fn view(&self) -> Map<int, T> {
        Map::new(
            |i: int| 0 <= i < self.stamp@.len() && self.stamp@[i] == self.generation,
            |i: int| self.value@[i],
        )
    }
}

impl<T: Copy> StampedMap<T> {
    /// No slot was written in a generation that is still to come.
    pub closed spec fn wf(&self) -> bool {
        &&& self.stamp@.len() == self.value@.len()
        &&& self.generation > 0
        &&& forall|i: int| 0 <= i < self.stamp@.len() ==> #[trigger] self.stamp@[i] <= self.generation
    }

    /// Number of cells that the map can hold.
    pub closed spec fn capacity(&self) -> nat {
        self.stamp@.len()
    }

    /// An empty map without room.
    pub fn new() -> (m: StampedMap<T>)
        ensures
            m.wf(),
            m@ == Map::<int, T>::empty(),
    {
        let m: StampedMap<T> = StampedMap { stamp: Vec::new(), value: Vec::new(), generation: 1 };
        assert(m@ =~= Map::<int, T>::empty());
        m
    }

    /// Empties the map and makes room for `cells` cells.
    pub fn reset(&mut self, cells: usize, filler: T)
        requires
            old(self).wf(),
        ensures
            final(self).wf(),
            final(self)@ == Map::<int, T>::empty(),
            final(self).capacity() >= cells,
    {
        if self.generation == u32::MAX {
            let mut i: usize = 0;
            while i < self.stamp.len()
                invariant
                    i <= self.stamp@.len(),
                    self.stamp@.len() == self.value@.len(),
                    forall|j: int| 0 <= j < i ==> #[trigger] self.stamp@[j] == 0,
                decreases self.stamp@.len() - i,
            {
                self.stamp.set(i, 0);
                i = i + 1;
            }
            self.generation = 1;
        } else {
            self.generation = self.generation + 1;
        }
        while self.stamp.len() < cells
            invariant
                self.stamp@.len() == self.value@.len(),
                self.generation > 0,
                forall|j: int|
                    0 <= j < self.stamp@.len() ==> #[trigger] self.stamp@[j] < self.generation,
            decreases cells - self.stamp@.len(),
        {
            self.stamp.push(0);
            self.value.push(filler);
        }
        assert(self@ =~= Map::<int, T>::empty());
    }

    /// Makes room for `cells` cells, keeping what the map holds.
    pub fn make_room(&mut self, cells: usize, filler: T)
        requires
            old(self).wf(),
        ensures
            final(self).wf(),
            final(self)@ == old(self)@,
            final(self).capacity() >= cells,
            final(self).capacity() >= old(self).capacity(),
    {
        while self.stamp.len() < cells
            invariant
                self.stamp@.len() == self.value@.len(),
                self.stamp@.len() >= old(self).stamp@.len(),
                self.generation > 0,
                forall|j: int|
                    0 <= j < self.stamp@.len() ==> #[trigger] self.stamp@[j] <= self.generation,
                forall|j: int|
                    0 <= j < self.stamp@.len() ==> (#[trigger] self.stamp@[j] == self.generation)
                        == (j < old(self).stamp@.len() && old(self).stamp@[j] == old(
                        self,
                    ).generation),
                forall|j: int|
                    0 <= j < old(self).stamp@.len() ==> #[trigger] self.value@[j] == old(
                        self,
                    ).value@[j],
            decreases cells - self.stamp@.len(),
        {
            self.stamp.push(0);
            self.value.push(filler);
        }
        assert(self@ =~= old(self)@);
    }

    /// The value of a cell, if it was written since the last reset.
    pub fn get(&self, i: usize) -> (r: Option<T>)
        requires
            self.wf(),
            i < self.capacity(),
        ensures
            r == (if self@.dom().contains(i as int) {
                Some(self@[i as int])
            } else {
                None
            }),
    {
        if self.stamp[i] == self.generation {
            Some(self.value[i])
        } else {
            None
        }
    }

    /// Whether a cell was written since the last reset.
    pub fn contains(&self, i: usize) -> (r: bool)
        requires
            self.wf(),
            i < self.capacity(),
        ensures
            r == self@.dom().contains(i as int),
    {
        self.stamp[i] == self.generation
    }

    /// Writes a cell.
    pub fn set(&mut self, i: usize, v: T)
        requires
            old(self).wf(),
            i < old(self).capacity(),
        ensures
            final(self).wf(),
            final(self)@ == old(self)@.insert(i as int, v),
            final(self).capacity() == old(self).capacity(),
    {
        self.stamp.set(i, self.generation);
        self.value.set(i, v);
        assert(self@ =~= old(self)@.insert(i as int, v));
    }
}

} // verus!
