//! A dense array of optional slots with a free list of reusable indices.
//! It backs the constant pool of a chunk: `push` hands out a stable index,
//! `remove` marks an index reusable, and indices are not disturbed by
//! unrelated pushes or removals.

use vstd::prelude::*;

verus! {

#[derive(Debug, Clone, PartialEq)]
pub struct KeyedArray<T> {
    pub array: Vec<Option<T>>,
    pub free_locations: Vec<usize>,
}

impl<T: Clone> KeyedArray<T> {
    /// The slots, in index order.
    pub open spec fn slots(self) -> Seq<Option<T>> {
        self.array@
    }

    /// The reusable indices; the next `push` takes the last.
    pub open spec fn free(self) -> Seq<usize> {
        self.free_locations@
    }

    pub open spec fn wf(self) -> bool {
        &&& forall|i: int|
            0 <= i < self.free().len() ==> (self.free()[i] as int) < self.slots().len()
                && self.slots()[self.free()[i] as int] is None
        &&& forall|i: int, j: int|
            0 <= i < j < self.free().len() ==> self.free()[i] != self.free()[j]
    }

    /// A fresh array of `n` empty slots, to be handed out in index order.
    pub fn new(n: usize) -> (ka: KeyedArray<T>)
        ensures
            ka.wf(),
            ka.slots() =~= Seq::new(n as nat, |i: int| None::<T>),
            ka.free() =~= Seq::new(n as nat, |i: int| (n - 1 - i) as usize),
    {
        let mut a: Vec<Option<T>> = Vec::new();
        let mut f: Vec<usize> = Vec::new();
        let mut i: usize = 0;
        while i < n
            invariant
                i <= n,
                a@ =~= Seq::new(i as nat, |j: int| None::<T>),
                f@ =~= Seq::new(i as nat, |j: int| (n - 1 - j) as usize),
            decreases n - i,
        {
            a.push(None);
            f.push(n - 1 - i);
            i = i + 1;
        }
        KeyedArray { array: a, free_locations: f }
    }

    /// Store `value` in a slot and return its index: the most recently freed
    /// index if one is available, a brand-new slot otherwise. No other slot
    /// changes.
    pub fn push(&mut self, value: T) -> (idx: usize)
        requires
            old(self).wf(),
        ensures
            final(self).wf(),
            (idx as int) < final(self).slots().len(),
            final(self).slots()[idx as int] == Some(value),
            if old(self).free().len() > 0 {
                &&& idx == old(self).free().last()
                &&& final(self).slots() =~= old(self).slots().update(idx as int, Some(value))
                &&& final(self).free() =~= old(self).free().drop_last()
            } else {
                &&& idx as int == old(self).slots().len()
                &&& final(self).slots() =~= old(self).slots().push(Some(value))
                &&& final(self).free() =~= old(self).free()
            },
    {
        let next = self.free_locations.pop();
        match next {
            Some(next) => {
                self.array.set(next, Some(value));
                next
            },
            None => {
                self.array.push(Some(value));
                self.array.len() - 1
            },
        }
    }

    /// Mark an allocated index reusable: the slot is emptied and a later
    /// `push` may hand the index out again.
    pub fn remove(&mut self, id: usize)
        requires
            old(self).wf(),
        ensures
            final(self).wf(),
            if (id as int) < old(self).slots().len() && old(self).slots()[id as int] is Some {
                &&& final(self).slots() =~= old(self).slots().update(id as int, None)
                &&& final(self).free() =~= old(self).free().push(id)
            } else {
                &&& final(self).slots() =~= old(self).slots()
                &&& final(self).free() =~= old(self).free()
            },
    {
        if id >= self.array.len() {
            return ;
        }
        if self.array[id].is_some() {
            self.array.set(id, None);
            self.free_locations.push(id);
        }
    }

    /// The total number of slots, free ones included.
    pub fn len(&self) -> (n: usize)
        ensures
            n == self.slots().len(),
    {
        self.array.len()
    }

    /// The value at an allocated index.
    pub fn index(&self, i: usize) -> (r: &T)
        requires
            (i as int) < self.slots().len(),
            self.slots()[i as int] is Some,
        ensures
            Some(*r) == self.slots()[i as int],
    {
        self.array[i].as_ref().unwrap()
    }
}

} // verus!
