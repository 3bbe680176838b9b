//! Fixed-size ring buffer indexed by `sequence mod capacity`.
//!
//! Every slot holds an `Option<T>`; inserting overwrites whatever the slot
//! held before, irrespective of its previous state.

use vstd::prelude::*;

verus! {

pub struct SequenceBuffer<T> {
    pub values: Vec<Option<T>>,
    pub partition_by: u16,
}

impl<T> SequenceBuffer<T> {
    /// The slots hold exactly `partition_by` entries.
    pub open spec fn wf(&self) -> bool {
        &&& self.partition_by > 0
        &&& self.values@.len() == self.partition_by
    }

    /// The slot contents, one `Option<T>` per index.
    pub open spec fn view(&self) -> Seq<Option<T>> {
        self.values@
    }

    /// The slot that sequence `seq` maps to.
    pub open spec fn spec_index_of(&self, seq: u16) -> int {
        seq as int % self.partition_by as int
    }

    pub fn with_size(size: u16) -> (r: Self)
        requires
            size > 0,
        ensures
            r.wf(),
            r.partition_by == size,
            forall|j: int| 0 <= j < size ==> r@[j] is None,
    {
        let mut values: Vec<Option<T>> = Vec::new();
        let mut i: u16 = 0;
        while i < size
            invariant
                i <= size,
                values@.len() == i,
                forall|j: int| 0 <= j < i ==> values@[j] is None,
            decreases size - i,
        {
            values.push(None);
            i += 1;
        }
        SequenceBuffer { values, partition_by: size }
    }

    pub fn sequence_to_index(&self, sequence: u16) -> (r: usize)
        requires
            self.wf(),
        ensures
            r == self.spec_index_of(sequence),
            r < self.partition_by,
    {
        (sequence % self.partition_by) as usize
    }

    pub fn insert(&mut self, sequence: u16, value: T)
        requires
            old(self).wf(),
        ensures
            final(self).wf(),
            final(self).partition_by == old(self).partition_by,
            final(self)@ =~= old(self)@.update(old(self).spec_index_of(sequence), Some(value)),
    {
        let index = self.sequence_to_index(sequence);
        self.values[index] = Some(value);
    }

    pub fn remove(&mut self, sequence: u16)
        requires
            old(self).wf(),
        ensures
            final(self).wf(),
            final(self).partition_by == old(self).partition_by,
            final(self)@ =~= old(self)@.update(old(self).spec_index_of(sequence), None),
    {
        let index = self.sequence_to_index(sequence);
        self.values[index] = None;
    }

    pub fn remove_at_index(&mut self, index: usize)
        requires
            old(self).wf(),
            index < old(self).partition_by,
        ensures
            final(self).wf(),
            final(self).partition_by == old(self).partition_by,
            final(self)@ =~= old(self)@.update(index as int, None),
    {
        self.values[index] = None;
    }

    pub fn is_some(&self, sequence: u16) -> (r: bool)
        requires
            self.wf(),
        ensures
            r == self@[self.spec_index_of(sequence)] is Some,
    {
        let index = self.sequence_to_index(sequence);
        self.values[index].is_some()
    }

    pub fn is_none(&self, sequence: u16) -> (r: bool)
        requires
            self.wf(),
        ensures
            r == self@[self.spec_index_of(sequence)] is None,
    {
        let index = self.sequence_to_index(sequence);
        self.values[index].is_none()
    }

    pub fn take(&mut self, sequence: u16) -> (r: Option<T>)
        requires
            old(self).wf(),
        ensures
            final(self).wf(),
            final(self).partition_by == old(self).partition_by,
            r == old(self)@[old(self).spec_index_of(sequence)],
            final(self)@ =~= old(self)@.update(old(self).spec_index_of(sequence), None),
    {
        let index = self.sequence_to_index(sequence);
        self.values[index].take()
    }

    pub fn get(&self, sequence: u16) -> (r: Option<&T>)
        requires
            self.wf(),
        ensures
            match r {
                Some(v) => self@[self.spec_index_of(sequence)] == Some(*v),
                None => self@[self.spec_index_of(sequence)] is None,
            },
    {
        let index = self.sequence_to_index(sequence);
        match &self.values[index] {
            Some(value) => Some(value),
            None => None,
        }
    }

    pub fn get_at_index(&self, index: usize) -> (r: Option<&T>)
        requires
            self.wf(),
            index < self.partition_by,
        ensures
            match r {
                Some(v) => self@[index as int] == Some(*v),
                None => self@[index as int] is None,
            },
    {
        match &self.values[index] {
            Some(value) => Some(value),
            None => None,
        }
    }

    pub fn get_mut(&mut self, sequence: u16) -> (r: Option<&mut T>)
        requires
            old(self).wf(),
        ensures
            final(self).wf(),
            final(self).partition_by == old(self).partition_by,
            match r {
                Some(v) => old(self)@[old(self).spec_index_of(sequence)] == Some(*v)
                    && final(self)@ =~= old(self)@.update(
                    old(self).spec_index_of(sequence),
                    Some(*final(v)),
                ),
                None => old(self)@[old(self).spec_index_of(sequence)] is None && final(self)@
                    =~= old(self)@,
            },
    {
        let index = self.sequence_to_index(sequence);
        match &mut self.values[index] {
            Some(value) => Some(value),
            None => None,
        }
    }
}

} // verus!
