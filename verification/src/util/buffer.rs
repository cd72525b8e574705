//! A fixed-size buffer that is always consumed in full.

use vstd::prelude::*;

verus! {

/// Largest number of items a buffer holds between two drains.
pub const BUFFER_CAPACITY: usize = 1000;

/// Bounded queue of pending items. Its view is the sequence of items pushed
/// since the last drain, oldest first.
pub struct Buffer<T: Default + Clone> {
    data: Vec<T>,
    tail: usize,
}

impl<T: Default + Clone> View for Buffer<T> {
    type V = Seq<T>;

    closed spec fn view(&self) -> Seq<T> {
        self.data@.subrange(0, self.tail as int)
    }
}

impl<T: Default + Clone> Buffer<T> {
    /// The store always has `BUFFER_CAPACITY` slots, of which the first
    /// `tail` are pending.
    #[verifier::type_invariant]
    closed spec fn slots_allocated(&self) -> bool {
        &&& self.data@.len() == BUFFER_CAPACITY
        &&& self.tail <= BUFFER_CAPACITY
    }

    /// An empty buffer.
    pub fn new() -> (buf: Self)
        ensures
            buf@ == Seq::<T>::empty(),
    {
        let mut data: Vec<T> = Vec::new();
        while data.len() < BUFFER_CAPACITY
            invariant
                data@.len() <= BUFFER_CAPACITY,
            decreases BUFFER_CAPACITY - data@.len(),
        {
            data.push(T::default());
        }
        let buf = Buffer { data, tail: 0 };
        assert(buf@ =~= Seq::<T>::empty());
        buf
    }

    /// Number of pending items.
    pub fn len(&self) -> (n: usize)
        ensures
            n == self@.len(),
            n <= BUFFER_CAPACITY,
    {
        proof {
            use_type_invariant(self);
        }
        self.tail
    }

    /// Appends `item`. The buffer must not be full.
    pub fn push(&mut self, item: T)
        requires
            old(self)@.len() < BUFFER_CAPACITY,
        ensures
            final(self)@ == old(self)@.push(item),
    {
        proof {
            use_type_invariant(&*self);
        }
        self.data[self.tail] = item;
        self.tail += 1;
        assert(self@ =~= old(self)@.push(item));
    }

    /// Forgets every pending item.
    fn clear(&mut self)
        ensures
            final(self)@ == Seq::<T>::empty(),
    {
        proof {
            use_type_invariant(&*self);
        }
        self.tail = 0;
        assert(self@ =~= Seq::<T>::empty());
    }

    /// Hands out a clone of every pending item, oldest first, and empties the
    /// buffer.
    pub fn items(&mut self) -> (out: Vec<T>)
        ensures
            out@.len() == old(self)@.len(),
            forall|i: int| 0 <= i < out@.len() ==> cloned::<T>(old(self)@[i], #[trigger] out@[i]),
            final(self)@ == Seq::<T>::empty(),
    {
        proof {
            use_type_invariant(&*self);
        }
        let mut out: Vec<T> = Vec::new();
        let mut idx: usize = 0;
        while idx < self.tail
            invariant
                self == old(self),
                self.data@.len() == BUFFER_CAPACITY,
                self.tail <= BUFFER_CAPACITY,
                idx <= self.tail,
                out@.len() == idx,
                forall|i: int| 0 <= i < idx ==> cloned::<T>(self.data@[i], #[trigger] out@[i]),
            decreases self.tail - idx,
        {
            out.push(self.data[idx].clone());
            idx += 1;
        }
        self.clear();
        out
    }
}

impl<T: Default + Clone> Default for Buffer<T> {
    fn default() -> (buf: Self)
        ensures
            buf@ == Seq::<T>::empty(),
    {
        Buffer::new()
    }
}

} // verus!
