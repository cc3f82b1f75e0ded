//! A last-in-first-out buffer over a fixed maximum capacity, exposing
//! push/pop/top with explicit `Full`/`Empty` failure results.
use vstd::prelude::*;

verus! {

/// The two failure conditions of a bounded stack: a push onto a full
/// stack reports `Full`, a pop or peek on an empty stack reports `Empty`.
#[derive(Debug, PartialEq, Eq, Structural)]
pub enum Fail {
    Full,
    Empty,
}

/// A stack holding at most `capacity` elements; the capacity is fixed at
/// construction and never changes.
pub struct Stack<T> {
    capacity: usize,
    array: Vec<T>,
}

impl<T> Stack<T> {
    /// Abstraction: the stack contents as a sequence, bottom first.
    pub closed spec fn seq(&self) -> Seq<T> {
        self.array@
    }

    /// The fixed maximum number of elements.
    pub closed spec fn cap(&self) -> nat {
        self.capacity as nat
    }

    /// Invariant: the logical size never exceeds the capacity.
    pub open spec fn wf(&self) -> bool {
        self.seq().len() <= self.cap()
    }

    /// Allocates an empty stack that can hold at most `capacity` elements.
    pub fn new(capacity: usize) -> (s: Stack<T>)
        ensures
            s.wf(),
            s.seq() == Seq::<T>::empty(),
            s.cap() == capacity,
    {
        Stack { capacity, array: Vec::with_capacity(capacity) }
    }

    /// True exactly when the stack holds `capacity` elements.
    pub fn is_full(&self) -> (b: bool)
        ensures
            b == (self.seq().len() == self.cap()),
    {
        self.array.len() == self.capacity
    }

    /// True exactly when the stack holds no element.
    pub fn is_empty(&self) -> (b: bool)
        ensures
            b == (self.seq().len() == 0),
    {
        self.array.len() == 0
    }

    /// Appends `item` as the new top unless the stack is full, in which
    /// case it fails with `Full` and leaves the stack unchanged.
    pub fn push(&mut self, item: T) -> (r: Result<(), Fail>)
        requires
            old(self).wf(),
        ensures
            final(self).wf(),
            final(self).cap() == old(self).cap(),
            old(self).seq().len() == old(self).cap() ==> r == Err::<(), Fail>(Fail::Full)
                && final(self).seq() == old(self).seq(),
            old(self).seq().len() < old(self).cap() ==> r == Ok::<(), Fail>(())
                && final(self).seq() == old(self).seq().push(item),
    {
        if self.is_full() {
            return Err(Fail::Full);
        }
        self.array.push(item);
        Ok(())
    }

    /// Removes and discards the top element, failing with `Empty` (and
    /// leaving the stack unchanged) when there is none.
    pub fn pop(&mut self) -> (r: Result<(), Fail>)
        requires
            old(self).wf(),
        ensures
            final(self).wf(),
            final(self).cap() == old(self).cap(),
            old(self).seq().len() == 0 ==> r == Err::<(), Fail>(Fail::Empty)
                && final(self).seq() == old(self).seq(),
            old(self).seq().len() > 0 ==> r == Ok::<(), Fail>(())
                && final(self).seq() == old(self).seq().drop_last(),
    {
        if self.is_empty() {
            return Err(Fail::Empty);
        }
        self.array.pop();
        Ok(())
    }

    /// Returns a reference to the top element without removing it,
    /// failing with `Empty` on an empty stack.
    pub fn top(&self) -> (r: Result<&T, Fail>)
        ensures
            self.seq().len() == 0 ==> r == Err::<&T, Fail>(Fail::Empty),
            self.seq().len() > 0 ==> (r matches Ok(t) && *t == self.seq().last()),
    {
        if self.array.len() == 0 {
            return Err(Fail::Empty);
        }
        Ok(&self.array[self.array.len() - 1])
    }

    /// Bulk constructor: pushes `items` in order onto a fresh stack of the
    /// given capacity, which must be large enough to hold them all.
    pub fn from(items: Vec<T>, capacity: usize) -> (s: Stack<T>)
        requires
            items@.len() <= capacity,
        ensures
            s.wf(),
            s.seq() == items@,
            s.cap() == capacity,
    {
        let ghost all = items@;
        let mut items = items;
        let mut st = Stack::new(capacity);
        while items.len() > 0
            invariant
                st.wf(),
                st.cap() == capacity,
                st.seq() + items@ == all,
                all.len() <= capacity,
            decreases items@.len(),
        {
            let e = items.remove(0);
            st.push(e).unwrap();
        }
        proof {
            assert(st.seq() =~= all);
        }
        st
    }
}

} // verus!
