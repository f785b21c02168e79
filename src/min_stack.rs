//! A stack over a vector, and a stack of integers that knows its minimum.
use vstd::prelude::*;

verus! {

pub struct Stack<T> {
    stack: Vec<T>,
}

impl<T> Stack<T> {
    /// The items, bottom first.
    pub closed spec fn view(&self) -> Seq<T> {
        self.stack@
    }

    pub fn new() -> (r: Self)
        ensures
            r@ == Seq::<T>::empty(),
    {
        Stack { stack: Vec::new() }
    }

    pub fn push(&mut self, value: T)
        ensures
            final(self)@ == old(self)@.push(value),
    {
        self.stack.push(value);
    }

    pub fn pop(&mut self) -> (r: Option<T>)
        ensures
            old(self)@.len() == 0 ==> r == None::<T> && final(self)@ == old(self)@,
            old(self)@.len() > 0 ==> r == Some(old(self)@.last()) && final(self)@ == old(self)@.drop_last(),
    {
        self.stack.pop()
    }

    pub fn top(&self) -> (r: Option<&T>)
        ensures
            self@.len() == 0 ==> r == None::<&T>,
            self@.len() > 0 ==> r == Some(&self@.last()),
    {
        if self.stack.len() == 0 {
            None
        } else {
            Some(&self.stack[self.stack.len() - 1])
        }
    }

    pub fn is_empty(&self) -> (r: bool)
        ensures
            r == (self@.len() == 0),
    {
        self.stack.len() == 0
    }
}

/// The least element of a non-empty sequence.
pub open spec fn seq_min(s: Seq<i32>) -> i32
    decreases s.len(),
{
    if s.len() <= 1 {
        s[0]
    } else {
        let m = seq_min(s.drop_last());
        if s.last() < m {
            s.last()
        } else {
            m
        }
    }
}

pub struct MinStack {
    stack: Stack<(i32, i32)>,
}

impl MinStack {
    /// The values pushed and not popped, bottom first.
    pub closed spec fn view(&self) -> Seq<i32> {
        self.stack@.map_values(|p: (i32, i32)| p.0)
    }

    /// Each pair holds beside its value the least value at or below it.
    pub closed spec fn wf(&self) -> bool {
        forall|i: int|
            0 <= i < self.stack@.len() ==> #[trigger] self.stack@[i].1 == seq_min(
                self@.subrange(0, i + 1),
            )
    }

    pub fn new() -> (r: Self)
        ensures
            r.wf(),
            r@ == Seq::<i32>::empty(),
    {
        MinStack { stack: Stack::new() }
    }

    pub fn push(&mut self, val: i32)
        requires
            old(self).wf(),
        ensures
            final(self).wf(),
            final(self)@ == old(self)@.push(val),
    {
        let ghost before = self@;
        let min = if self.stack.is_empty() {
            val
        } else {
            let m = self.get_min();
            if val < m {
                val
            } else {
                m
            }
        };
        self.stack.push((val, min));
        proof {
            let after = self@;
            assert(after =~= before.push(val));
            assert forall|i: int| 0 <= i < self.stack@.len() implies #[trigger] self.stack@[i].1 == seq_min(
                after.subrange(0, i + 1),
            ) by {
                if i < before.len() {
                    assert(after.subrange(0, i + 1) =~= before.subrange(0, i + 1));
                } else if before.len() > 0 {
                    assert(after.subrange(0, i + 1).drop_last() =~= before.subrange(0, before.len() as int));
                    assert(before.subrange(0, before.len() as int) =~= before);
                }
            }
        }
    }

    /// Removes the top value, if any.
    pub fn pop(&mut self)
        requires
            old(self).wf(),
        ensures
            final(self).wf(),
            final(self)@ == if old(self)@.len() == 0 {
                old(self)@
            } else {
                old(self)@.drop_last()
            },
    {
        let ghost before = self@;
        self.stack.pop();
        proof {
            if before.len() > 0 {
                assert(self@ =~= before.drop_last());
                assert forall|i: int| 0 <= i < self.stack@.len() implies #[trigger] self.stack@[i].1
                    == seq_min(self@.subrange(0, i + 1)) by {
                    assert(self@.subrange(0, i + 1) =~= before.subrange(0, i + 1));
                }
            }
        }
    }

    /// The top value, or -1 on an empty stack.
    pub fn top(&self) -> (r: i32)
        ensures
            r == if self@.len() == 0 {
                -1i32
            } else {
                self@.last()
            },
    {
        match self.stack.top() {
            Some(p) => p.0,
            None => -1,
        }
    }

    /// The least value on the stack, or -1 on an empty stack.
    pub fn get_min(&self) -> (r: i32)
        requires
            self.wf(),
        ensures
            r == if self@.len() == 0 {
                -1i32
            } else {
                seq_min(self@)
            },
    {
        match self.stack.top() {
            Some(p) => {
                proof {
                    let n = self.stack@.len() as int;
                    assert(self.stack@[n - 1].1 == seq_min(self@.subrange(0, n)));
                    assert(self@.subrange(0, n) =~= self@);
                }
                p.1
            },
            None => -1,
        }
    }
}

} // verus!
