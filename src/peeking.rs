//! An iterator over a vector that can look at its next item without taking it.
use vstd::prelude::*;

verus! {

pub struct PeekingIterator<T> {
    /// What is left, last item first.
    rest: Vec<T>,
}

impl<T> PeekingIterator<T> {
    /// The items not yet taken, in order.
    pub closed spec fn view(&self) -> Seq<T> {
        self.rest@.reverse()
    }

    pub fn new(items: Vec<T>) -> (r: Self)
        ensures
            r@ == items@,
    {
        let ghost all = items@;
        let mut items = items;
        let mut rest: Vec<T> = Vec::new();
        while items.len() > 0
            invariant
                all == items@ + rest@.reverse(),
            decreases items@.len(),
        {
            let ghost before = items@;
            let ghost r0 = rest@;
            match items.pop() {
                Some(x) => {
                    rest.push(x);
                    proof {
                        assert(rest@.reverse() =~= seq![x] + r0.reverse());
                        assert(before =~= items@.push(x));
                        assert(all =~= items@ + rest@.reverse());
                    }
                },
                None => {},
            }
        }
        assert(all =~= rest@.reverse());
        PeekingIterator { rest }
    }

    /// The next item, left in place.
    pub fn peek(&self) -> (r: Option<&T>)
        ensures
            self@.len() == 0 ==> r is None,
            self@.len() > 0 ==> r == Some(&self@[0]),
    {
        let n = self.rest.len();
        if n == 0 {
            None
        } else {
            Some(&self.rest[n - 1])
        }
    }

    /// Takes the next item.
    pub fn next(&mut self) -> (r: Option<T>)
        ensures
            old(self)@.len() == 0 ==> r is None && final(self)@ == old(self)@,
            old(self)@.len() > 0 ==> r == Some(old(self)@[0]) && final(self)@ == old(self)@.drop_first(),
    {
        let ghost before = self.rest@;
        let r = self.rest.pop();
        proof {
            if before.len() > 0 {
                assert(self@ =~= before.reverse().drop_first());
            }
        }
        r
    }

    pub fn has_next(&self) -> (r: bool)
        ensures
            r == (self@.len() > 0),
    {
        self.rest.len() > 0
    }
}

} // verus!
