//! A running collection of integers kept in sorted order, from which the
//! middle of the data seen so far is read.
use vstd::prelude::*;

verus! {

pub open spec fn sorted(s: Seq<i32>) -> bool {
    forall|i: int, j: int| 0 <= i <= j < s.len() ==> s[i] <= s[j]
}

pub struct MedianFinder {
    nums: Vec<i32>,
}

impl MedianFinder {
    /// The numbers added so far, in ascending order.
    pub closed spec fn view(&self) -> Seq<i32> {
        self.nums@
    }

    pub closed spec fn wf(&self) -> bool {
        sorted(self.nums@)
    }

    pub fn new() -> (r: Self)
        ensures
            r.wf(),
            r@ == Seq::<i32>::empty(),
    {
        MedianFinder { nums: Vec::new() }
    }

    /// Adds `num`, keeping the numbers sorted.
    pub fn add_num(&mut self, num: i32)
        requires
            old(self).wf(),
            old(self)@.len() < usize::MAX,
        ensures
            final(self).wf(),
            exists|pos: int| 0 <= pos <= old(self)@.len() && final(self)@ == old(self)@.insert(pos, num),
    {
        let mut lo: usize = 0;
        let mut hi: usize = self.nums.len();
        while lo < hi
            invariant
                self.wf(),
                lo <= hi <= self.nums@.len(),
                forall|i: int| 0 <= i < lo ==> self.nums@[i] < num,
                forall|i: int| hi <= i < self.nums@.len() ==> self.nums@[i] >= num,
            decreases hi - lo,
        {
            let mid = lo + (hi - lo) / 2;
            if self.nums[mid] < num {
                lo = mid + 1;
            } else {
                hi = mid;
            }
        }
        let ghost before = self.nums@;
        self.nums.insert(lo, num);
        proof {
            let after = self.nums@;
            assert forall|i: int, j: int| 0 <= i <= j < after.len() implies after[i] <= after[j] by {
                let i0 = if i < lo { i } else { i - 1 };
                let j0 = if j < lo { j } else { j - 1 };
                if i != lo as int && j != lo as int {
                    assert(after[i] == before[i0] && after[j] == before[j0]);
                } else if i == lo as int && j != lo as int {
                    assert(after[j] == before[j0]);
                } else if i != lo as int {
                    assert(after[i] == before[i0]);
                }
            }
        }
    }

    /// The two middle numbers, lower first: the same one twice for an odd
    /// count, nothing when empty. The median is their mean.
    pub fn middle(&self) -> (r: Option<(i32, i32)>)
        ensures
            self@.len() == 0 ==> r is None,
            self@.len() > 0 && self@.len() % 2 == 1 ==> r == Some(
                (self@[(self@.len() / 2) as int], self@[(self@.len() / 2) as int]),
            ),
            self@.len() > 0 && self@.len() % 2 == 0 ==> r == Some(
                (self@[(self@.len() / 2) as int - 1], self@[(self@.len() / 2) as int]),
            ),
    {
        let len = self.nums.len();
        if len == 0 {
            None
        } else if len % 2 == 0 {
            Some((self.nums[len / 2 - 1], self.nums[len / 2]))
        } else {
            Some((self.nums[len / 2], self.nums[len / 2]))
        }
    }
}

} // verus!
