//! Ready-made gatherers and folders.

use core::marker::PhantomData;
use vstd::prelude::*;
use crate::gather::{summaries_of, Folder, Gatherer, Summary};
use crate::morton::Morton;

verus! {

impl Summary for u64 {
    fn duplicate(&self) -> (copy: Self) {
        *self
    }
}

impl<T: Copy, M: Morton> Summary for Vec<(M, T)> {
    fn duplicate(&self) -> (copy: Self) {
        let mut copy: Vec<(M, T)> = Vec::new();
        let mut i: usize = 0;
        while i < self.len()
            invariant
                i <= self.len(),
                copy@ == self@.take(i as int),
            decreases self.len() - i,
        {
            copy.push(self[i]);
            i += 1;
        }
        assert(copy@ =~= self@);
        copy
    }
}

/// The sum of a sequence of counts.
pub open spec fn total(counts: Seq<u64>) -> nat
    decreases counts.len(),
{
    if counts.len() == 0 {
        0
    } else {
        total(counts.drop_last()) + (counts.last() as nat)
    }
}

/// Counts the leaves of each region. A count that would pass `u64::MAX` stays
/// there.
pub struct LeafCount;

impl<T, M: Morton> Gatherer<T, M> for LeafCount {
    type Sum = u64;

    /// One leaf counts one.
    open spec fn gathered(&self, morton: M, item: T) -> u64 {
        1
    }

    fn gather(&self, morton: M, item: &T) -> (sum: u64) {
        1
    }
}

impl Folder for LeafCount {
    type Sum = u64;

    /// The children's counts added up; none where no child has a count.
    open spec fn folded(&self, sums: Seq<u64>) -> Option<u64> {
        if sums.len() == 0 {
            None
        } else if total(sums) > u64::MAX {
            Some(u64::MAX)
        } else {
            Some(total(sums) as u64)
        }
    }

    fn sum(&self, sums: Vec<u64>) -> (count: Option<u64>) {
        assert(summaries_of(sums@) =~= sums@);
        if sums.len() == 0 {
            return None;
        }
        let mut count: u64 = 0;
        let mut i: usize = 0;
        while i < sums.len()
            invariant
                i <= sums.len(),
                count == if total(sums@.take(i as int)) > u64::MAX {
                    u64::MAX as nat
                } else {
                    total(sums@.take(i as int))
                },
            decreases sums.len() - i,
        {
            let more: u64 = sums[i];
            assert(sums@.take(i + 1).drop_last() =~= sums@.take(i as int));
            count = if count > u64::MAX - more {
                u64::MAX
            } else {
                count + more
            };
            i += 1;
        }
        assert(sums@.take(i as int) =~= sums@);
        Some(count)
    }
}

/// All of `lists`, one after the other.
pub open spec fn concat<E>(lists: Seq<Seq<E>>) -> Seq<E>
    decreases lists.len(),
{
    if lists.len() == 0 {
        Seq::empty()
    } else {
        concat(lists.drop_last()) + lists.last()
    }
}

/// Collects the leaves of each region: every code with its payload, in
/// ascending order of octant at each level.
pub struct Collect<T, M>(pub PhantomData<(T, M)>);

impl<T: Copy, M: Morton> Gatherer<T, M> for Collect<T, M> {
    type Sum = Vec<(M, T)>;

    /// The leaf itself, alone.
    open spec fn gathered(&self, morton: M, item: T) -> Seq<(M, T)> {
        seq![(morton, item)]
    }

    fn gather(&self, morton: M, item: &T) -> (sum: Vec<(M, T)>) {
        let mut sum: Vec<(M, T)> = Vec::new();
        sum.push((morton, *item));
        sum
    }
}

impl<T: Copy, M: Morton> Folder for Collect<T, M> {
    type Sum = Vec<(M, T)>;

    /// The children's leaves, one child after the other; none where no child
    /// has a summary.
    open spec fn folded(&self, sums: Seq<Seq<(M, T)>>) -> Option<Seq<(M, T)>> {
        if sums.len() == 0 {
            None
        } else {
            Some(concat(sums))
        }
    }

    fn sum(&self, sums: Vec<Vec<(M, T)>>) -> (all: Option<Vec<(M, T)>>) {
        if sums.len() == 0 {
            return None;
        }
        let ghost lists = summaries_of(sums@);
        let mut all: Vec<(M, T)> = Vec::new();
        let mut i: usize = 0;
        while i < sums.len()
            invariant
                i <= sums.len(),
                lists == summaries_of(sums@),
                all@ == concat(lists.take(i as int)),
            decreases sums.len() - i,
        {
            let list = &sums[i];
            let ghost before = all@;
            let mut j: usize = 0;
            while j < list.len()
                invariant
                    j <= list.len(),
                    all@ == before + list@.take(j as int),
                decreases list.len() - j,
            {
                all.push(list[j]);
                j += 1;
            }
            assert(lists.take(i + 1).drop_last() =~= lists.take(i as int));
            i += 1;
        }
        assert(lists.take(i as int) =~= lists);
        Some(all)
    }
}

} // verus!
