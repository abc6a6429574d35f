//! Gathering and folding: a summary for every region of the tree that has
//! leaves to summarise, computed from the leaves up.

use vstd::prelude::*;
use crate::interior::{interior, Interior};
use crate::linear::Linear;
use crate::morton::{Morton, MAX_LEVELS};
use crate::region::MortonRegion;
use crate::region_map::MortonRegionMap;

verus! {

/// A summary value that can be handed out twice: once to the caller and once
/// into the map of summaries.
pub trait Summary: Sized + View {
    /// A second summary that stands for the same as this one.
    fn duplicate(&self) -> (copy: Self)
        ensures
            copy@ == self@,
    ;
}

/// Turns one leaf into a summary.
pub trait Gatherer<T, M: Morton> {
    type Sum: Summary;

    /// The summary of the leaf that stores `item` at `morton`.
    spec fn gathered(&self, morton: M, item: T) -> <Self::Sum as View>::V;

    /// Summarises the leaf that stores `item` at `morton`.
    fn gather(&self, morton: M, item: &T) -> (sum: Self::Sum)
        ensures
            sum@ == self.gathered(morton, *item),
    ;
}

/// Combines the summaries of a region's children into the summary of the
/// region, or declines to give one.
pub trait Folder {
    type Sum: Summary;

    /// The summary made of `sums`, the summaries of those children that have
    /// one, in ascending order of octant; `None` where they make none.
    spec fn folded(&self, sums: Seq<<Self::Sum as View>::V>) -> Option<<Self::Sum as View>::V>;

    /// Combines the summaries of those children of a region that have one.
    fn sum(&self, sums: Vec<Self::Sum>) -> (total: Option<Self::Sum>)
        ensures
            summary_of(total) == self.folded(summaries_of(sums@)),
    ;
}

/// What an optional summary stands for.
pub open spec fn summary_of<S: View>(sum: Option<S>) -> Option<S::V> {
    match sum {
        Some(sum) => Some(sum@),
        None => None,
    }
}

/// What each summary of a sequence stands for.
pub open spec fn summaries_of<S: View>(sums: Seq<S>) -> Seq<S::V> {
    sums.map_values(|sum: S| sum@)
}

/// What each summary of a map stands for.
pub open spec fn summaries_in<S: View>(map: Map<Seq<nat>, S>) -> Map<Seq<nat>, S::V> {
    map.map_values(|sum: S| sum@)
}

/// The fold of the region `path` over a tree that stores `leaves`: the summary
/// of the region, if it has one, and the summaries of all regions visited.
///
/// A region recorded for one leaf has the summary gathered from that leaf. A
/// region recorded as empty has none and nothing is visited below it. Any other
/// region has what the folder makes of its children's summaries.
pub open spec fn fold_region<T, M: Morton, G: Gatherer<T, M>, F: Folder<Sum = G::Sum>>(
    leaves: Map<M, T>,
    path: Seq<nat>,
    gatherer: &G,
    folder: &F,
) -> (Option<<G::Sum as View>::V>, Map<Seq<nat>, <G::Sum as View>::V>)
    decreases M::levels() - path.len(), 9nat,
{
    match interior(leaves.dom(), path) {
        Interior::Collapsed(morton) => {
            let sum = gatherer.gathered(morton, leaves[morton]);
            (Some(sum), Map::empty().insert(path, sum))
        },
        Interior::Null => (None, Map::empty()),
        Interior::Absent => {
            let below = fold_children(leaves, path, 8, gatherer, folder);
            match folder.folded(below.0) {
                Some(sum) => (Some(sum), below.1.insert(path, sum)),
                None => (None, below.1),
            }
        },
    }
}

/// The folds of the first `count` children of the region `path`: the summaries
/// of those that have one, in ascending order of octant, and the summaries of
/// all regions visited. A region of full depth has no children.
pub open spec fn fold_children<T, M: Morton, G: Gatherer<T, M>, F: Folder<Sum = G::Sum>>(
    leaves: Map<M, T>,
    path: Seq<nat>,
    count: nat,
    gatherer: &G,
    folder: &F,
) -> (Seq<<G::Sum as View>::V>, Map<Seq<nat>, <G::Sum as View>::V>)
    decreases M::levels() - path.len(), count,
{
    if path.len() >= M::levels() || count == 0 {
        (Seq::empty(), Map::empty())
    } else {
        let before = fold_children(leaves, path, (count - 1) as nat, gatherer, folder);
        let child = fold_region(leaves, path.push((count - 1) as nat), gatherer, folder);
        (
            match child.0 {
                Some(sum) => before.0.push(sum),
                None => before.0,
            },
            before.1.union_prefer_right(child.1),
        )
    }
}

impl<T, M: Morton> Linear<T, M> {
    /// Folds the tree from `region` down and returns the summary of every
    /// region visited that has one.
    pub fn iter_gather_deep_linear_hashed_tree_fold<G, F>(
        &self,
        region: MortonRegion,
        gatherer: &G,
        folder: &F,
    ) -> (map: MortonRegionMap<G::Sum>) where G: Gatherer<T, M>, F: Folder<Sum = G::Sum>
        requires
            self.wf(),
        ensures
            summaries_in(map@) == fold_region(self@, region@, gatherer, folder).1,
    {
        let mut map = MortonRegionMap::new();
        self.iter_gather_deep_linear_hashed_tree_fold_map_adder(region, gatherer, folder, &mut map);
        map
    }

    /// Folds the tree from `region` down, adds the summary of every region
    /// visited that has one to `map`, and returns the summary of `region`.
    pub fn iter_gather_deep_linear_hashed_tree_fold_map_adder<G, F>(
        &self,
        region: MortonRegion,
        gatherer: &G,
        folder: &F,
        map: &mut MortonRegionMap<G::Sum>,
    ) -> (sum: Option<G::Sum>) where G: Gatherer<T, M>, F: Folder<Sum = G::Sum>
        requires
            self.wf(),
        ensures
            summary_of(sum) == fold_region(self@, region@, gatherer, folder).0,
            summaries_in(final(map)@) == summaries_in(old(map)@).union_prefer_right(
                fold_region(self@, region@, gatherer, folder).1,
            ),
        decreases M::levels() - region@.len(),
    {
        let ghost start = summaries_in(map@);
        match self.interior_state(region) {
            Interior::Collapsed(morton) => {
                let item = self.lookup_leaf(morton).unwrap();
                let sum = gatherer.gather(morton, item);
                map.insert(region, sum.duplicate());
                assert(summaries_in(map@) =~= start.union_prefer_right(
                    fold_region(self@, region@, gatherer, folder).1,
                ));
                Some(sum)
            },
            Interior::Null => {
                assert(summaries_in(map@) =~= start.union_prefer_right(
                    fold_region(self@, region@, gatherer, folder).1,
                ));
                None
            },
            Interior::Absent => {
                let mut sums: Vec<G::Sum> = Vec::new();
                let level: usize = region.level();
                let depth: usize = M::dim_bits();
                if level < depth {
                    let mut section: usize = 0;
                    assert(summaries_of(sums@) =~= fold_children(
                        self@,
                        region@,
                        0,
                        gatherer,
                        folder,
                    ).0);
                    assert(summaries_in(map@) =~= start.union_prefer_right(
                        fold_children(self@, region@, 0, gatherer, folder).1,
                    ));
                    while section < 8
                        invariant
                            self.wf(),
                            section <= 8,
                            level == region@.len(),
                            level < depth,
                            depth == M::levels(),
                            depth <= MAX_LEVELS,
                            summaries_of(sums@) == fold_children(
                                self@,
                                region@,
                                section as nat,
                                gatherer,
                                folder,
                            ).0,
                            summaries_in(map@) == start.union_prefer_right(
                                fold_children(self@, region@, section as nat, gatherer, folder).1,
                            ),
                        decreases 8 - section,
                    {
                        let child = region.enter(section);
                        match self.iter_gather_deep_linear_hashed_tree_fold_map_adder(
                            child,
                            gatherer,
                            folder,
                            map,
                        ) {
                            Some(sum) => {
                                sums.push(sum);
                            },
                            None => {},
                        }
                        section += 1;
                    }
                } else {
                    assert(summaries_of(sums@) =~= fold_children(
                        self@,
                        region@,
                        8,
                        gatherer,
                        folder,
                    ).0);
                    assert(summaries_in(map@) =~= start.union_prefer_right(
                        fold_children(self@, region@, 8, gatherer, folder).1,
                    ));
                }
                let ghost below = fold_children(self@, region@, 8, gatherer, folder);
                let ghost visited = summaries_in(map@);
                match folder.sum(sums) {
                    Some(sum) => {
                        map.insert(region, sum.duplicate());
                        assert(summaries_in(map@) =~= visited.insert(region@, sum@));
                        assert(fold_region(self@, region@, gatherer, folder).1 == below.1.insert(
                            region@,
                            sum@,
                        ));
                        assert(summaries_in(map@) =~= start.union_prefer_right(
                            fold_region(self@, region@, gatherer, folder).1,
                        ));
                        Some(sum)
                    },
                    None => None,
                }
            },
        }
    }
}

} // verus!
