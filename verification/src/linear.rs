//! The octree itself: a leaf store and an interior map, both flat.

use vstd::prelude::*;
use crate::interior::{
    crowded, fork, holds, interior, lemma_fork_below_parting, lemma_full_depth_holds_one,
    lemma_insert_claims, lemma_insert_outside, lemma_insert_splits,
    lemma_nothing_below_uncrowded, lemma_path_of_holds, recorded, within, Interior,
};
use crate::morton::{path_of, Morton, MAX_LEVELS};
use crate::region::MortonRegion;
use crate::region_map::MortonRegionMap;

verus! {

/// A sparse octree over the cube that the codes of `M` address, with a payload
/// of type `T` at each stored point.
///
/// The leaf store maps each code to its payload. The interior map records, for
/// the shallowest regions that tell the stored codes apart, either the one code
/// that lies there or the null code.
pub struct Linear<T, M: Morton> {
    leaves: MortonRegionMap<T>,
    internals: MortonRegionMap<M>,
}

impl<T, M: Morton> View for Linear<T, M> {
    type V = Map<M, T>;

    /// The leaf store: the payload of every code stored.
    closed spec fn view(&self) -> Map<M, T> {
        Map::new(
            |morton: M| morton.is_code() && self.leaves@.contains_key(path_of(morton, M::levels())),
            |morton: M| self.leaves@[path_of(morton, M::levels())],
        )
    }
}

/// Two codes with one full path are one code.
proof fn lemma_full_path_names_code<M: Morton>(a: M, b: M)
    requires
        a.is_code(),
        b.is_code(),
        path_of(a, M::levels()) == path_of(b, M::levels()),
    ensures
        a == b,
{
    lemma_full_depth_holds_one(path_of(a, M::levels()), a, b);
}

/// The leaf store after `pairs` are stored in `base` one after the other, each
/// payload replacing what its code held before.
pub open spec fn loaded<T, M>(base: Map<M, T>, pairs: Seq<(M, T)>) -> Map<M, T>
    decreases pairs.len(),
{
    if pairs.len() == 0 {
        base
    } else {
        loaded(base, pairs.drop_last()).insert(pairs.last().0, pairs.last().1)
    }
}

impl<T, M: Morton> Linear<T, M> {
    /// The interior map: the code, or the null code, held for each region that
    /// has an entry.
    pub closed spec fn records(&self) -> Map<Seq<nat>, M> {
        self.internals@
    }

    /// The interior map records exactly what the stored codes call for.
    pub open spec fn wf(&self) -> bool {
        forall|path: Seq<nat>| #[trigger]
            recorded(self.records(), path) == interior(self@.dom(), path)
    }

    /// Only codes are stored, never the null value.
    pub proof fn lemma_stores_codes(&self)
        ensures
            forall|morton: M| self@.contains_key(morton) ==> morton.is_code(),
    {
    }

    /// The tree stores finitely many codes.
    pub proof fn lemma_stores_finitely_many(&self)
        ensures
            self@.dom().finite(),
    {
        let paths = self.leaves@.dom();
        let code = |path: Seq<nat>|
            choose|morton: M| morton.is_code() && path_of(morton, M::levels()) == path;
        self.leaves.lemma_holds_finitely_many();
        paths.lemma_map_finite(code);
        assert forall|morton: M| self@.dom().contains(morton) implies paths.map(code).contains(
            morton,
        ) by {
            let path = path_of(morton, M::levels());
            lemma_full_path_names_code(code(path), morton);
            assert(paths.contains(path) && code(path) == morton);
        }
        vstd::set_lib::lemma_len_subset(self@.dom(), paths.map(code));
    }

    /// An empty tree: the root is recorded as empty.
    pub fn new() -> (tree: Self)
        ensures
            tree.wf(),
            tree@ == Map::<M, T>::empty(),
            tree.records() == Map::<Seq<nat>, M>::empty().insert(Seq::empty(), M::null_spec()),
    {
        Self::default()
    }

    /// The payload stored for `morton`, if there is one.
    pub fn lookup_leaf(&self, morton: M) -> (item: Option<&T>)
        ensures
            item == if self@.contains_key(morton) {
                Some(&self@[morton])
            } else {
                None::<&T>
            },
    {
        if !morton.is_valid() {
            return None;
        }
        let leaf = MortonRegion::containing(morton, M::dim_bits());
        self.leaves.get(&leaf)
    }

    /// What the tree records for `region`.
    pub fn interior_state(&self, region: MortonRegion) -> (state: Interior<M>)
        requires
            self.wf(),
        ensures
            state == recorded(self.records(), region@),
            state == interior(self@.dom(), region@),
    {
        match self.internals.get(&region) {
            None => Interior::Absent,
            Some(stored) => {
                if stored.is_null() {
                    Interior::Null
                } else {
                    Interior::Collapsed(*stored)
                }
            },
        }
    }

    /// Stores `item` at `morton`. A payload stored there before is replaced, and
    /// the interior map stays as it is; otherwise the interior map is refined
    /// just enough to tell the new code from the others.
    pub fn insert(&mut self, morton: M, item: T)
        requires
            old(self).wf(),
            morton.is_code(),
        ensures
            final(self).wf(),
            final(self)@ == old(self)@.insert(morton, item),
            old(self)@.contains_key(morton) ==> final(self).records() == old(self).records(),
    {
        let leaf = MortonRegion::containing(morton, M::dim_bits());
        proof {
            assert forall|other: M|
                other.is_code() && path_of(other, M::levels()) == leaf@ implies other
                == morton by {
                lemma_full_path_names_code(other, morton);
            }
        }
        let before = self.leaves.insert(leaf, item);
        if before.is_some() {
            return ;
        }
        Self::settle(&mut self.internals, morton, Ghost(old(self)@.dom()));
    }

    /// Stores every pair of `items`, in order, as `insert` would.
    pub fn extend(&mut self, items: Vec<(M, T)>)
        requires
            old(self).wf(),
            forall|i: int| 0 <= i < items.len() ==> (#[trigger] items[i]).0.is_code(),
        ensures
            final(self).wf(),
            final(self)@ == loaded(old(self)@, items@),
    {
        let ghost pairs = items@;
        for pair in iter: items
            invariant
                self.wf(),
                iter.seq() == pairs,
                forall|i: int| 0 <= i < pairs.len() ==> (#[trigger] pairs[i]).0.is_code(),
                self@ == loaded(old(self)@, pairs.take(iter.index() as int)),
        {
            let ghost done = iter.index() as int;
            assert(pairs.take(done + 1).drop_last() =~= pairs.take(done));
            let (morton, item) = pair;
            self.insert(morton, item);
        }
        assert(pairs.take(pairs.len() as int) =~= pairs);
    }

    /// Refines the interior map of a tree that stores `codes` so that it is the
    /// interior map of a tree that stores `morton` as well.
    fn settle(internals: &mut MortonRegionMap<M>, morton: M, Ghost(codes): Ghost<Set<M>>)
        requires
            morton.is_code(),
            !codes.contains(morton),
            forall|other: M| codes.contains(other) ==> other.is_code(),
            forall|path: Seq<nat>| #[trigger]
                recorded(old(internals)@, path) == interior(codes, path),
        ensures
            forall|path: Seq<nat>| #[trigger]
                recorded(final(internals)@, path) == interior(codes.insert(morton), path),
    {
        let depth: usize = M::dim_bits();
        let mut region = MortonRegion::default();
        let mut level: usize = 0;
        loop
            invariant
                depth == M::levels(),
                depth <= MAX_LEVELS,
                level <= depth,
                region@ == path_of(morton, level as nat),
                *internals == *old(internals),
                morton.is_code(),
                !codes.contains(morton),
                forall|other: M| codes.contains(other) ==> other.is_code(),
                forall|path: Seq<nat>| #[trigger]
                    recorded(old(internals)@, path) == interior(codes, path),
                forall|above: nat|
                    above < level ==> crowded(codes, #[trigger] path_of(morton, above)),
            decreases depth - level,
        {
            let ghost here = region@;
            proof {
                lemma_path_of_holds(morton, level as nat);
                assert(recorded(internals@, here) == interior(codes, here));
                if level > 0 {
                    assert(here.drop_last() =~= path_of(morton, (level - 1) as nat));
                }
            }
            let found: Option<M> = match internals.get(&region) {
                Some(stored) => Some(*stored),
                None => None,
            };
            match found {
                Some(stored) => {
                    if stored.is_null() {
                        internals.insert(region, morton);
                        proof {
                            M::lemma_null_is_no_code();
                            assert forall|path: Seq<nat>| #[trigger]
                                recorded(internals@, path) == interior(
                                    codes.insert(morton),
                                    path,
                                ) by {
                                assert(recorded(old(internals)@, path) == interior(codes, path));
                                if within(path, here) {
                                    lemma_insert_claims(codes, morton, level as nat, path);
                                } else {
                                    lemma_insert_outside(codes, morton, level as nat, path);
                                }
                            }
                        }
                    } else {
                        internals.remove(&region);
                        proof {
                            assert(codes.contains(stored) && holds(here, stored));
                            assert forall|path: Seq<nat>| within(path, here) implies recorded(
                                internals@,
                                path,
                            ) is Absent by {
                                assert(recorded(old(internals)@, path) == interior(codes, path));
                                if path != here {
                                    lemma_nothing_below_uncrowded(codes, here, path);
                                }
                            }
                        }
                        let ghost pruned = internals@;
                        Self::split(internals, region, stored, morton);
                        proof {
                            assert forall|path: Seq<nat>| #[trigger]
                                recorded(internals@, path) == interior(
                                    codes.insert(morton),
                                    path,
                                ) by {
                                assert(recorded(pruned, path) == recorded(old(internals)@, path)
                                    || path == here);
                                if within(path, here) {
                                    lemma_insert_splits(codes, stored, morton, here, path);
                                } else {
                                    lemma_insert_outside(codes, morton, level as nat, path);
                                }
                            }
                        }
                    }
                    return ;
                },
                None => {
                    proof {
                        if level == depth {
                            let (a, b) = choose|a: M, b: M|
                                #![trigger holds(here, a), holds(here, b)]
                                codes.contains(a) && codes.contains(b) && a != b && holds(here, a)
                                    && holds(here, b);
                            lemma_full_depth_holds_one(here, a, b);
                        }
                    }
                    let section: usize = morton.get_level(level);
                    region = region.enter(section);
                    level += 1;
                },
            }
        }
    }

    /// Turns the region `start`, at and under which nothing is recorded, into the
    /// tree of the two codes `leaf` and `morton`, which both lie in it.
    fn split(internals: &mut MortonRegionMap<M>, start: MortonRegion, leaf: M, morton: M)
        requires
            leaf.is_code(),
            morton.is_code(),
            leaf != morton,
            holds(start@, leaf),
            holds(start@, morton),
            forall|path: Seq<nat>|
                within(path, start@) ==> #[trigger] recorded(old(internals)@, path) is Absent,
        ensures
            forall|path: Seq<nat>| #[trigger]
                recorded(final(internals)@, path) == if within(path, start@) {
                    fork(leaf, morton, path)
                } else {
                    recorded(old(internals)@, path)
                },
    {
        let depth: usize = M::dim_bits();
        let ghost top = start@;
        let mut region = start;
        loop
            invariant
                depth == M::levels(),
                depth <= MAX_LEVELS,
                top == start@,
                within(region@, top),
                holds(region@, leaf),
                holds(region@, morton),
                leaf.is_code(),
                morton.is_code(),
                leaf != morton,
                forall|path: Seq<nat>| #[trigger]
                    recorded(internals@, path) == if within(path, region@) {
                        Interior::Absent
                    } else if within(path, top) {
                        fork(leaf, morton, path)
                    } else {
                        recorded(old(internals)@, path)
                    },
            decreases M::levels() - region@.len(),
        {
            let level: usize = region.level();
            let ghost here = region@;
            let ghost before = internals@;
            proof {
                if level == depth {
                    lemma_full_depth_holds_one(here, leaf, morton);
                }
                assert forall|path: Seq<nat>|
                    path.len() == here.len() + 1 && within(path, here) implies #[trigger] recorded(
                    before,
                    path,
                ) is Absent by {}
            }
            let parted: bool = Self::part(internals, region, leaf, morton);
            if parted {
                proof {
                    assert forall|path: Seq<nat>| #[trigger]
                        recorded(internals@, path) == if within(path, top) {
                            fork(leaf, morton, path)
                        } else {
                            recorded(old(internals)@, path)
                        } by {
                        lemma_split_step(before, internals@, leaf, morton, here, path);
                    }
                }
                return ;
            }
            let section: usize = leaf.get_level(level);
            region = region.enter(section);
            proof {
                assert(within(region@, here));
                assert forall|path: Seq<nat>| #[trigger]
                    recorded(internals@, path) == if within(path, region@) {
                        Interior::Absent
                    } else if within(path, top) {
                        fork(leaf, morton, path)
                    } else {
                        recorded(old(internals)@, path)
                    } by {
                    lemma_split_step(before, internals@, leaf, morton, here, path);
                    if within(path, region@) && path.len() == region@.len() {
                        assert(path =~= region@);
                    }
                }
            }
        }
    }

    /// Records the eight children of `region`, in which `leaf` and `morton`
    /// both lie: each code in its own octant and the null code in the others
    /// if the two part here, and the null code in all octants but theirs if
    /// they go down together. Says whether they part.
    fn part(internals: &mut MortonRegionMap<M>, region: MortonRegion, leaf: M, morton: M) -> (parted:
        bool)
        requires
            leaf.is_code(),
            morton.is_code(),
            region@.len() < M::levels(),
            holds(region@, leaf),
            holds(region@, morton),
            forall|path: Seq<nat>|
                path.len() == region@.len() + 1 && within(path, region@) ==> #[trigger] recorded(
                    old(internals)@,
                    path,
                ) is Absent,
        ensures
            parted == (leaf.digit(region@.len()) != morton.digit(region@.len())),
            forall|path: Seq<nat>| #[trigger]
                recorded(final(internals)@, path) == if path.len() == region@.len() + 1 && within(
                    path,
                    region@,
                ) {
                    fork(leaf, morton, path)
                } else {
                    recorded(old(internals)@, path)
                },
    {
        let level: usize = region.level();
        let ghost here = region@;
        let leaf_section: usize = leaf.get_level(level);
        let morton_section: usize = morton.get_level(level);
        proof {
            M::lemma_depth_fits();
            M::lemma_null_is_no_code();
        }
        let mut section: usize = 0;
        while section < 8
            invariant
                section <= 8,
                here == region@,
                here.len() == level,
                level < M::levels(),
                M::levels() <= MAX_LEVELS,
                holds(here, leaf),
                holds(here, morton),
                leaf != M::null_spec(),
                morton != M::null_spec(),
                leaf_section == leaf.digit(level as nat),
                morton_section == morton.digit(level as nat),
                forall|path: Seq<nat>|
                    path.len() == here.len() + 1 && within(path, here) ==> #[trigger] recorded(
                        old(internals)@,
                        path,
                    ) is Absent,
                forall|path: Seq<nat>| #[trigger]
                    recorded(internals@, path) == if path.len() == here.len() + 1 && within(
                        path,
                        here,
                    ) && path[level as int] < section {
                        fork(leaf, morton, path)
                    } else {
                        recorded(old(internals)@, path)
                    },
            decreases 8 - section,
        {
            let child = region.enter(section);
            let ghost before = internals@;
            if section == leaf_section {
                if section != morton_section {
                    internals.insert(child, leaf);
                }
            } else if section == morton_section {
                internals.insert(child, morton);
            } else {
                internals.insert(child, M::null());
            }
            proof {
                assert forall|path: Seq<nat>| #[trigger]
                    recorded(internals@, path) == if path.len() == here.len() + 1 && within(
                        path,
                        here,
                    ) && path[level as int] < section + 1 {
                        fork(leaf, morton, path)
                    } else {
                        recorded(old(internals)@, path)
                    } by {
                    assert(recorded(before, path) == if path.len() == here.len() + 1 && within(
                        path,
                        here,
                    ) && path[level as int] < section {
                        fork(leaf, morton, path)
                    } else {
                        recorded(old(internals)@, path)
                    });
                    if path.len() == here.len() + 1 && within(path, here) && path[level as int]
                        == section {
                        assert(path =~= child@);
                    }
                }
            }
            section += 1;
        }
        proof {
            assert forall|path: Seq<nat>| #[trigger]
                recorded(internals@, path) == if path.len() == here.len() + 1 && within(
                    path,
                    here,
                ) {
                    fork(leaf, morton, path)
                } else {
                    recorded(old(internals)@, path)
                } by {}
        }
        leaf_section != morton_section
    }
}

/// One round of a split: once the children of `here` are recorded, everything
/// at or below `here` is as in the tree of the two codes, except below the
/// child that both codes share, where nothing is recorded.
proof fn lemma_split_step<M: Morton>(
    before: Map<Seq<nat>, M>,
    after: Map<Seq<nat>, M>,
    leaf: M,
    morton: M,
    here: Seq<nat>,
    path: Seq<nat>,
)
    requires
        holds(here, leaf),
        holds(here, morton),
        here.len() < M::levels(),
        within(path, here) ==> recorded(before, path) is Absent,
        recorded(after, path) == if path.len() == here.len() + 1 && within(path, here) {
            fork(leaf, morton, path)
        } else {
            recorded(before, path)
        },
    ensures
        !within(path, here) ==> recorded(after, path) == recorded(before, path),
        within(path, here) && !(path.len() >= here.len() + 2 && path[here.len() as int]
            == leaf.digit(here.len()) && path[here.len() as int] == morton.digit(here.len()))
            ==> recorded(after, path) == fork(leaf, morton, path),
        within(path, here) && path.len() >= here.len() + 2 ==> recorded(after, path) is Absent,
{
    if within(path, here) {
        if path.len() == here.len() {
            assert(path =~= here);
        } else if path.len() >= here.len() + 2 {
            if !(path[here.len() as int] == leaf.digit(here.len()) && path[here.len() as int]
                == morton.digit(here.len())) {
                lemma_fork_below_parting(leaf, morton, path, here.len());
            }
        }
    }
}

impl<T: Clone, M: Morton> Clone for Linear<T, M> {
    /// A second tree with the same leaves and the same interior map.
    fn clone(&self) -> (copy: Self)
        ensures
            copy@ == self@,
            copy.records() == self.records(),
    {
        Linear { leaves: self.leaves.clone(), internals: self.internals.clone() }
    }
}

impl<T, M: Morton> Default for Linear<T, M> {
    /// An empty tree: the root is recorded as empty.
    fn default() -> (tree: Self)
        ensures
            tree.wf(),
            tree@ == Map::<M, T>::empty(),
            tree.records() == Map::<Seq<nat>, M>::empty().insert(Seq::empty(), M::null_spec()),
    {
        let mut internals = MortonRegionMap::new();
        internals.insert(MortonRegion::default(), M::null());
        let tree = Linear { leaves: MortonRegionMap::new(), internals };
        proof {
            assert forall|path: Seq<nat>| #[trigger]
                recorded(tree.records(), path) == interior(tree@.dom(), path) by {
                if path.len() == 0 {
                    assert(path =~= Seq::<nat>::empty());
                }
            }
        }
        tree
    }
}

} // verus!
