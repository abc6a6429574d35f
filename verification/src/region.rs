//! Regions: the nodes of the octree, each named by the octant digits met on the
//! way down from the root.

use vstd::prelude::*;
use crate::morton::{Morton, MAX_LEVELS, path_of};

verus! {

/// Whether `path` can name a region: no deeper than any tree goes, and every
/// digit an octant.
pub open spec fn is_path(path: Seq<nat>) -> bool {
    &&& path.len() <= MAX_LEVELS
    &&& forall|i: int| 0 <= i < path.len() ==> #[trigger] path[i] < 8
}

/// The number under which a region is filed: a one, then the digits of its
/// path, read in base eight.
pub open spec fn path_key(path: Seq<nat>) -> nat
    decreases path.len(),
{
    if path.len() == 0 {
        1
    } else {
        8 * path_key(path.drop_last()) + path.last()
    }
}

/// The path that a key spells when its base-eight digits below the leading one
/// are read off.
pub open spec fn key_path(key: nat) -> Seq<nat>
    decreases key,
{
    if key <= 1 {
        Seq::empty()
    } else {
        key_path(key / 8).push(key % 8)
    }
}

/// Eight to the power `depth`: the key of the first region of that depth.
pub open spec fn key_floor(depth: nat) -> nat
    decreases depth,
{
    if depth == 0 {
        1
    } else {
        8 * key_floor((depth - 1) as nat)
    }
}

/// Reading a path back from its key gives the path.
pub proof fn lemma_key_path_of_path_key(path: Seq<nat>)
    requires
        forall|i: int| 0 <= i < path.len() ==> #[trigger] path[i] < 8,
    ensures
        path_key(path) >= 1,
        key_path(path_key(path)) == path,
    decreases path.len(),
{
    if path.len() > 0 {
        lemma_key_path_of_path_key(path.drop_last());
    }
}

/// Two paths filed under one key are one path.
pub proof fn lemma_path_key_injective(a: Seq<nat>, b: Seq<nat>)
    requires
        forall|i: int| 0 <= i < a.len() ==> #[trigger] a[i] < 8,
        forall|i: int| 0 <= i < b.len() ==> #[trigger] b[i] < 8,
        path_key(a) == path_key(b),
    ensures
        a == b,
{
    lemma_key_path_of_path_key(a);
    lemma_key_path_of_path_key(b);
}

/// The keys of one depth lie between that depth's floor and twice the floor.
pub proof fn lemma_path_key_range(path: Seq<nat>)
    requires
        forall|i: int| 0 <= i < path.len() ==> #[trigger] path[i] < 8,
    ensures
        key_floor(path.len()) <= path_key(path) < 2 * key_floor(path.len()),
    decreases path.len(),
{
    if path.len() > 0 {
        lemma_path_key_range(path.drop_last());
    }
}

proof fn lemma_key_floor_grows(a: nat, b: nat)
    requires
        a <= b,
    ensures
        key_floor(a) <= key_floor(b),
    decreases b,
{
    if a < b {
        lemma_key_floor_grows(a, (b - 1) as nat);
    }
}

proof fn lemma_key_floor_bottom()
    ensures
        key_floor(MAX_LEVELS as nat) == 0x4000_0000_0000_0000_0000_0000_0000_0000,
{
    reveal_with_fuel(key_floor, 8);
    assert(key_floor(7) == 0x20_0000);
    assert(key_floor(14) == 0x400_0000_0000);
    assert(key_floor(21) == 0x8000_0000_0000_0000);
    assert(key_floor(28) == 0x10_0000_0000_0000_0000_0000);
    assert(key_floor(35) == 0x200_0000_0000_0000_0000_0000_0000);
}

/// The key of every path fits in a `u128`, with room for one more digit below
/// the deepest level.
pub proof fn lemma_path_key_fits(path: Seq<nat>)
    requires
        is_path(path),
    ensures
        1 <= path_key(path) < 0x8000_0000_0000_0000_0000_0000_0000_0000,
        path.len() < MAX_LEVELS ==> 8 * path_key(path) + 7
            < 0x8000_0000_0000_0000_0000_0000_0000_0000,
{
    lemma_path_key_range(path);
    lemma_key_floor_bottom();
    if path.len() < MAX_LEVELS {
        lemma_key_floor_grows(path.len() + 1, MAX_LEVELS as nat);
    }
}

/// A node of the octree: the cube reached from the root by descending into one
/// octant per level.
#[derive(Clone, Copy, Debug, PartialEq, Eq)]
pub struct MortonRegion {
    key: u128,
    level: usize,
}

impl View for MortonRegion {
    type V = Seq<nat>;

    /// The octant digits from the root down to this region.
    closed spec fn view(&self) -> Seq<nat> {
        key_path(self.key as nat)
    }
}

impl MortonRegion {
    #[verifier::type_invariant]
    spec fn inv(self) -> bool {
        &&& is_path(self@)
        &&& path_key(self@) == self.key
        &&& self@.len() == self.level
    }

    /// How many levels below the root the region lies.
    pub fn level(&self) -> (level: usize)
        ensures
            level == self@.len(),
            is_path(self@),
    {
        proof {
            use_type_invariant(self);
        }
        self.level
    }

    /// The number under which the region is filed.
    pub(crate) fn key(&self) -> (key: u128)
        ensures
            key == path_key(self@),
            is_path(self@),
    {
        proof {
            use_type_invariant(self);
        }
        self.key
    }

    /// The child region in octant `section`.
    pub fn enter(self, section: usize) -> (child: Self)
        requires
            section < 8,
            self@.len() < MAX_LEVELS,
        ensures
            child@ == self@.push(section as nat),
            is_path(child@),
    {
        proof {
            use_type_invariant(self);
            lemma_path_key_fits(self@);
            assert(self@.push(section as nat).drop_last() =~= self@);
        }
        MortonRegion { key: self.key * 8 + (section as u128), level: self.level + 1 }
    }

    /// The region of depth `level` in which `morton` lies.
    pub fn containing<M: Morton>(morton: M, level: usize) -> (region: Self)
        requires
            level <= M::levels(),
        ensures
            region@ == path_of(morton, level as nat),
    {
        let depth: usize = M::dim_bits();
        let mut region = MortonRegion::default();
        let mut i: usize = 0;
        while i < level
            invariant
                i <= level <= depth,
                depth == M::levels(),
                depth <= MAX_LEVELS,
                region@ == path_of(morton, i as nat),
            decreases level - i,
        {
            let section: usize = morton.get_level(i);
            region = region.enter(section);
            i += 1;
        }
        region
    }
}

impl Default for MortonRegion {
    /// The root: the whole cube.
    fn default() -> (root: Self)
        ensures
            root@ == Seq::<nat>::empty(),
    {
        MortonRegion { key: 1, level: 0 }
    }
}

} // verus!
