//! The shape of the tree: what is recorded for each region, as a function of
//! the set of codes that the tree stores.

use vstd::prelude::*;
use crate::morton::{Morton, path_of};
use crate::region::is_path;

verus! {

/// What the tree records for a region.
#[derive(Debug, PartialEq, Eq)]
pub enum Interior<M> {
    /// Nothing is recorded. Above the recorded regions this means: look in the
    /// eight children.
    Absent,
    /// The region is recorded as empty: no leaf lies in it.
    Null,
    /// The region is recorded as holding exactly one leaf, the one with this
    /// code, however much deeper that leaf lies.
    Collapsed(M),
}

impl<M: Copy> Clone for Interior<M> {
    fn clone(&self) -> (copy: Self)
        ensures
            copy == *self,
    {
        *self
    }
}

impl<M: Copy> Copy for Interior<M> {}

/// Whether the region named by `path` contains the point of `morton`.
pub open spec fn holds<M: Morton>(path: Seq<nat>, morton: M) -> bool {
    &&& path.len() <= M::levels()
    &&& forall|i: int| 0 <= i < path.len() ==> #[trigger] path[i] == morton.digit(i as nat)
}

/// Whether `path` names `region` or a region inside it.
pub open spec fn within(path: Seq<nat>, region: Seq<nat>) -> bool {
    &&& region.len() <= path.len()
    &&& forall|i: int| 0 <= i < region.len() ==> #[trigger] region[i] == path[i]
}

/// Whether at least two of the codes lie in the region.
pub open spec fn crowded<M: Morton>(codes: Set<M>, path: Seq<nat>) -> bool {
    exists|a: M, b: M|
        #![trigger holds(path, a), holds(path, b)]
        codes.contains(a) && codes.contains(b) && a != b && holds(path, a) && holds(path, b)
}

/// Whether at least one of the codes lies in the region.
pub open spec fn occupied<M: Morton>(codes: Set<M>, path: Seq<nat>) -> bool {
    exists|m: M| codes.contains(m) && #[trigger] holds(path, m)
}

/// One of the codes that lie in the region; the only one, where the region is
/// occupied and not crowded.
pub open spec fn occupant<M: Morton>(codes: Set<M>, path: Seq<nat>) -> M {
    choose|m: M| codes.contains(m) && #[trigger] holds(path, m)
}

/// What a tree that stores exactly `codes` records for the region `path`.
///
/// A region is recorded where it holds at most one of the codes and is the
/// root or the child of a region that holds two or more: the recorded regions
/// are the shallowest that tell the codes apart.
pub open spec fn interior<M: Morton>(codes: Set<M>, path: Seq<nat>) -> Interior<M> {
    if !is_path(path) || path.len() > M::levels() {
        Interior::Absent
    } else if crowded(codes, path) {
        Interior::Absent
    } else if path.len() > 0 && !crowded(codes, path.drop_last()) {
        Interior::Absent
    } else if occupied(codes, path) {
        Interior::Collapsed(occupant(codes, path))
    } else {
        Interior::Null
    }
}

/// What a tree that stores exactly the two distinct codes `a` and `b` records
/// for the region `path`, said without reference to a set.
pub open spec fn fork<M: Morton>(a: M, b: M, path: Seq<nat>) -> Interior<M> {
    if !is_path(path) || path.len() > M::levels() {
        Interior::Absent
    } else if holds(path, a) && holds(path, b) {
        Interior::Absent
    } else if path.len() > 0 && !(holds(path.drop_last(), a) && holds(path.drop_last(), b)) {
        Interior::Absent
    } else if holds(path, a) {
        Interior::Collapsed(a)
    } else if holds(path, b) {
        Interior::Collapsed(b)
    } else {
        Interior::Null
    }
}

/// What a map from paths to codes records for a region, the null code standing
/// for an empty region.
pub open spec fn recorded<M: Morton>(entries: Map<Seq<nat>, M>, path: Seq<nat>) -> Interior<M> {
    if !entries.contains_key(path) {
        Interior::Absent
    } else if entries[path] == M::null_spec() {
        Interior::Null
    } else {
        Interior::Collapsed(entries[path])
    }
}

/// The first digits of a code name a region that contains it.
pub proof fn lemma_path_of_holds<M: Morton>(morton: M, depth: nat)
    requires
        depth <= M::levels(),
    ensures
        is_path(path_of(morton, depth)),
        holds(path_of(morton, depth), morton),
{
    M::lemma_depth_fits();
    let path = path_of(morton, depth);
    assert forall|i: int| 0 <= i < path.len() implies #[trigger] path[i] < 8 by {
        morton.lemma_digit_is_octant(i as nat);
    }
}

/// A region that contains a code is named by the code's first digits.
pub proof fn lemma_holds_is_path_of<M: Morton>(path: Seq<nat>, morton: M)
    requires
        holds(path, morton),
    ensures
        path == path_of(morton, path.len()),
{
}

/// Two codes in one region of full depth are one code.
pub proof fn lemma_full_depth_holds_one<M: Morton>(path: Seq<nat>, a: M, b: M)
    requires
        a.is_code(),
        b.is_code(),
        path.len() == M::levels(),
        holds(path, a),
        holds(path, b),
    ensures
        a == b,
{
    assert forall|l: nat| l < M::levels() implies a.digit(l) == b.digit(l) by {
        assert(path[l as int] == a.digit(l));
    }
    M::lemma_digits_determine(a, b);
}

/// What lies in a region lies in every region around it.
pub proof fn lemma_holds_within<M: Morton>(path: Seq<nat>, region: Seq<nat>, morton: M)
    requires
        holds(path, morton),
        within(path, region),
    ensures
        holds(region, morton),
{
}

/// A code lies in a child region if it lies in the parent and its next digit
/// names the child's octant.
pub proof fn lemma_holds_child<M: Morton>(path: Seq<nat>, section: nat, morton: M)
    ensures
        holds(path.push(section), morton) <==> holds(path, morton) && path.len() < M::levels()
            && morton.digit(path.len()) == section,
{
    let child = path.push(section);
    assert(child[path.len() as int] == section);
    if holds(child, morton) {
        assert forall|i: int| 0 <= i < path.len() implies #[trigger] path[i] == morton.digit(
            i as nat,
        ) by {
            assert(child[i] == path[i]);
        }
    }
}

/// A region around a crowded region is crowded, and one around an occupied
/// region is occupied.
pub proof fn lemma_crowded_within<M: Morton>(codes: Set<M>, path: Seq<nat>, region: Seq<nat>)
    requires
        within(path, region),
    ensures
        crowded(codes, path) ==> crowded(codes, region),
        occupied(codes, path) ==> occupied(codes, region),
{
    if crowded(codes, path) {
        let (a, b) = choose|a: M, b: M|
            #![trigger holds(path, a), holds(path, b)]
            codes.contains(a) && codes.contains(b) && a != b && holds(path, a) && holds(path, b);
        lemma_holds_within(path, region, a);
        lemma_holds_within(path, region, b);
    }
    if occupied(codes, path) {
        let m = occupant(codes, path);
        lemma_holds_within(path, region, m);
    }
}

/// Below a region that holds at most one code, nothing is recorded.
pub proof fn lemma_nothing_below_uncrowded<M: Morton>(
    codes: Set<M>,
    region: Seq<nat>,
    path: Seq<nat>,
)
    requires
        !crowded(codes, region),
        within(path, region),
        path != region,
    ensures
        interior(codes, path) is Absent,
{
    if path.len() == region.len() {
        assert(path =~= region);
    }
    lemma_crowded_within(codes, path.drop_last(), region);
}

/// A new code leaves every region alone that lies outside the first region on
/// its way down that is not crowded.
pub proof fn lemma_insert_outside<M: Morton>(codes: Set<M>, morton: M, depth: nat, path: Seq<nat>)
    requires
        !codes.contains(morton),
        depth <= M::levels(),
        forall|above: nat| above < depth ==> crowded(codes, #[trigger] path_of(morton, above)),
        !within(path, path_of(morton, depth)),
    ensures
        interior(codes.insert(morton), path) == interior(codes, path),
{
    let landing = path_of(morton, depth);
    if holds(path, morton) {
        lemma_holds_is_path_of(path, morton);
    } else if path.len() > 0 {
        let parent = path.drop_last();
        if holds(parent, morton) {
            lemma_holds_is_path_of(parent, morton);
            if parent.len() >= depth {
                assert(within(parent, landing));
            }
        }
    }
}

/// A new code that comes down to a region recorded as empty is recorded there,
/// and nothing below that region is recorded, before or after.
pub proof fn lemma_insert_claims<M: Morton>(codes: Set<M>, morton: M, depth: nat, path: Seq<nat>)
    requires
        !codes.contains(morton),
        depth <= M::levels(),
        forall|above: nat| above < depth ==> crowded(codes, #[trigger] path_of(morton, above)),
        !occupied(codes, path_of(morton, depth)),
        within(path, path_of(morton, depth)),
    ensures
        path == path_of(morton, depth) ==> interior(codes.insert(morton), path)
            == Interior::Collapsed(morton),
        path != path_of(morton, depth) ==> interior(codes.insert(morton), path) is Absent
            && interior(codes, path) is Absent,
{
    let more = codes.insert(morton);
    let landing = path_of(morton, depth);
    lemma_path_of_holds(morton, depth);
    if path == landing {
        if depth > 0 {
            assert(landing.drop_last() =~= path_of(morton, (depth - 1) as nat));
        }
    } else {
        lemma_nothing_below_uncrowded(more, landing, path);
        lemma_nothing_below_uncrowded(codes, landing, path);
    }
}

/// A new code that comes down to a region recorded for one other code turns
/// that region into the tree of the two codes.
pub proof fn lemma_insert_splits<M: Morton>(
    codes: Set<M>,
    leaf: M,
    morton: M,
    region: Seq<nat>,
    path: Seq<nat>,
)
    requires
        !codes.contains(morton),
        codes.contains(leaf),
        holds(region, leaf),
        holds(region, morton),
        !crowded(codes, region),
        within(path, region),
    ensures
        interior(codes.insert(morton), path) == fork(leaf, morton, path),
{
    // Of the old codes, only `leaf` can lie in `path` or in its parent.
    lemma_crowded_within(codes, path, region);
    if occupied(codes, path) {
        lemma_holds_within(path, region, occupant(codes, path));
    }
    if path != region {
        if path.len() == region.len() {
            assert(path =~= region);
        }
        let parent = path.drop_last();
        lemma_crowded_within(codes, parent, region);
        if occupied(codes, parent) {
            lemma_holds_within(parent, region, occupant(codes, parent));
        }
    }
}

/// What the tree of two codes records for a child of a region that still
/// holds both: the codes part there, or go down together.
pub proof fn lemma_fork_at_child<M: Morton>(a: M, b: M, region: Seq<nat>, section: nat)
    requires
        holds(region, a),
        holds(region, b),
        region.len() < M::levels(),
        section < 8,
    ensures
        fork(a, b, region.push(section)) == if section == a.digit(region.len()) && section
            == b.digit(region.len()) {
            Interior::Absent
        } else if section == a.digit(region.len()) {
            Interior::Collapsed(a)
        } else if section == b.digit(region.len()) {
            Interior::Collapsed(b)
        } else {
            Interior::Null
        },
{
    let child = region.push(section);
    M::lemma_depth_fits();
    lemma_holds_is_path_of(region, a);
    lemma_path_of_holds(a, region.len());
    assert(is_path(child)) by {
        assert forall|i: int| 0 <= i < child.len() implies #[trigger] child[i] < 8 by {}
    }
    assert(child[region.len() as int] == section);
}

/// The tree of two codes records nothing deeper than one level below the
/// region in which the codes part.
pub proof fn lemma_fork_below_parting<M: Morton>(a: M, b: M, path: Seq<nat>, level: nat)
    requires
        level + 2 <= path.len(),
        path[level as int] != a.digit(level) || path[level as int] != b.digit(level),
    ensures
        fork(a, b, path) is Absent,
{
    let parent = path.drop_last();
    assert(parent[level as int] == path[level as int]);
}

} // verus!
