//! What holds of every tree, proved from the contracts of the operations.

use vstd::prelude::*;
use crate::gather::{fold_children, fold_region};
use crate::interior::{
    crowded, fork, holds, interior, lemma_fork_at_child, lemma_fork_below_parting,
    lemma_full_depth_holds_one, lemma_holds_child, lemma_nothing_below_uncrowded,
    lemma_path_of_holds, occupied, recorded, within, Interior,
};
use crate::linear::{loaded, Linear};
use crate::morton::{path_of, Morton};
use crate::region::is_path;
use crate::strategies::{concat, total, Collect, LeafCount};

verus! {

/// A region recorded for a leaf contains that leaf and no other, and the leaf
/// is stored.
pub proof fn lemma_recorded_leaf_lies_in_region<M: Morton>(
    codes: Set<M>,
    path: Seq<nat>,
    morton: M,
)
    requires
        interior(codes, path) == Interior::Collapsed(morton),
    ensures
        codes.contains(morton),
        holds(path, morton),
        forall|other: M| codes.contains(other) && holds(path, other) ==> other == morton,
{
}

/// Recorded regions do not nest: inside a region for which something is
/// recorded, nothing else is.
pub proof fn lemma_recorded_regions_do_not_nest<M: Morton>(
    codes: Set<M>,
    outer: Seq<nat>,
    inner: Seq<nat>,
)
    requires
        !(interior(codes, outer) is Absent),
        within(inner, outer),
        inner != outer,
    ensures
        interior(codes, inner) is Absent,
{
    lemma_nothing_below_uncrowded(codes, outer, inner);
}

/// On the way down to a stored code, from `depth` on where all regions above
/// are crowded, some region is recorded for the code.
proof fn lemma_leaf_is_recorded_from<M: Morton>(codes: Set<M>, morton: M, depth: nat)
    requires
        codes.contains(morton),
        forall|other: M| codes.contains(other) ==> other.is_code(),
        depth <= M::levels(),
        forall|above: nat| above < depth ==> crowded(codes, #[trigger] path_of(morton, above)),
    ensures
        exists|found: nat|
            found <= M::levels() && interior(codes, #[trigger] path_of(morton, found))
                == Interior::Collapsed(morton),
    decreases M::levels() - depth,
{
    let here = path_of(morton, depth);
    lemma_path_of_holds(morton, depth);
    if crowded(codes, here) {
        if depth == M::levels() {
            let (a, b) = choose|a: M, b: M|
                #![trigger holds(here, a), holds(here, b)]
                codes.contains(a) && codes.contains(b) && a != b && holds(here, a) && holds(
                    here,
                    b,
                );
            lemma_full_depth_holds_one(here, a, b);
        }
        lemma_leaf_is_recorded_from(codes, morton, depth + 1);
    } else {
        if depth > 0 {
            assert(here.drop_last() =~= path_of(morton, (depth - 1) as nat));
        }
    }
}

/// Every stored code is recorded at one region on its way down from the root,
/// and at that region only.
pub proof fn lemma_every_leaf_is_recorded_once<M: Morton>(codes: Set<M>, morton: M)
    requires
        codes.contains(morton),
        forall|other: M| codes.contains(other) ==> other.is_code(),
    ensures
        exists|found: nat|
            found <= M::levels() && interior(codes, #[trigger] path_of(morton, found))
                == Interior::Collapsed(morton),
        forall|one: nat, other: nat|
            !(interior(codes, #[trigger] path_of(morton, one)) is Absent) && !(interior(
                codes,
                #[trigger] path_of(morton, other),
            ) is Absent) ==> one == other,
{
    lemma_leaf_is_recorded_from(codes, morton, 0);
    assert forall|one: nat, other: nat|
        !(interior(codes, #[trigger] path_of(morton, one)) is Absent) && !(interior(
            codes,
            #[trigger] path_of(morton, other),
        ) is Absent) implies one == other by {
        if one < other {
            lemma_recorded_regions_do_not_nest(
                codes,
                path_of(morton, one),
                path_of(morton, other),
            );
        } else if other < one {
            lemma_recorded_regions_do_not_nest(
                codes,
                path_of(morton, other),
                path_of(morton, one),
            );
        }
    }
}

/// Whether `morton` is the code of one of the pairs.
pub open spec fn occurs<T, M>(pairs: Seq<(M, T)>, morton: M) -> bool {
    exists|i: int| 0 <= i < pairs.len() && (#[trigger] pairs[i]).0 == morton
}

/// Loading pairs into a leaf store leaves one entry for each code that was
/// there or occurs among the pairs, and no other.
pub proof fn lemma_loaded_codes<T, M>(base: Map<M, T>, pairs: Seq<(M, T)>, morton: M)
    ensures
        loaded(base, pairs).contains_key(morton) <==> base.contains_key(morton) || occurs(
            pairs,
            morton,
        ),
    decreases pairs.len(),
{
    if pairs.len() > 0 {
        let front = pairs.drop_last();
        lemma_loaded_codes(base, front, morton);
        if occurs(pairs, morton) && pairs.last().0 != morton {
            let i = choose|i: int| 0 <= i < pairs.len() && (#[trigger] pairs[i]).0 == morton;
            assert(front[i].0 == morton);
        }
    }
}

/// After loading, a code holds the payload of its last occurrence among the
/// pairs.
pub proof fn lemma_last_insertion_wins<T, M>(base: Map<M, T>, pairs: Seq<(M, T)>, last: int)
    requires
        0 <= last < pairs.len(),
        forall|later: int| last < later < pairs.len() ==> (#[trigger] pairs[later]).0 != pairs[last].0,
    ensures
        loaded(base, pairs)[pairs[last].0] == pairs[last].1,
    decreases pairs.len(),
{
    if last < pairs.len() - 1 {
        let front = pairs.drop_last();
        assert forall|later: int| last < later < front.len() implies (#[trigger] front[later]).0
            != front[last].0 by {}
        lemma_last_insertion_wins(base, front, last);
    }
}

/// After loading, a code that occurs in none of the pairs holds what it held.
pub proof fn lemma_loaded_keeps_others<T, M>(base: Map<M, T>, pairs: Seq<(M, T)>, morton: M)
    requires
        !occurs(pairs, morton),
    ensures
        loaded(base, pairs)[morton] == base[morton],
    decreases pairs.len(),
{
    if pairs.len() > 0 {
        lemma_loaded_keeps_others(base, pairs.drop_last(), morton);
    }
}

/// After loading, a code that occurs among the pairs holds the payload of one
/// of its occurrences.
pub proof fn lemma_loaded_payload_occurs<T, M>(base: Map<M, T>, pairs: Seq<(M, T)>, morton: M)
    requires
        occurs(pairs, morton),
    ensures
        exists|i: int|
            0 <= i < pairs.len() && #[trigger] pairs[i] == (morton, loaded(base, pairs)[morton]),
    decreases pairs.len(),
{
    let front = pairs.drop_last();
    if pairs.last().0 != morton {
        let i = choose|i: int| 0 <= i < pairs.len() && (#[trigger] pairs[i]).0 == morton;
        assert(front[i].0 == morton);
        lemma_loaded_payload_occurs(base, front, morton);
        let k = choose|k: int|
            0 <= k < front.len() && #[trigger] front[k] == (morton, loaded(base, front)[morton]);
        assert(pairs[k] == front[k]);
    }
}

/// Two loads of the same set of pairs into an empty tree, in whatever order,
/// store the same codes and so record the same for every region. Where no code
/// comes with two payloads, they store the same payloads too.
pub proof fn lemma_insertion_order_is_immaterial<T, M: Morton>(
    first: Seq<(M, T)>,
    second: Seq<(M, T)>,
)
    requires
        first.to_set() == second.to_set(),
    ensures
        loaded(Map::empty(), first).dom() == loaded(Map::empty(), second).dom(),
        forall|path: Seq<nat>|
            interior(loaded(Map::empty(), first).dom(), path) == interior(
                loaded(Map::empty(), second).dom(),
                path,
            ),
        (forall|i: int, j: int|
            0 <= i < first.len() && 0 <= j < first.len() && (#[trigger] first[i]).0 == (
            #[trigger] first[j]).0 ==> first[i].1 == first[j].1) ==> loaded(Map::empty(), first)
            == loaded(Map::empty(), second),
{
    let empty = Map::<M, T>::empty();
    let one = loaded(empty, first);
    let two = loaded(empty, second);
    assert forall|morton: M| one.contains_key(morton) <==> two.contains_key(morton) by {
        lemma_loaded_codes(empty, first, morton);
        lemma_loaded_codes(empty, second, morton);
        if occurs(first, morton) {
            let i = choose|i: int| 0 <= i < first.len() && (#[trigger] first[i]).0 == morton;
            assert(first.to_set().contains(first[i]));
        }
        if occurs(second, morton) {
            let j = choose|j: int| 0 <= j < second.len() && (#[trigger] second[j]).0 == morton;
            assert(second.to_set().contains(second[j]));
        }
    }
    if forall|i: int, j: int|
        0 <= i < first.len() && 0 <= j < first.len() && (#[trigger] first[i]).0 == (
        #[trigger] first[j]).0 ==> first[i].1 == first[j].1 {
        assert forall|morton: M| one.contains_key(morton) implies one[morton] == two[morton] by {
            lemma_loaded_codes(empty, first, morton);
            lemma_loaded_codes(empty, second, morton);
            lemma_loaded_payload_occurs(empty, first, morton);
            lemma_loaded_payload_occurs(empty, second, morton);
            let i = choose|i: int|
                0 <= i < first.len() && #[trigger] first[i] == (morton, one[morton]);
            let j = choose|j: int|
                0 <= j < second.len() && #[trigger] second[j] == (morton, two[morton]);
            assert(second.to_set().contains(second[j]));
        }
    }
}

/// Two trees that store the same codes have the same interior map, whatever
/// the order in which the codes came.
pub proof fn lemma_same_codes_same_interior_map<T, M: Morton>(
    one: &Linear<T, M>,
    other: &Linear<T, M>,
)
    requires
        one.wf(),
        other.wf(),
        one@.dom() == other@.dom(),
    ensures
        one.records() == other.records(),
{
    assert forall|path: Seq<nat>| #[trigger]
        one.records().dom().contains(path) == other.records().dom().contains(path) by {
        assert(recorded(one.records(), path) == recorded(other.records(), path));
    }
    assert forall|path: Seq<nat>| one.records().dom().contains(path) implies #[trigger] one.records()[path]
        == other.records()[path] by {
        assert(recorded(one.records(), path) == recorded(other.records(), path));
    }
    assert(one.records() =~= other.records());
}

/// Two codes that agree on their first `agreed` digits and differ in the next,
/// stored in an empty tree, are each recorded one level below the region they
/// share last; the other six children of that region are recorded as empty,
/// and nothing is recorded further down.
pub proof fn lemma_two_codes_part_where_they_differ<T, M: Morton>(
    a: M,
    in_a: T,
    b: M,
    in_b: T,
    agreed: nat,
)
    requires
        agreed < M::levels(),
        forall|level: nat| level < agreed ==> a.digit(level) == b.digit(level),
        a.digit(agreed) != b.digit(agreed),
    ensures
        ({
            let codes = Map::<M, T>::empty().insert(a, in_a).insert(b, in_b).dom();
            let shared = path_of(a, agreed);
            &&& interior(codes, shared.push(a.digit(agreed))) == Interior::Collapsed(a)
            &&& interior(codes, shared.push(b.digit(agreed))) == Interior::Collapsed(b)
            &&& forall|section: nat|
                section < 8 && section != a.digit(agreed) && section != b.digit(agreed)
                    ==> interior(codes, #[trigger] shared.push(section)) == Interior::<M>::Null
            &&& forall|path: Seq<nat>|
                path.len() > agreed + 1 ==> #[trigger] interior(codes, path) is Absent
            &&& forall|path: Seq<nat>|
                within(shared, path) ==> #[trigger] interior(codes, path) is Absent
        }),
{
    let codes = Map::<M, T>::empty().insert(a, in_a).insert(b, in_b).dom();
    let shared = path_of(a, agreed);
    a.lemma_digit_is_octant(agreed);
    b.lemma_digit_is_octant(agreed);
    assert forall|path: Seq<nat>| interior(codes, path) == fork(a, b, path) by {}
    lemma_fork_at_child(a, b, shared, a.digit(agreed));
    lemma_fork_at_child(a, b, shared, b.digit(agreed));
    assert forall|section: nat|
        section < 8 && section != a.digit(agreed) && section != b.digit(agreed) implies interior(
        codes,
        #[trigger] shared.push(section),
    ) == Interior::<M>::Null by {
        lemma_fork_at_child(a, b, shared, section);
    }
    assert forall|path: Seq<nat>| path.len() > agreed + 1 implies #[trigger] interior(
        codes,
        path,
    ) is Absent by {
        lemma_fork_below_parting(a, b, path, agreed);
    }
    assert forall|path: Seq<nat>| within(shared, path) implies #[trigger] interior(
        codes,
        path,
    ) is Absent by {}
}

/// Storing a new code changes what is recorded only for the root and for
/// children of regions that contain the new code: at most eight regions per
/// level, all along the way down to the code.
pub proof fn lemma_insert_changes_only_the_way_down<M: Morton>(
    codes: Set<M>,
    morton: M,
    path: Seq<nat>,
)
    requires
        path.len() > 0,
        !holds(path.drop_last(), morton),
    ensures
        interior(codes.insert(morton), path) == interior(codes, path),
{
    let parent = path.drop_last();
    if holds(path, morton) {
        assert forall|i: int| 0 <= i < parent.len() implies #[trigger] parent[i] == morton.digit(
            i as nat,
        ) by {}
    }
}

/// Storing a second payload at a code replaces the first and changes nothing
/// else: the tree has the same codes and records the same for every region.
pub proof fn lemma_overwrite_keeps_shape<T, M: Morton>(
    leaves: Map<M, T>,
    morton: M,
    first: T,
    second: T,
)
    ensures
        leaves.insert(morton, first).insert(morton, second) == leaves.insert(morton, second),
        leaves.insert(morton, first).insert(morton, second).dom() == leaves.insert(
            morton,
            first,
        ).dom(),
        forall|path: Seq<nat>|
            interior(leaves.insert(morton, first).insert(morton, second).dom(), path) == interior(
                leaves.insert(morton, first).dom(),
                path,
            ),
{
}

/// Whether `pair` is a leaf of the tree that lies in the region `path`.
pub open spec fn leaf_in<T, M: Morton>(leaves: Map<M, T>, path: Seq<nat>, pair: (M, T)) -> bool {
    leaves.contains_key(pair.0) && leaves[pair.0] == pair.1 && holds(path, pair.0)
}

/// Whether `list` names every leaf of the tree that lies in the region `path`,
/// and each of them once.
pub open spec fn lists_leaves<T, M: Morton>(
    leaves: Map<M, T>,
    path: Seq<nat>,
    list: Seq<(M, T)>,
) -> bool {
    &&& list.no_duplicates()
    &&& forall|pair: (M, T)| #[trigger] list.contains(pair) <==> leaf_in(leaves, path, pair)
}

/// Collecting from a region at which the traversal can arrive (the root, or a
/// child of a region with two or more leaves) lists the leaves in that region,
/// each once, and files the list under the region; where the region has no
/// leaf there is no list.
pub proof fn lemma_collect_lists_region<T: Copy, M: Morton>(
    leaves: Map<M, T>,
    path: Seq<nat>,
    collect: &Collect<T, M>,
)
    requires
        forall|morton: M| leaves.contains_key(morton) ==> morton.is_code(),
        is_path(path),
        path.len() <= M::levels(),
        path.len() > 0 ==> crowded(leaves.dom(), path.drop_last()),
    ensures
        match fold_region(leaves, path, collect, collect).0 {
            Some(list) => {
                &&& occupied(leaves.dom(), path)
                &&& lists_leaves(leaves, path, list)
                &&& fold_region(leaves, path, collect, collect).1.contains_key(path)
                &&& fold_region(leaves, path, collect, collect).1[path] == list
            },
            None => !occupied(leaves.dom(), path),
        },
    decreases M::levels() - path.len(), 9nat,
{
    let codes = leaves.dom();
    match interior(codes, path) {
        Interior::Collapsed(morton) => {
            let list = seq![(morton, leaves[morton])];
            assert forall|pair: (M, T)| #[trigger] list.contains(pair) <==> leaf_in(
                leaves,
                path,
                pair,
            ) by {
                if leaf_in(leaves, path, pair) {
                    assert(list[0] == pair);
                }
            }
        },
        Interior::Null => {},
        Interior::Absent => {
            let (a, b) = choose|a: M, b: M|
                #![trigger holds(path, a), holds(path, b)]
                codes.contains(a) && codes.contains(b) && a != b && holds(path, a) && holds(
                    path,
                    b,
                );
            if path.len() == M::levels() {
                lemma_full_depth_holds_one(path, a, b);
            }
            lemma_collect_lists_children(leaves, path, 8, collect);
            let lists = fold_children(leaves, path, 8, collect, collect).0;
            let list = concat(lists);
            a.lemma_digit_is_octant(path.len());
            assert(list.contains((a, leaves[a])));
            assert forall|pair: (M, T)| #[trigger] list.contains(pair) <==> leaf_in(
                leaves,
                path,
                pair,
            ) by {
                pair.0.lemma_digit_is_octant(path.len());
            }
        },
    }
}

/// Collecting from the first `count` children of a region with two or more
/// leaves lists the leaves in those children, each once.
pub proof fn lemma_collect_lists_children<T: Copy, M: Morton>(
    leaves: Map<M, T>,
    path: Seq<nat>,
    count: nat,
    collect: &Collect<T, M>,
)
    requires
        forall|morton: M| leaves.contains_key(morton) ==> morton.is_code(),
        is_path(path),
        path.len() < M::levels(),
        crowded(leaves.dom(), path),
        count <= 8,
    ensures
        concat(fold_children(leaves, path, count, collect, collect).0).no_duplicates(),
        forall|pair: (M, T)|
            #[trigger] concat(fold_children(leaves, path, count, collect, collect).0).contains(pair)
                <==> leaf_in(leaves, path, pair) && pair.0.digit(path.len()) < count,
    decreases M::levels() - path.len(), count,
{
    let lists = fold_children(leaves, path, count, collect, collect).0;
    if count > 0 {
        let section = (count - 1) as nat;
        let child = path.push(section);
        let before = fold_children(leaves, path, section, collect, collect).0;
        lemma_collect_lists_children(leaves, path, section, collect);
        M::lemma_depth_fits();
        assert(child.drop_last() =~= path);
        assert(is_path(child)) by {
            assert forall|i: int| 0 <= i < child.len() implies #[trigger] child[i] < 8 by {}
        }
        lemma_collect_lists_region(leaves, child, collect);
        assert forall|pair: (M, T)| leaf_in(leaves, child, pair) <==> leaf_in(leaves, path, pair)
            && pair.0.digit(path.len()) == section by {
            lemma_holds_child(path, section, pair.0);
        }
        match fold_region(leaves, child, collect, collect).0 {
            Some(list) => {
                assert(lists.drop_last() =~= before);
                assert forall|i: int, j: int|
                    0 <= i < concat(before).len() && 0 <= j < list.len() implies concat(before)[i]
                    != list[j] by {
                    assert(concat(before).contains(concat(before)[i]));
                    assert(list.contains(list[j]));
                }
                assert forall|pair: (M, T)| #[trigger]
                    concat(lists).contains(pair) <==> leaf_in(leaves, path, pair)
                        && pair.0.digit(path.len()) < count by {
                    vstd::seq_lib::lemma_seq_concat_contains_all_elements(
                        concat(before),
                        list,
                        pair,
                    );
                }
            },
            None => {
                assert forall|pair: (M, T)| #[trigger]
                    concat(lists).contains(pair) <==> leaf_in(leaves, path, pair)
                        && pair.0.digit(path.len()) < count by {}
            },
        }
    }
}

/// Collecting from the root lists every leaf of the tree, each exactly once,
/// and files the list under the root. An empty tree gives no list.
pub proof fn lemma_collect_lists_every_leaf_once<T: Copy, M: Morton>(
    leaves: Map<M, T>,
    collect: &Collect<T, M>,
)
    requires
        forall|morton: M| leaves.contains_key(morton) ==> morton.is_code(),
    ensures
        match fold_region(leaves, Seq::empty(), collect, collect).0 {
            Some(list) => {
                &&& list.no_duplicates()
                &&& forall|pair: (M, T)| #[trigger]
                    list.contains(pair) <==> leaves.contains_key(pair.0) && leaves[pair.0] == pair.1
                &&& fold_region(leaves, Seq::empty(), collect, collect).1.contains_key(Seq::empty())
                &&& fold_region(leaves, Seq::empty(), collect, collect).1[Seq::empty()] == list
            },
            None => forall|morton: M| !leaves.contains_key(morton),
        },
{
    let root = Seq::<nat>::empty();
    lemma_collect_lists_region(leaves, root, collect);
    match fold_region(leaves, root, collect, collect).0 {
        Some(list) => {
            assert forall|pair: (M, T)| #[trigger]
                list.contains(pair) <==> leaves.contains_key(pair.0) && leaves[pair.0]
                    == pair.1 by {}
        },
        None => {
            assert forall|morton: M| !leaves.contains_key(morton) by {
                if leaves.contains_key(morton) {
                    assert(leaves.dom().contains(morton) && holds(root, morton));
                }
            }
        },
    }
}

/// The codes among `codes` that lie in the region `path`.
pub open spec fn codes_in<M: Morton>(codes: Set<M>, path: Seq<nat>) -> Set<M> {
    codes.filter(|morton: M| holds(path, morton))
}

/// The codes among `codes` that lie in one of the first `count` children of
/// the region `path`.
pub open spec fn codes_in_first<M: Morton>(codes: Set<M>, path: Seq<nat>, count: nat) -> Set<M> {
    codes.filter(|morton: M| holds(path, morton) && morton.digit(path.len()) < count)
}

/// Counting from a region at which the traversal can arrive gives the number
/// of leaves in that region, and no count where there is none, as long as the
/// tree has no more leaves than a `u64` can count.
pub proof fn lemma_count_counts_region<T, M: Morton>(
    leaves: Map<M, T>,
    path: Seq<nat>,
    counter: &LeafCount,
)
    requires
        forall|morton: M| leaves.contains_key(morton) ==> morton.is_code(),
        leaves.dom().finite(),
        leaves.dom().len() <= u64::MAX,
        is_path(path),
        path.len() <= M::levels(),
        path.len() > 0 ==> crowded(leaves.dom(), path.drop_last()),
    ensures
        fold_region(leaves, path, counter, counter).0 == if codes_in(leaves.dom(), path).len()
            == 0 {
            None
        } else {
            Some(codes_in(leaves.dom(), path).len() as u64)
        },
    decreases M::levels() - path.len(), 9nat,
{
    let codes = leaves.dom();
    let here = codes_in(codes, path);
    codes.lemma_len_filter(|morton: M| holds(path, morton));
    match interior(codes, path) {
        Interior::Collapsed(morton) => {
            assert(here =~= Set::empty().insert(morton));
        },
        Interior::Null => {
            assert(here =~= Set::empty());
        },
        Interior::Absent => {
            let (a, b) = choose|a: M, b: M|
                #![trigger holds(path, a), holds(path, b)]
                codes.contains(a) && codes.contains(b) && a != b && holds(path, a) && holds(
                    path,
                    b,
                );
            if path.len() == M::levels() {
                lemma_full_depth_holds_one(path, a, b);
            }
            lemma_count_counts_children(leaves, path, 8, counter);
            assert(codes_in_first(codes, path, 8) =~= here) by {
                assert forall|morton: M| here.contains(morton) implies codes_in_first(
                    codes,
                    path,
                    8,
                ).contains(morton) by {
                    morton.lemma_digit_is_octant(path.len());
                }
            }
            assert(here.contains(a));
            vstd::set_lib::lemma_set_empty_equivalency_len(here);
        },
    }
}

/// Counting from the first `count` children of a region with two or more
/// leaves gives counts that add up to the number of leaves in those children.
pub proof fn lemma_count_counts_children<T, M: Morton>(
    leaves: Map<M, T>,
    path: Seq<nat>,
    count: nat,
    counter: &LeafCount,
)
    requires
        forall|morton: M| leaves.contains_key(morton) ==> morton.is_code(),
        leaves.dom().finite(),
        leaves.dom().len() <= u64::MAX,
        is_path(path),
        path.len() < M::levels(),
        crowded(leaves.dom(), path),
        count <= 8,
    ensures
        total(fold_children(leaves, path, count, counter, counter).0) == codes_in_first(
            leaves.dom(),
            path,
            count,
        ).len(),
    decreases M::levels() - path.len(), count,
{
    let codes = leaves.dom();
    let counts = fold_children(leaves, path, count, counter, counter).0;
    if count > 0 {
        let section = (count - 1) as nat;
        let child = path.push(section);
        let before = fold_children(leaves, path, section, counter, counter).0;
        let earlier = codes_in_first(codes, path, section);
        let there = codes_in(codes, child);
        lemma_count_counts_children(leaves, path, section, counter);
        M::lemma_depth_fits();
        assert(child.drop_last() =~= path);
        assert(is_path(child)) by {
            assert forall|i: int| 0 <= i < child.len() implies #[trigger] child[i] < 8 by {}
        }
        lemma_count_counts_region(leaves, child, counter);
        codes.lemma_len_filter(|morton: M| holds(child, morton));
        codes.lemma_len_filter(
            |morton: M| holds(path, morton) && morton.digit(path.len()) < section,
        );
        assert forall|morton: M| holds(child, morton) <==> holds(path, morton) && morton.digit(
            path.len(),
        ) == section by {
            lemma_holds_child(path, section, morton);
        }
        assert(codes_in_first(codes, path, count) =~= earlier + there);
        assert(earlier.disjoint(there));
        vstd::set_lib::lemma_set_disjoint_lens(earlier, there);
        match fold_region(leaves, child, counter, counter).0 {
            Some(found) => {
                assert(counts.drop_last() =~= before);
            },
            None => {},
        }
    } else {
        assert(codes_in_first(codes, path, 0) =~= Set::empty());
    }
}

/// Counting from the root gives the number of leaves of the tree, and no count
/// for an empty tree, as long as the tree has no more leaves than a `u64` can
/// count.
pub proof fn lemma_count_counts_every_leaf<T, M: Morton>(leaves: Map<M, T>, counter: &LeafCount)
    requires
        forall|morton: M| leaves.contains_key(morton) ==> morton.is_code(),
        leaves.dom().finite(),
        leaves.dom().len() <= u64::MAX,
    ensures
        fold_region(leaves, Seq::empty(), counter, counter).0 == if leaves.dom().len() == 0 {
            None
        } else {
            Some(leaves.dom().len() as u64)
        },
{
    lemma_count_counts_region(leaves, Seq::empty(), counter);
    assert(codes_in(leaves.dom(), Seq::empty()) =~= leaves.dom()) by {
        assert forall|morton: M| leaves.dom().contains(morton) implies holds(
            Seq::<nat>::empty(),
            morton,
        ) by {}
    }
}

} // verus!
