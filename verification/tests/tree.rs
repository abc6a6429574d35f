use linear_octree::{Interior, Linear, Morton, MortonRegion};

/// Every region of a two-level tree: the root, its children and theirs.
fn regions_of_two_levels() -> Vec<MortonRegion> {
    let root = MortonRegion::default();
    let mut regions = vec![root];
    for a in 0..8 {
        regions.push(root.enter(a));
        for b in 0..8 {
            regions.push(root.enter(a).enter(b));
        }
    }
    regions
}

/// The codes among `codes` that lie in the region reached by `path`.
fn codes_in(codes: &[u8], path: &[usize]) -> Vec<u8> {
    let mut found = Vec::new();
    for &code in codes {
        if !found.contains(&code) && (0..path.len()).all(|level| code.get_level(level) == path[level]) {
            found.push(code);
        }
    }
    found
}

/// What a two-level tree that stores `codes` has to record for `path`.
fn expected_state(codes: &[u8], path: &[usize]) -> Interior<u8> {
    let here = codes_in(codes, path);
    if here.len() >= 2 {
        return Interior::Absent;
    }
    if !path.is_empty() && codes_in(codes, &path[..path.len() - 1]).len() < 2 {
        return Interior::Absent;
    }
    match here.first() {
        Some(&code) => Interior::Collapsed(code),
        None => Interior::Null,
    }
}

fn paths_of_two_levels() -> Vec<Vec<usize>> {
    let mut paths = vec![vec![]];
    for a in 0..8 {
        paths.push(vec![a]);
        for b in 0..8 {
            paths.push(vec![a, b]);
        }
    }
    paths
}

fn region_at(path: &[usize]) -> MortonRegion {
    let mut region = MortonRegion::default();
    for &section in path {
        region = region.enter(section);
    }
    region
}

fn states_of(tree: &Linear<u32, u8>) -> Vec<Interior<u8>> {
    regions_of_two_levels().into_iter().map(|region| tree.interior_state(region)).collect()
}

fn word(digits: &[u64]) -> u64 {
    let mut code: u64 = 0;
    for level in 0..21 {
        code = (code << 3) | digits.get(level).copied().unwrap_or(0);
    }
    code
}

#[test]
fn an_empty_tree_records_an_empty_root_and_nothing_else() {
    let tree: Linear<u32, u8> = Linear::new();
    let root = MortonRegion::default();
    assert_eq!(tree.interior_state(root), Interior::Null);
    for region in regions_of_two_levels().into_iter().skip(1) {
        assert_eq!(tree.interior_state(region), Interior::Absent);
    }
    assert_eq!(tree.lookup_leaf(0), None);
}

#[test]
fn the_default_tree_is_the_empty_tree() {
    let tree: Linear<u32, u64> = Linear::default();
    assert_eq!(tree.interior_state(MortonRegion::default()), Interior::Null);
    assert_eq!(tree.interior_state(MortonRegion::default().enter(0)), Interior::Absent);
    assert_eq!(tree.lookup_leaf(0), None);
}

#[test]
fn the_first_code_is_recorded_at_the_root() {
    let mut tree: Linear<u32, u8> = Linear::new();
    tree.insert(0o35, 9);
    assert_eq!(tree.interior_state(MortonRegion::default()), Interior::Collapsed(0o35));
    for region in regions_of_two_levels().into_iter().skip(1) {
        assert_eq!(tree.interior_state(region), Interior::Absent);
    }
    assert_eq!(tree.lookup_leaf(0o35), Some(&9));
    assert_eq!(tree.lookup_leaf(0o36), None);
}

#[test]
fn colliding_codes_part_one_level_below_their_common_octant() {
    let a: u8 = 0o35;
    let b: u8 = 0o32;
    let mut tree: Linear<&str, u8> = Linear::new();
    let root = MortonRegion::default();

    tree.insert(a, "a");
    assert_eq!(tree.interior_state(root), Interior::Collapsed(a));

    tree.insert(b, "b");
    assert_eq!(tree.interior_state(root), Interior::Absent);
    for section in 0..8 {
        let expected = if section == 3 { Interior::Absent } else { Interior::Null };
        assert_eq!(tree.interior_state(root.enter(section)), expected);
    }
    for section in 0..8 {
        let expected = match section {
            5 => Interior::Collapsed(a),
            2 => Interior::Collapsed(b),
            _ => Interior::Null,
        };
        assert_eq!(tree.interior_state(root.enter(3).enter(section)), expected);
    }
    for other in [0, 1, 2, 4, 5, 6, 7] {
        for section in 0..8 {
            assert_eq!(tree.interior_state(root.enter(other).enter(section)), Interior::Absent);
        }
    }
    assert_eq!(tree.lookup_leaf(a), Some(&"a"));
    assert_eq!(tree.lookup_leaf(b), Some(&"b"));
    assert_eq!(tree.lookup_leaf(0o33), None);
}

#[test]
fn codes_that_differ_at_the_root_part_there() {
    let mut tree: Linear<u32, u8> = Linear::new();
    tree.insert(0o10, 1);
    tree.insert(0o60, 2);
    let root = MortonRegion::default();
    assert_eq!(tree.interior_state(root), Interior::Absent);
    for section in 0..8 {
        let expected = match section {
            1 => Interior::Collapsed(0o10),
            6 => Interior::Collapsed(0o60),
            _ => Interior::Null,
        };
        assert_eq!(tree.interior_state(root.enter(section)), expected);
        for below in 0..8 {
            assert_eq!(tree.interior_state(root.enter(section).enter(below)), Interior::Absent);
        }
    }
}

#[test]
fn a_code_that_comes_down_to_an_empty_region_claims_it() {
    let mut tree: Linear<u32, u8> = Linear::new();
    tree.insert(0o00, 1);
    tree.insert(0o10, 2);
    let root = MortonRegion::default();
    assert_eq!(tree.interior_state(root.enter(5)), Interior::Null);
    tree.insert(0o52, 3);
    assert_eq!(tree.interior_state(root.enter(5)), Interior::Collapsed(0o52));
    assert_eq!(tree.interior_state(root.enter(5).enter(2)), Interior::Absent);
    assert_eq!(tree.interior_state(root.enter(0)), Interior::Collapsed(0o00));
    assert_eq!(tree.interior_state(root.enter(1)), Interior::Collapsed(0o10));
    assert_eq!(tree.interior_state(root.enter(2)), Interior::Null);
}

#[test]
fn a_code_that_comes_down_to_a_recorded_leaf_splits_only_that_region() {
    let mut tree: Linear<u32, u8> = Linear::new();
    tree.insert(0o00, 1);
    tree.insert(0o10, 2);
    tree.insert(0o01, 3);
    let root = MortonRegion::default();
    assert_eq!(tree.interior_state(root.enter(0)), Interior::Absent);
    assert_eq!(tree.interior_state(root.enter(0).enter(0)), Interior::Collapsed(0o00));
    assert_eq!(tree.interior_state(root.enter(0).enter(1)), Interior::Collapsed(0o01));
    for section in 2..8 {
        assert_eq!(tree.interior_state(root.enter(0).enter(section)), Interior::Null);
    }
    assert_eq!(tree.interior_state(root.enter(1)), Interior::Collapsed(0o10));
    assert_eq!(tree.interior_state(root.enter(1).enter(0)), Interior::Absent);
    for section in 2..8 {
        assert_eq!(tree.interior_state(root.enter(section)), Interior::Null);
    }
}

#[test]
fn the_last_payload_stored_at_a_code_is_the_one_kept() {
    let mut tree: Linear<u32, u8> = Linear::new();
    let pairs = [(0o11, 1), (0o22, 2), (0o11, 3), (0o33, 4), (0o22, 5), (0o11, 6)];
    for (code, payload) in pairs {
        tree.insert(code, payload);
    }
    assert_eq!(tree.lookup_leaf(0o11), Some(&6));
    assert_eq!(tree.lookup_leaf(0o22), Some(&5));
    assert_eq!(tree.lookup_leaf(0o33), Some(&4));
    let stored = (0..64u8).filter(|&code| tree.lookup_leaf(code).is_some()).count();
    assert_eq!(stored, 3);
}

#[test]
fn storing_at_a_code_again_leaves_the_interior_as_it_was() {
    let mut tree: Linear<u32, u8> = Linear::new();
    for (code, payload) in [(0o35, 1), (0o32, 2), (0o70, 3), (0o71, 4)] {
        tree.insert(code, payload);
    }
    let before = states_of(&tree);
    tree.insert(0o32, 20);
    assert_eq!(states_of(&tree), before);
    assert_eq!(tree.lookup_leaf(0o32), Some(&20));
    assert_eq!(tree.lookup_leaf(0o35), Some(&1));
    assert_eq!(tree.lookup_leaf(0o70), Some(&3));
    assert_eq!(tree.lookup_leaf(0o71), Some(&4));

    let mut single: Linear<u32, u8> = Linear::new();
    single.insert(0o44, 1);
    let before = states_of(&single);
    single.insert(0o44, 2);
    assert_eq!(states_of(&single), before);
    assert_eq!(single.lookup_leaf(0o44), Some(&2));
}

#[test]
fn every_order_of_insertion_gives_the_same_tree() {
    let pairs: [(u8, u32); 5] = [(0o35, 1), (0o32, 2), (0o70, 3), (0o71, 4), (0o00, 5)];
    let orders: [[usize; 5]; 6] = [
        [0, 1, 2, 3, 4],
        [4, 3, 2, 1, 0],
        [2, 0, 4, 1, 3],
        [1, 0, 3, 2, 4],
        [3, 4, 0, 2, 1],
        [4, 0, 1, 2, 3],
    ];
    let mut first: Option<Vec<Interior<u8>>> = None;
    for order in orders {
        let mut tree: Linear<u32, u8> = Linear::new();
        for index in order {
            tree.insert(pairs[index].0, pairs[index].1);
        }
        for (code, payload) in pairs {
            assert_eq!(tree.lookup_leaf(code), Some(&payload));
        }
        let states = states_of(&tree);
        match &first {
            None => first = Some(states),
            Some(expected) => assert_eq!(&states, expected),
        }
    }
}

#[test]
fn the_interior_is_what_the_stored_codes_call_for() {
    let codes: [u8; 9] = [0o35, 0o32, 0o70, 0o71, 0o00, 0o35, 0o77, 0o07, 0o34];
    let mut tree: Linear<u32, u8> = Linear::new();
    for (count, &code) in codes.iter().enumerate() {
        tree.insert(code, count as u32);
        for path in paths_of_two_levels() {
            assert_eq!(
                tree.interior_state(region_at(&path)),
                expected_state(&codes[..count + 1], &path)
            );
        }
    }
}

#[test]
fn a_full_two_level_tree_records_every_leaf_at_the_bottom() {
    let mut tree: Linear<u32, u8> = Linear::new();
    for code in 0..64u8 {
        tree.insert(code, code as u32 + 100);
    }
    let root = MortonRegion::default();
    assert_eq!(tree.interior_state(root), Interior::Absent);
    for a in 0..8usize {
        assert_eq!(tree.interior_state(root.enter(a)), Interior::Absent);
        for b in 0..8usize {
            let code = (a * 8 + b) as u8;
            assert_eq!(tree.interior_state(root.enter(a).enter(b)), Interior::Collapsed(code));
            assert_eq!(tree.lookup_leaf(code), Some(&(code as u32 + 100)));
        }
    }
}

#[test]
fn two_word_codes_part_where_their_digits_first_differ() {
    let a = word(&[1, 2, 3, 4, 5, 6, 7]);
    let b = word(&[1, 2, 3, 4, 5, 0, 7]);
    let mut tree: Linear<&str, u64> = Linear::new();
    tree.insert(a, "a");
    tree.insert(b, "b");

    let mut shared = MortonRegion::default();
    for (level, section) in [1usize, 2, 3, 4, 5].into_iter().enumerate() {
        assert_eq!(tree.interior_state(shared), Interior::Absent);
        for sibling in 0..8 {
            if sibling != section {
                assert_eq!(tree.interior_state(shared.enter(sibling)), Interior::Null);
            }
        }
        shared = shared.enter(section);
        assert_eq!(shared.level(), level + 1);
    }
    assert_eq!(tree.interior_state(shared), Interior::Absent);
    for section in 0..8 {
        let expected = match section {
            6 => Interior::Collapsed(a),
            0 => Interior::Collapsed(b),
            _ => Interior::Null,
        };
        assert_eq!(tree.interior_state(shared.enter(section)), expected);
        for below in 0..8 {
            assert_eq!(tree.interior_state(shared.enter(section).enter(below)), Interior::Absent);
        }
    }
    assert_eq!(tree.interior_state(shared.enter(6).enter(7)), Interior::Absent);
    assert_eq!(tree.interior_state(MortonRegion::containing(a, 21)), Interior::Absent);
}

#[test]
fn codes_that_differ_only_in_the_last_digit_part_at_full_depth() {
    let a: u64 = 0o5;
    let b: u64 = 0o6;
    let mut tree: Linear<u32, u64> = Linear::new();
    tree.insert(a, 1);
    tree.insert(b, 2);
    let mut shared = MortonRegion::default();
    for _ in 0..20 {
        assert_eq!(tree.interior_state(shared), Interior::Absent);
        assert_eq!(tree.interior_state(shared.enter(1)), Interior::Null);
        shared = shared.enter(0);
    }
    assert_eq!(tree.interior_state(shared), Interior::Absent);
    assert_eq!(tree.interior_state(shared.enter(5)), Interior::Collapsed(a));
    assert_eq!(tree.interior_state(shared.enter(6)), Interior::Collapsed(b));
    assert_eq!(tree.interior_state(shared.enter(0)), Interior::Null);
    assert_eq!(tree.lookup_leaf(a), Some(&1));
    assert_eq!(tree.lookup_leaf(b), Some(&2));
    assert_eq!(tree.lookup_leaf(0o7), None);
}

#[test]
fn double_word_codes_part_at_the_bottom_of_forty_two_levels() {
    let a: u128 = (3 << 123) | 1;
    let b: u128 = (3 << 123) | 2;
    let mut tree: Linear<u32, u128> = Linear::new();
    tree.insert(a, 1);
    tree.insert(b, 2);
    let mut shared = MortonRegion::default().enter(3);
    for _ in 1..41 {
        assert_eq!(tree.interior_state(shared), Interior::Absent);
        shared = shared.enter(0);
    }
    assert_eq!(shared.level(), 41);
    assert_eq!(tree.interior_state(shared.enter(1)), Interior::Collapsed(a));
    assert_eq!(tree.interior_state(shared.enter(2)), Interior::Collapsed(b));
    assert_eq!(tree.interior_state(shared.enter(3)), Interior::Null);
    assert_eq!(tree.lookup_leaf(a), Some(&1));
    assert_eq!(tree.lookup_leaf(b), Some(&2));
}

#[test]
fn a_value_that_is_no_code_is_never_found() {
    let mut tree: Linear<u32, u8> = Linear::new();
    tree.insert(0o35, 1);
    assert_eq!(tree.lookup_leaf(0o35 | 0x40), None);
    assert_eq!(tree.lookup_leaf(0o35 | 0x80), None);
    assert_eq!(tree.lookup_leaf(0xff), None);
    let mut words: Linear<u32, u64> = Linear::new();
    words.insert(7, 1);
    assert_eq!(words.lookup_leaf(7 | (1 << 63)), None);
    assert_eq!(words.lookup_leaf(u64::MAX), None);
}

#[test]
fn extending_is_inserting_one_pair_after_the_other() {
    let pairs: Vec<(u8, u32)> = vec![(0o35, 1), (0o32, 2), (0o35, 3), (0o70, 4), (0o32, 5)];
    let mut loaded: Linear<u32, u8> = Linear::new();
    loaded.extend(pairs.clone());
    let mut built: Linear<u32, u8> = Linear::new();
    for (code, payload) in pairs {
        built.insert(code, payload);
    }
    assert_eq!(states_of(&loaded), states_of(&built));
    for code in 0..64u8 {
        assert_eq!(loaded.lookup_leaf(code), built.lookup_leaf(code));
    }
    assert_eq!(loaded.lookup_leaf(0o35), Some(&3));
    assert_eq!(loaded.lookup_leaf(0o32), Some(&5));
    assert_eq!(loaded.lookup_leaf(0o70), Some(&4));
}

#[test]
fn extending_by_nothing_changes_nothing() {
    let mut tree: Linear<u32, u8> = Linear::new();
    tree.insert(0o12, 1);
    let before = states_of(&tree);
    tree.extend(Vec::new());
    assert_eq!(states_of(&tree), before);
    assert_eq!(tree.lookup_leaf(0o12), Some(&1));
}

#[test]
fn a_clone_is_a_tree_of_its_own() {
    let mut tree: Linear<u32, u8> = Linear::new();
    tree.insert(0o35, 1);
    tree.insert(0o32, 2);
    let before = states_of(&tree);
    let mut copy = tree.clone();
    assert_eq!(states_of(&copy), before);
    assert_eq!(copy.lookup_leaf(0o35), Some(&1));
    assert_eq!(copy.lookup_leaf(0o32), Some(&2));

    copy.insert(0o70, 3);
    copy.insert(0o35, 10);
    assert_eq!(states_of(&tree), before);
    assert_eq!(tree.lookup_leaf(0o70), None);
    assert_eq!(tree.lookup_leaf(0o35), Some(&1));
    assert_eq!(copy.lookup_leaf(0o70), Some(&3));
    assert_eq!(copy.lookup_leaf(0o35), Some(&10));
    assert_eq!(copy.interior_state(MortonRegion::default().enter(7)), Interior::Collapsed(0o70));
}

#[test]
fn a_copy_of_a_state_is_the_same_state() {
    let state: Interior<u8> = Interior::Collapsed(0o35);
    let copy = state;
    assert_eq!(state.clone(), copy);
    assert_eq!(Interior::<u8>::Null.clone(), Interior::Null);
    assert_eq!(Interior::<u8>::Absent.clone(), Interior::Absent);
    assert_ne!(Interior::Collapsed(0o35u8), Interior::Collapsed(0o36u8));
    assert_ne!(Interior::<u8>::Null, Interior::Absent);
}
