use linear_octree::{MortonRegion, MortonRegionMap};

#[test]
fn the_root_has_level_zero() {
    assert_eq!(MortonRegion::default().level(), 0);
}

#[test]
fn entering_goes_one_level_down() {
    let root = MortonRegion::default();
    assert_eq!(root.enter(4).level(), 1);
    assert_eq!(root.enter(4).enter(0).level(), 2);
}

#[test]
fn regions_are_equal_when_their_paths_are() {
    let root = MortonRegion::default();
    assert_eq!(root.enter(3).enter(5), root.enter(3).enter(5));
    assert_ne!(root.enter(3).enter(5), root.enter(5).enter(3));
    assert_ne!(root.enter(0), root);
    assert_ne!(root.enter(0).enter(0), root.enter(0));
    assert_ne!(root.enter(1), root.enter(0).enter(1));
}

#[test]
fn the_region_containing_a_code_is_reached_by_its_digits() {
    let root = MortonRegion::default();
    assert_eq!(MortonRegion::containing(0o35u8, 0), root);
    assert_eq!(MortonRegion::containing(0o35u8, 1), root.enter(3));
    assert_eq!(MortonRegion::containing(0o35u8, 2), root.enter(3).enter(5));
    let code: u64 = (5 << 60) | (2 << 57) | 7;
    assert_eq!(MortonRegion::containing(code, 2), root.enter(5).enter(2));
    let mut leaf = root.enter(5).enter(2);
    for _ in 2..20 {
        leaf = leaf.enter(0);
    }
    assert_eq!(MortonRegion::containing(code, 21), leaf.enter(7));
}

#[test]
fn a_region_can_be_forty_two_levels_deep() {
    let mut region = MortonRegion::default();
    for _ in 0..42 {
        region = region.enter(7);
    }
    assert_eq!(region.level(), 42);
    assert_eq!(region, MortonRegion::containing((1u128 << 126) - 1, 42));
}

#[test]
fn a_region_map_keeps_one_value_for_each_region() {
    let root = MortonRegion::default();
    let mut map: MortonRegionMap<u32> = MortonRegionMap::new();
    assert_eq!(map.get(&root), None);
    assert!(!map.contains_key(&root));

    assert_eq!(map.insert(root, 1), None);
    assert_eq!(map.insert(root.enter(0), 2), None);
    assert_eq!(map.insert(root.enter(0).enter(0), 3), None);
    assert_eq!(map.insert(root.enter(1), 4), None);
    assert_eq!(map.get(&root), Some(&1));
    assert_eq!(map.get(&root.enter(0)), Some(&2));
    assert_eq!(map.get(&root.enter(0).enter(0)), Some(&3));
    assert_eq!(map.get(&root.enter(1)), Some(&4));
    assert_eq!(map.get(&root.enter(0).enter(1)), None);

    assert_eq!(map.insert(root.enter(0), 20), Some(2));
    assert_eq!(map.get(&root.enter(0)), Some(&20));
    assert_eq!(map.get(&root), Some(&1));
}

#[test]
fn removing_from_a_region_map_takes_one_entry_out() {
    let root = MortonRegion::default();
    let mut map: MortonRegionMap<&str> = MortonRegionMap::default();
    map.insert(root.enter(7), "seven");
    map.insert(root.enter(7).enter(7), "deeper");
    assert_eq!(map.remove(&root.enter(7)), Some("seven"));
    assert_eq!(map.remove(&root.enter(7)), None);
    assert!(!map.contains_key(&root.enter(7)));
    assert!(map.contains_key(&root.enter(7).enter(7)));
    assert_eq!(map.get(&root.enter(7).enter(7)), Some(&"deeper"));
}

#[test]
fn a_cloned_region_map_is_a_map_of_its_own() {
    let root = MortonRegion::default();
    let mut map: MortonRegionMap<u32> = MortonRegionMap::new();
    map.insert(root, 1);
    map.insert(root.enter(2), 2);
    let mut copy = map.clone();
    assert_eq!(copy.get(&root), Some(&1));
    assert_eq!(copy.get(&root.enter(2)), Some(&2));
    copy.insert(root.enter(3), 3);
    copy.remove(&root);
    assert_eq!(map.get(&root), Some(&1));
    assert_eq!(map.get(&root.enter(3)), None);
    assert_eq!(copy.get(&root), None);
    assert_eq!(copy.get(&root.enter(3)), Some(&3));
}
