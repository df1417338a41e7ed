use ll::ordered::{has_none, key_listing, listing};
use std::collections::{BTreeMap, BTreeSet};

#[test]
fn sets_are_listed_in_increasing_order() {
    let mut set = BTreeSet::new();
    assert!(has_none(&set));
    assert_eq!(listing(&set), Vec::<u64>::new());
    for x in [7u64, 2, 9, 2, 0, u64::MAX] {
        set.insert(x);
    }
    assert!(!has_none(&set));
    assert_eq!(listing(&set), vec![0, 2, 7, 9, u64::MAX]);
    set.remove(&7);
    assert_eq!(listing(&set), vec![0, 2, 9, u64::MAX]);
}

#[test]
fn keys_are_listed_in_increasing_order() {
    let mut map: BTreeMap<u64, &str> = BTreeMap::new();
    assert_eq!(key_listing(&map), Vec::<u64>::new());
    map.insert(5, "five");
    map.insert(1, "one");
    map.insert(3, "three");
    map.insert(1, "uno");
    assert_eq!(key_listing(&map), vec![1, 3, 5]);
}
