use std::collections::{BTreeMap, BTreeSet};
use strprox::cache::{Cache, PrioMap};

#[test]
fn prio_map_add_and_remove() {
    let mut prio: BTreeMap<u64, BTreeSet<usize>> = BTreeMap::new();
    prio.add(5, 1);
    prio.add(5, 2);
    prio.add(7, 3);
    assert_eq!(prio.get(&5), Some(&BTreeSet::from([1, 2])));
    assert!(prio.rm(&5, &1));
    assert_eq!(prio.get(&5), Some(&BTreeSet::from([2])));
    // removing from a time that is not there reports it and changes nothing
    assert!(!prio.rm(&6, &2));
    assert_eq!(prio.len(), 2);
    // the set of a time stays, even when empty
    assert!(prio.rm(&7, &3));
    assert_eq!(prio.get(&7), Some(&BTreeSet::new()));
}

#[test]
fn visit_creates_then_restores_states() {
    let mut cache = Cache::new();
    let prefix: Vec<char> = "a".chars().collect();
    let state = cache.visit("ab", &prefix);
    cache.restore(&prefix, state);
    // a second visit finds the state that was stored
    let again = cache.visit("ab", &prefix);
    cache.restore(&prefix, again);
    let whole: Vec<char> = "ab".chars().collect();
    let state = cache.visit("ab", &whole);
    cache.restore(&whole, state);
}
