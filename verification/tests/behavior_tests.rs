use consec_vec_map::ConsecVecMap;
use consec_vec_map::Entry;

#[test]
fn empty_map_reports_nothing() {
    let mut map: ConsecVecMap<i32> = ConsecVecMap::new();
    assert!(map.is_empty());
    assert_eq!(map.len(), 0);
    assert_eq!(map.window_len(), 0);
    assert!(map.get(0).is_none());
    assert!(map.get_mut(0).is_none());
    assert!(!map.contains_key(-5));
    assert!(map.remove(3).is_none());
    assert!(map.is_empty());
}

#[test]
fn with_capacity_starts_empty() {
    let mut map: ConsecVecMap<u8> = ConsecVecMap::with_capacity(64);
    assert!(map.is_empty());
    assert_eq!(map.len(), 0);
    assert!(map.insert(1000, 9).is_none());
    assert_eq!(map.get(1000), Some(&9));
}

#[test]
fn round_trip_insert_get_remove() {
    let mut map = ConsecVecMap::new();
    assert!(map.insert(-17, "v").is_none());
    assert_eq!(map.get(-17), Some(&"v"));
    assert_eq!(map.remove(-17), Some("v"));
    assert!(map.get(-17).is_none());
    assert!(!map.contains_key(-17));
}

#[test]
fn overwrite_returns_prior_and_keeps_len() {
    let mut map = ConsecVecMap::new();
    assert_eq!(map.insert(5, 1), None);
    assert_eq!(map.len(), 1);
    assert_eq!(map.insert(5, 2), Some(1));
    assert_eq!(map.len(), 1);
    assert_eq!(map.get(5), Some(&2));
}

#[test]
fn window_spans_after_sparse_inserts() {
    let mut map = ConsecVecMap::new();
    assert!(map.insert(0, 'x').is_none());
    assert!(map.insert(75, 'y').is_none());
    assert!(map.insert(74, 'z').is_none());
    assert_eq!(map.len(), 3);
    assert_eq!(map.window_len(), 76);
    assert_eq!(map.get(0), Some(&'x'));
    assert_eq!(map.get(75), Some(&'y'));
    assert_eq!(map.get(74), Some(&'z'));
}

#[test]
fn gap_inside_window_is_absent() {
    let mut map = ConsecVecMap::new();
    map.insert(5, 50);
    map.insert(10, 100);
    assert_eq!(map.window_len(), 6);
    assert!(map.get(7).is_none());
    assert!(!map.contains_key(7));
}

#[test]
fn gap_can_be_filled_and_refilled() {
    let mut map = ConsecVecMap::new();
    map.insert(0, 1);
    map.insert(10, 2);
    assert_eq!(map.insert(5, 3), None);
    assert_eq!(map.len(), 3);
    assert_eq!(map.insert(5, 4), Some(3));
    assert_eq!(map.len(), 3);
    assert_eq!(map.window_len(), 11);
}

#[test]
fn removal_trims_both_ends() {
    let mut map = ConsecVecMap::new();
    map.insert(0, 0);
    map.insert(1, 10);
    map.insert(2, 20);
    assert_eq!(map.remove(1), Some(10));
    assert_eq!(map.window_len(), 3);
    assert_eq!(map.remove(0), Some(0));
    // the leading gap left at key 1 is trimmed together with key 0's slot
    assert_eq!(map.window_len(), 1);
    assert_eq!(map.len(), 1);
    assert_eq!(map.get(2), Some(&20));
    assert_eq!(map.remove(2), Some(20));
    assert_eq!(map.window_len(), 0);
    assert!(map.is_empty());
}

#[test]
fn shrink_to_empty_forgets_old_anchor() {
    let mut map = ConsecVecMap::new();
    map.insert(42, 420);
    assert_eq!(map.remove(42), Some(420));
    assert!(map.is_empty());
    // a fresh window is anchored at the new key, not at the stale one
    assert!(map.insert(7, 70).is_none());
    assert_eq!(map.window_len(), 1);
    assert_eq!(map.get(7), Some(&70));
    assert!(map.get(42).is_none());
}

#[test]
fn get_mut_writes_in_place() {
    let mut map = ConsecVecMap::new();
    map.insert(3, 30);
    map.insert(4, 40);
    if let Some(v) = map.get_mut(3) {
        *v = 33;
    } else {
        panic!("key 3 should be present");
    }
    assert_eq!(map.get(3), Some(&33));
    assert_eq!(map.get(4), Some(&40));
    assert_eq!(map.len(), 2);
    assert!(map.get_mut(5).is_none());
}

#[test]
fn iter_yields_ascending_exact_keys() {
    let mut map = ConsecVecMap::new();
    map.insert(3, 30);
    map.insert(-2, 20);
    map.insert(7, 70);
    let mut it = map.iter();
    let mut seen: Vec<(isize, i32)> = Vec::new();
    while let Some((k, v)) = it.next() {
        seen.push((k, *v));
    }
    assert_eq!(seen, vec![(-2, 20), (3, 30), (7, 70)]);
    // the traversal is exhausted, not restartable
    assert!(it.next().is_none());
    let mut again = map.iter();
    assert_eq!(again.next().map(|(k, v)| (k, *v)), Some((-2, 20)));
}

#[test]
fn next_mut_walks_ascending_and_mutates() {
    let mut map = ConsecVecMap::new();
    map.insert(1, 10);
    map.insert(5, 50);
    map.insert(3, 30);
    let mut seen: Vec<isize> = Vec::new();
    let mut from = isize::MIN;
    loop {
        let step = match map.next_mut(from) {
            Some((k, v)) => {
                *v += 1;
                k
            }
            None => break,
        };
        seen.push(step);
        if step == isize::MAX {
            break;
        }
        from = step + 1;
    }
    assert_eq!(seen, vec![1, 3, 5]);
    assert_eq!(map.get(1), Some(&11));
    assert_eq!(map.get(3), Some(&31));
    assert_eq!(map.get(5), Some(&51));
    assert!(map.next_mut(6).is_none());
}

#[test]
fn keys_are_sorted_and_exact() {
    let mut map = ConsecVecMap::new();
    map.insert(10, 'a');
    map.insert(-5, 'b');
    map.insert(0, 'c');
    map.insert(10, 'd');
    assert_eq!(map.keys(), vec![-5, 0, 10]);
    map.remove(0);
    assert_eq!(map.keys(), vec![-5, 10]);
    let empty: ConsecVecMap<char> = ConsecVecMap::new();
    assert!(empty.keys().is_empty());
}

#[test]
fn iter_on_empty_map_is_empty() {
    let map: ConsecVecMap<i32> = ConsecVecMap::new();
    let mut it = map.iter();
    assert!(it.next().is_none());
}

#[test]
fn negative_and_positive_keys() {
    let mut map = ConsecVecMap::new();
    map.insert(-3, 1);
    map.insert(2, 2);
    assert_eq!(map.window_len(), 6);
    assert_eq!(map.len(), 2);
    assert!(map.contains_key(-3));
    assert!(map.contains_key(2));
    assert!(!map.contains_key(0));
}

#[test]
fn entry_observers() {
    let full = Entry::Full(9);
    assert!(full.is_full());
    assert!(!full.is_empty());
    assert_eq!(full.to_option(), Some(9));
    let empty: Entry<i32> = Entry::Empty;
    assert!(empty.is_empty());
    assert!(!empty.is_full());
    assert_eq!(empty.to_option(), None);
}
