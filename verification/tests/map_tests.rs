use consec_vec_map::ConsecVecMap;
use rand::seq::SliceRandom;

#[test]
fn single_insert() {
    let mut map = ConsecVecMap::new();
    map.insert(0, 10);
    assert!(!map.is_empty());
    assert!(map.len() == 1);
    assert!(map.contains_key(0));
    assert!(map.get(0) == Some(&10));
    assert!(map.get_mut(0) == Some(&mut 10));
    assert!(map.remove(0) == Some(10));
    assert!(map.is_empty());
    assert!(map.len() == 0);
}

#[test]
fn multi_insert() {
    for x in 0isize..100 {
        let mut map = ConsecVecMap::new();
        let mut count: usize = 0;
        for i in (x + 1)..(x + 10) {
            let mut k = i * i;
            count += 1;

            assert!(map.insert(i, k).is_none());
            assert!(!map.is_empty());
            assert_eq!(map.len(), count);
            assert!(map.contains_key(i));
            assert!(map.get(i) == Some(&k));
            assert!(map.get_mut(i) == Some(&mut k));
        }

        for i in (x + 1)..(x + 10) {
            let k = i * i;
            count -= 1;

            assert!(map.remove(i) == Some(k));
            println!("{:#?}", map);
            assert!(!map.contains_key(i));
            assert!(map.get(i).is_none());
            assert_eq!(map.len(), count);
        }

        assert!(map.is_empty());
        assert!(map.len() == 0);
    }
}

#[test]
fn regression() {
    let mut map = ConsecVecMap::new();
    assert!(map.insert(0, ()).is_none());
    assert!(map.insert(75, ()).is_none());
    println!("{:?}", map);
    println!("{:?}", map.len());
    println!("{:?}", map.window_len());
    assert!(map.insert(74, ()).is_none());
}

#[test]
fn fuzz() {
    for _ in 0..100 {
        println!("============");
        let mut random_vec: Vec<isize> = (-100..100).collect();
        let mut map = ConsecVecMap::new();
        let mut iter: usize = 0;
        random_vec.shuffle(&mut rand::thread_rng());

        for i in random_vec.iter().cloned() {
            let i_3 = i * i * i;
            iter += 1;

            assert_eq!(map.insert(i, i_3), None);
            assert!(!map.is_empty());
            assert_eq!(map.len(), iter);
        }

        assert_eq!(map.window_len(), iter);

        for i in random_vec.iter().cloned() {
            let i_3 = i * i * i;
            iter -= 1;

            assert_eq!(map.remove(i), Some(i_3));
            assert_eq!(map.len(), iter);
        }
        assert_eq!(map.len(), 0);
        assert!(map.is_empty());
    }
}
