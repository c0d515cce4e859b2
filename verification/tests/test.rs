//! The original end-to-end exercises of the map: random workloads, bulk
//! insertion with replacement, small hand-checked sequences, and a full
//! in-order iteration against a sorted log.

use btree_rewrite::BTreeMap;
use rand::Rng;
use rand::thread_rng;

#[test]
pub fn test_rand_large() {
    let n: usize = 50;
    let mut map = BTreeMap::new();
    // setup
    let mut rng = thread_rng();
    let mut log = Vec::new();

    for _ in 0..n {
        let i = rng.gen::<usize>() % (2 * n);
        if !map.contains_key(&i) {
            log.push(i);
        }
        map.insert(i, i);
    }

    for i in log {
        assert_eq!(map.get(&i).cloned(), Some(i));
    }
}

#[test]
fn test_basic_large() {
    let mut map = BTreeMap::new();
    let size = 10000;
    assert_eq!(map.len(), 0);

    for i in 0..size {
        assert_eq!(map.insert(i, 10 * i), None);
        assert_eq!(map.len(), i + 1);
    }

    for i in 0..size {
        assert_eq!(map.get(&i).unwrap(), &(i * 10));
    }

    for i in size..size * 2 {
        assert_eq!(map.get(&i), None);
    }

    for i in 0..size {
        assert_eq!(map.insert(i, 100 * i), Some(10 * i));
        assert_eq!(map.len(), size);
    }

    for i in 0..size {
        assert_eq!(map.get(&i).unwrap(), &(i * 100));
    }
}

#[test]
fn test_basic_small() {
    let mut map = BTreeMap::new();
    assert_eq!(map.get(&1), None);
    assert_eq!(map.insert(1, 1), None);
    assert_eq!(map.get(&1), Some(&1));
    assert_eq!(map.insert(1, 2), Some(1));
    assert_eq!(map.get(&1), Some(&2));
    assert_eq!(map.insert(2, 4), None);
    assert_eq!(map.get(&2), Some(&4));
}

#[test]
fn test_iter() {
    let size = 10000;

    let mut rng = thread_rng();

    // Forwards
    let mut map = BTreeMap::new();
    let mut log: Vec<(usize, usize)> = Vec::new();
    for _ in 0..size {
        let key = rng.gen();
        let val = rng.gen();
        if !map.contains_key(&key) {
            log.push((key, val));
        }
        map.insert(key, val);
    }
    log.sort();

    let mut iter = map.iter();
    for (i, kv) in log.into_iter().enumerate() {
        println!("{}: kv={:?}", i, kv);
        let (k, v) = iter.next().unwrap();
        assert_eq!((k, *v), kv);
    }
    assert_eq!(iter.next(), None);
}
