use std::collections::BTreeMap;

use quadb::window::{key_range, storage_key, WindowCache};

/// A stand-in for the ordered store: key to payload.
struct Store {
    records: BTreeMap<u64, u32>,
}

impl Store {
    fn new() -> Self {
        Store { records: BTreeMap::new() }
    }

    fn insert(&mut self, position: &[u16; 3], value: u32) {
        self.records.insert(storage_key(position), value);
    }

    fn remove(&mut self, position: &[u16; 3]) {
        self.records.remove(&storage_key(position));
    }

    fn stream(&self, cache: &mut WindowCache<3, u32>, center: &[u16; 3], radius: usize) {
        let (lo, hi) = key_range(center, radius);
        let scanned: Vec<(u64, u32)> = self.records.range(lo..=hi).map(|(k, v)| (*k, *v)).collect();
        cache.refresh(center, radius, scanned);
    }
}

#[test]
fn insert_get_remove_roundtrip() {
    let mut db = Store::new();
    let mut cache = WindowCache::<3, u32>::new();

    let pos: [u16; 3] = [10, 20, 30];
    let value: u32 = 42;

    db.insert(&pos, value);
    db.stream(&mut cache, &pos, 1);
    assert_eq!(cache.get(&pos).copied(), Some(value));

    db.remove(&pos);
    db.stream(&mut cache, &pos, 1);
    assert!(cache.get(&pos).is_none());

    db.stream(&mut cache, &pos, 1);
    assert!(cache.get(&pos).is_none());
}

#[test]
fn stream_populates_octree() {
    let mut db = Store::new();
    let mut cache = WindowCache::<3, u32>::new();

    let points = vec![
        ([0u16, 0, 0], 1u32),
        ([1u16, 1, 1], 2u32),
        ([5u16, 5, 5], 3u32),
        ([10u16, 10, 10], 4u32),
    ];
    for (p, v) in &points {
        db.insert(p, *v);
    }

    db.stream(&mut cache, &[1u16, 1, 1], 1);
    assert_eq!(cache.get(&[0u16, 0, 0]).copied(), Some(1u32));
    assert_eq!(cache.get(&[1u16, 1, 1]).copied(), Some(2u32));
    assert!(cache.get(&[5u16, 5, 5]).is_none());

    db.stream(&mut cache, &[5u16, 5, 5], 10);
    assert_eq!(cache.get(&[10u16, 10, 10]).copied(), Some(4u32));
}

#[test]
fn load_on_miss_reads_db() {
    let mut db = Store::new();
    let mut cache = WindowCache::<3, u32>::new();

    let pos: [u16; 3] = [7, 8, 9];
    let value: u32 = 99;
    db.insert(&pos, value);
    assert!(cache.get(&pos).is_none());

    db.stream(&mut cache, &pos, 0);
    assert_eq!(cache.get(&pos).copied(), Some(value));
}

#[test]
fn stream_filters_keys_outside_the_window() {
    let mut db = Store::new();
    let mut cache = WindowCache::<3, u32>::new();
    // a window whose key range also covers points outside it
    let center = [1u16, 2, 1];
    let (lo, hi) = key_range(&center, 1);
    let outside = [3u16, 0, 0];
    let k = storage_key(&outside);
    assert!(lo <= k && k <= hi);
    db.insert(&outside, 5);
    db.insert(&[2u16, 3, 2], 6);
    db.stream(&mut cache, &center, 1);
    assert!(cache.get(&outside).is_none());
    assert_eq!(cache.get(&[2u16, 3, 2]).copied(), Some(6));
    assert_eq!(cache.octree.len(), 1);
}

#[test]
fn stream_discards_previous_window() {
    let mut db = Store::new();
    let mut cache = WindowCache::<3, u32>::new();
    db.insert(&[0u16, 0, 0], 1);
    db.insert(&[100u16, 100, 100], 2);
    db.stream(&mut cache, &[0u16, 0, 0], 2);
    assert_eq!(cache.get(&[0u16, 0, 0]).copied(), Some(1));
    db.stream(&mut cache, &[100u16, 100, 100], 2);
    assert!(cache.get(&[0u16, 0, 0]).is_none());
    assert_eq!(cache.get(&[100u16, 100, 100]).copied(), Some(2));
}

#[test]
fn refresh_ignores_keys_beyond_the_codec() {
    let mut cache = WindowCache::<2, u32>::new();
    cache.refresh(&[0u16, 0], 65535, vec![(1u64 << 40, 1), (storage_key(&[3u16, 4]), 2)]);
    assert_eq!(cache.octree.len(), 1);
    assert_eq!(cache.get(&[3u16, 4]).copied(), Some(2));
}

#[test]
fn wide_window_holds_many_points() {
    let mut db = Store::new();
    let mut cache = WindowCache::<3, u32>::new();
    let mut n = 0u32;
    for x in 0..5u16 {
        for y in 0..5u16 {
            db.insert(&[x, y, x + y], n);
            n += 1;
        }
    }
    db.stream(&mut cache, &[2u16, 2, 4], 2);
    // every point qualifies except those whose x + y lies outside 2..=6
    let expected = (0..5u16)
        .flat_map(|x| (0..5u16).map(move |y| (x, y)))
        .filter(|(x, y)| (2..=6).contains(&(x + y)))
        .count();
    assert_eq!(cache.octree.len(), expected);
}
