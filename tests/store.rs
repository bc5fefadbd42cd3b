use redb::{Database, ReadableDatabase, ReadableTable, TableDefinition};
use tempfile::tempdir;

use quadb::window::{key_range, storage_key, WindowCache};

const TABLE: TableDefinition<'static, u64, &'static [u8]> = TableDefinition::new("data");

fn put(db: &Database, position: &[u16; 3], value: u32) {
    let bytes = bincode::encode_to_vec(value, bincode::config::standard()).unwrap();
    let txn = db.begin_write().unwrap();
    {
        let mut table = txn.open_table(TABLE).unwrap();
        table.insert(storage_key(position), bytes.as_slice()).unwrap();
    }
    txn.commit().unwrap();
}

fn delete(db: &Database, position: &[u16; 3]) {
    let txn = db.begin_write().unwrap();
    {
        let mut table = txn.open_table(TABLE).unwrap();
        table.remove(storage_key(position)).unwrap();
    }
    txn.commit().unwrap();
}

fn load(db: &Database, cache: &mut WindowCache<3, u32>, center: &[u16; 3], radius: usize) {
    let (lo, hi) = key_range(center, radius);
    let txn = db.begin_read().unwrap();
    let table = txn.open_table(TABLE).unwrap();
    let mut scanned = Vec::new();
    for entry in table.range(lo..=hi).unwrap() {
        let (k, v) = entry.unwrap();
        let (value, _): (u32, usize) = bincode::decode_from_slice(v.value(), bincode::config::standard()).unwrap();
        scanned.push((k.value(), value));
    }
    cache.refresh(center, radius, scanned);
}

#[test]
fn redb_window_load_matches_scenarios() {
    let dir = tempdir().unwrap();
    let db = Database::create(dir.path().join("streamdb.redb")).unwrap();
    let mut cache = WindowCache::<3, u32>::new();

    put(&db, &[0, 0, 0], 1);
    put(&db, &[1, 1, 1], 2);
    put(&db, &[5, 5, 5], 3);
    put(&db, &[10, 10, 10], 4);

    load(&db, &mut cache, &[1, 1, 1], 1);
    assert_eq!(cache.get(&[0, 0, 0]).copied(), Some(1));
    assert_eq!(cache.get(&[1, 1, 1]).copied(), Some(2));
    assert!(cache.get(&[5, 5, 5]).is_none());

    load(&db, &mut cache, &[5, 5, 5], 10);
    assert_eq!(cache.get(&[10, 10, 10]).copied(), Some(4));
    assert_eq!(cache.octree.len(), 4);

    delete(&db, &[10, 10, 10]);
    load(&db, &mut cache, &[10, 10, 10], 1);
    assert!(cache.get(&[10, 10, 10]).is_none());
}
