use std::collections::HashMap;

use kvs::error::KvsError;
use kvs::store::{read_value, CommandPos, LogStore, COMPACTION_THRESHOLD};

/// Segments kept in memory, standing in for the files of a directory.
struct Disk {
    segments: HashMap<u64, Vec<u8>>,
}

impl Disk {
    fn new() -> Disk {
        Disk { segments: HashMap::new() }
    }

    fn append(&mut self, gen: u64, bytes: &[u8]) {
        self.segments.entry(gen).or_default().extend_from_slice(bytes);
    }

    fn read(&self, p: CommandPos) -> Vec<u8> {
        let seg = &self.segments[&p.gen];
        seg[p.pos as usize..(p.pos + p.len) as usize].to_vec()
    }

    fn total(&self) -> usize {
        self.segments.values().map(|s| s.len()).sum()
    }
}

fn open(disk: &mut Disk) -> LogStore {
    let mut store = LogStore::new();
    let mut gens: Vec<u64> = disk.segments.keys().copied().collect();
    gens.sort();
    for g in gens {
        store.replay(g, &disk.segments[&g]).unwrap();
    }
    let g = store.open_writer().unwrap();
    disk.segments.insert(g, Vec::new());
    store
}

fn put(store: &mut LogStore, disk: &mut Disk, key: &str, value: &str) -> bool {
    let p = store.prepare_put(key.to_string(), value.to_string()).unwrap();
    disk.append(store.writer_gen(), p.record());
    store.commit(p)
}

fn remove(store: &mut LogStore, disk: &mut Disk, key: &str) -> Result<bool, KvsError> {
    let p = store.prepare_remove(key.to_string())?;
    disk.append(store.writer_gen(), p.record());
    Ok(store.commit(p))
}

fn get(store: &LogStore, disk: &Disk, key: &str) -> Option<String> {
    store
        .lookup(&key.to_string())
        .map(|p| read_value(&disk.read(p)).unwrap())
}

fn compact(store: &mut LogStore, disk: &mut Disk) {
    let plan = store.compaction_plan().unwrap();
    let mut copied = Vec::new();
    for p in &plan.sources {
        copied.extend_from_slice(&disk.read(*p));
    }
    disk.segments.insert(plan.gen, copied);
    store.compact();
    disk.segments.retain(|g, _| *g >= plan.gen);
    disk.segments.insert(store.writer_gen(), Vec::new());
}

#[test]
fn empty_directory_starts_at_generation_one() {
    let mut disk = Disk::new();
    let store = open(&mut disk);
    assert_eq!(store.writer_gen(), 1);
    assert_eq!(store.len(), 0);
    assert_eq!(get(&store, &disk, "k"), None);
}

#[test]
fn put_then_get_returns_value() {
    let mut disk = Disk::new();
    let mut store = open(&mut disk);
    put(&mut store, &mut disk, "key1", "value1");
    assert_eq!(get(&store, &disk, "key1"), Some("value1".to_string()));
    let p = store.lookup(&"key1".to_string()).unwrap();
    assert_eq!(p, CommandPos { gen: 1, pos: 0, len: 1 + 8 + 4 + 8 + 6 });
}

#[test]
fn remove_then_get_returns_none() {
    let mut disk = Disk::new();
    let mut store = open(&mut disk);
    put(&mut store, &mut disk, "key1", "value1");
    remove(&mut store, &mut disk, "key1").unwrap();
    assert_eq!(get(&store, &disk, "key1"), None);
    assert_eq!(store.len(), 0);
}

#[test]
fn remove_absent_key_fails_and_changes_nothing() {
    let mut disk = Disk::new();
    let mut store = open(&mut disk);
    put(&mut store, &mut disk, "a", "1");
    let before = disk.total();
    assert_eq!(remove(&mut store, &mut disk, "b"), Err(KvsError::KeyNotFound));
    assert_eq!(disk.total(), before);
    assert_eq!(store.len(), 1);
    assert_eq!(store.uncompacted(), 0);
    assert_eq!(get(&store, &disk, "a"), Some("1".to_string()));
}

#[test]
fn last_write_wins() {
    let mut disk = Disk::new();
    let mut store = open(&mut disk);
    put(&mut store, &mut disk, "k", "v1");
    put(&mut store, &mut disk, "k", "v2");
    assert_eq!(get(&store, &disk, "k"), Some("v2".to_string()));
    assert_eq!(store.len(), 1);
}

#[test]
fn stale_bytes_count_superseded_records_and_removals() {
    let mut disk = Disk::new();
    let mut store = open(&mut disk);
    put(&mut store, &mut disk, "k", "v1");
    let first = 1 + 8 + 1 + 8 + 2;
    assert_eq!(store.uncompacted(), 0);
    put(&mut store, &mut disk, "k", "v2");
    assert_eq!(store.uncompacted(), first);
    remove(&mut store, &mut disk, "k").unwrap();
    let removal = 1 + 8 + 1;
    assert_eq!(store.uncompacted(), first + first + removal);
}

#[test]
fn reopen_rebuilds_the_same_contents() {
    let mut disk = Disk::new();
    let mut store = open(&mut disk);
    for i in 0..20 {
        put(&mut store, &mut disk, &format!("key{}", i), &format!("value{}", i));
    }
    for i in 0..5 {
        remove(&mut store, &mut disk, &format!("key{}", i)).unwrap();
    }
    put(&mut store, &mut disk, "key7", "changed");
    let stale = store.uncompacted();
    drop(store);

    let reopened = open(&mut disk);
    assert_eq!(reopened.writer_gen(), 2);
    assert_eq!(reopened.len(), 15);
    assert_eq!(reopened.uncompacted(), stale);
    for i in 0..5 {
        assert_eq!(get(&reopened, &disk, &format!("key{}", i)), None);
    }
    for i in 5..20 {
        let expected = if i == 7 { "changed".to_string() } else { format!("value{}", i) };
        assert_eq!(get(&reopened, &disk, &format!("key{}", i)), Some(expected));
    }
}

#[test]
fn replay_rejects_a_truncated_segment() {
    let mut disk = Disk::new();
    let mut store = open(&mut disk);
    put(&mut store, &mut disk, "k", "v");
    let seg = disk.segments.get_mut(&1).unwrap();
    seg.pop();
    let mut fresh = LogStore::new();
    assert_eq!(fresh.replay(1, &disk.segments[&1]), Err(KvsError::Serialization));
}

#[test]
fn replay_rejects_an_unknown_record_tag() {
    let mut fresh = LogStore::new();
    assert_eq!(fresh.replay(1, &[9u8, 0, 0]), Err(KvsError::Serialization));
}

#[test]
fn compaction_keeps_contents_and_shrinks_the_log() {
    let mut disk = Disk::new();
    let mut store = open(&mut disk);
    let value = "x".repeat(1000);
    let mut due = false;
    for round in 0..4 {
        for i in 0..500 {
            due = put(&mut store, &mut disk, &format!("key{}", i), &format!("{}{}", value, round));
        }
    }
    assert!(due);
    assert!(store.needs_compaction());
    assert!(store.uncompacted() > COMPACTION_THRESHOLD);
    let before = disk.total();
    let writer = store.writer_gen();
    compact(&mut store, &mut disk);
    assert_eq!(store.writer_gen(), writer + 2);
    assert_eq!(store.uncompacted(), 0);
    assert!(!store.needs_compaction());
    assert!(disk.total() < before);
    for i in 0..500 {
        assert_eq!(get(&store, &disk, &format!("key{}", i)), Some(format!("{}3", value)));
    }
    put(&mut store, &mut disk, "after", "compaction");
    let reopened = open(&mut disk);
    assert_eq!(reopened.len(), 501);
    assert_eq!(get(&reopened, &disk, "key3"), Some(format!("{}3", value)));
    assert_eq!(get(&reopened, &disk, "after"), Some("compaction".to_string()));
}

#[test]
fn read_value_rejects_a_removal_record() {
    let rec = kvs::message::encode_command(&kvs::message::Command::Remove { key: "k".to_string() });
    assert_eq!(read_value(&rec), Err(KvsError::UnexpectedCommandType));
}

#[test]
fn read_value_rejects_trailing_bytes() {
    let mut rec = kvs::message::encode_command(&kvs::message::Command::Put {
        key: "k".to_string(),
        value: "v".to_string(),
    });
    rec.push(0);
    assert_eq!(read_value(&rec), Err(KvsError::Serialization));
}
