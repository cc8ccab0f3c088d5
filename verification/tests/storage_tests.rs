use tinychain::{Block, Cache, Disk, FsPath, PathSegment, TransactionId, TxnFile, TxnLock};

fn path_of(names: &[&str]) -> FsPath {
    let segments = names
        .iter()
        .map(|n| PathSegment::Name((*n).to_string()))
        .collect();
    FsPath::new(segments)
}

#[test]
fn block_bytes_roundtrip() {
    let block = Block::new(vec![1, 2, 3]);
    let bytes = block.to_bytes();
    let back = Block::try_from_bytes(bytes).unwrap();
    assert_eq!(back.to_bytes(), vec![1, 2, 3]);
    assert_eq!(back.size(), 3);
}

#[test]
fn cache_write_sync_read_roundtrip() {
    let mut cache = Cache::new(1024);
    let mut disk = Disk::new();
    let p = path_of(&["data", "block0"]);

    cache.write(&p, Block::new(vec![7, 8, 9]));
    cache.sync(&p, &mut disk);
    let read = cache.read(&p, &disk).unwrap();
    assert_eq!(read.to_bytes(), vec![7, 8, 9]);

    // even after the entry is dropped, the synced bytes come back from disk
    cache.remove(&p);
    let read2 = cache.read(&p, &disk).unwrap();
    assert_eq!(read2.to_bytes(), vec![7, 8, 9]);
}

#[test]
fn cache_eviction_keeps_budget() {
    // cap of three one-byte blocks; a fourth write evicts exactly one of
    // the first three, and a read of the evicted path misses
    let mut cache = Cache::new(3);
    let disk = Disk::new();
    let a = path_of(&["a"]);
    let b = path_of(&["b"]);
    let c = path_of(&["c"]);
    let d = path_of(&["d"]);

    cache.write(&a, Block::new(vec![1]));
    cache.write(&b, Block::new(vec![2]));
    cache.write(&c, Block::new(vec![3]));
    assert_eq!(cache.size(), 3);
    cache.write(&d, Block::new(vec![4]));
    assert!(cache.size() <= 3);

    let mut misses = 0;
    for p in [&a, &b, &c] {
        if cache.read(p, &disk).is_none() {
            misses += 1;
        }
    }
    assert_eq!(misses, 1);
    assert!(cache.read(&d, &disk).is_some());
}

#[test]
fn cache_accounts_every_byte() {
    let mut cache = Cache::new(100);
    let disk = Disk::new();
    let a = path_of(&["a"]);
    let b = path_of(&["b"]);
    cache.write(&a, Block::new(vec![0; 10]));
    cache.write(&b, Block::new(vec![0; 20]));
    assert_eq!(cache.size(), 30);
    cache.write(&a, Block::new(vec![0; 5]));
    assert_eq!(cache.size(), 25);
    cache.remove(&b);
    assert_eq!(cache.size(), 5);
    assert!(cache.read(&a, &disk).is_some());
    assert_eq!(cache.size(), 5);
}

#[test]
fn txn_lock_visibility() {
    let t1 = TransactionId::new(1, 0);
    let t2 = TransactionId::new(2, 0);

    let mut lock: TxnLock<u64> = TxnLock::new(10);
    assert_eq!(*lock.read(&t1).unwrap(), 10);

    // an uncommitted write is visible to its own transaction only
    lock.write(&t1, 11).unwrap();
    assert_eq!(*lock.read(&t1).unwrap(), 11);
    assert_eq!(*lock.read(&t2).unwrap(), 10);

    // after commit, every transaction at or after it observes the write
    lock.commit(&t1);
    assert_eq!(*lock.read(&t1).unwrap(), 11);
    assert_eq!(*lock.read(&t2).unwrap(), 11);
}

#[test]
fn txn_lock_conflict_on_old_writer() {
    let t1 = TransactionId::new(1, 0);
    let t2 = TransactionId::new(2, 0);

    let mut lock: TxnLock<u64> = TxnLock::new(0);
    lock.write(&t2, 2).unwrap();
    lock.commit(&t2);

    // writing with an id older than the newest committed one is refused
    let r = lock.write(&t1, 1);
    assert!(r.is_err());
    assert_eq!(r.unwrap_err().kind(), tinychain::ErrorKind::Conflict);
}

#[test]
fn txn_lock_finalize_raises_floor() {
    let t1 = TransactionId::new(1, 0);
    let t2 = TransactionId::new(2, 0);
    let t3 = TransactionId::new(3, 0);

    let mut lock: TxnLock<u64> = TxnLock::new(0);
    lock.write(&t2, 2).unwrap();
    lock.commit(&t2);
    lock.finalize(&t2);

    // a reader older than the finalize horizon is gone
    assert!(lock.read(&t1).is_err());
    assert_eq!(*lock.read(&t2).unwrap(), 2);
    assert_eq!(*lock.read(&t3).unwrap(), 2);
}

#[test]
fn txn_file_commit_makes_blocks_canonical() {
    let t1 = TransactionId::new(1, 0);
    let mut cache = Cache::new(1024);
    let mut disk = Disk::new();
    let mut file = TxnFile::new(path_of(&["store", "table"]));

    file.create_block(&t1, "x".to_string(), Block::new(vec![1]), &mut cache)
        .unwrap();
    assert!(file.block_exists(&t1, &"x".to_string()).unwrap());

    // before commit the canonical directory holds nothing
    let canonical = path_of(&["store", "table", "x"]);
    assert!(!disk.has_file(&canonical));

    file.commit(&t1, &cache, &mut disk);
    let bytes = disk.read_file(&canonical).expect("committed block");
    assert_eq!(*bytes, vec![1]);
}

#[test]
fn txn_file_isolation_between_transactions() {
    let t1 = TransactionId::new(1, 0);
    let t2 = TransactionId::new(2, 0);
    let mut cache = Cache::new(1024);
    let mut disk = Disk::new();
    let mut file = TxnFile::new(path_of(&["store", "f"]));

    file.create_block(&t1, "x".to_string(), Block::new(vec![1]), &mut cache)
        .unwrap();
    file.commit(&t1, &cache, &mut disk);

    // a later transaction reads the committed block
    let b = file.get_block(&t2, &"x".to_string(), &mut cache, &mut disk).unwrap();
    assert_eq!(b.to_bytes(), vec![1]);

    // creating the same name again conflicts
    let r = file.create_block(&t2, "x".to_string(), Block::new(vec![2]), &mut cache);
    assert!(r.is_err());
    assert_eq!(r.unwrap_err().kind(), tinychain::ErrorKind::Conflict);

    // but the later transaction may write its own version of the block
    file.write_block(&t2, &"x".to_string(), Block::new(vec![2]), &mut cache)
        .unwrap();
    let b2 = file.get_block(&t2, &"x".to_string(), &mut cache, &mut disk).unwrap();
    assert_eq!(b2.to_bytes(), vec![2]);
    // while the canonical block is untouched until the second commit
    let canonical = path_of(&["store", "f", "x"]);
    assert_eq!(*disk.read_file(&canonical).unwrap(), vec![1]);
    file.commit(&t2, &cache, &mut disk);
    assert_eq!(*disk.read_file(&canonical).unwrap(), vec![2]);
}

#[test]
fn txn_file_finalize_removes_versions() {
    let t1 = TransactionId::new(1, 0);
    let mut cache = Cache::new(1024);
    let mut disk = Disk::new();
    let mut file = TxnFile::new(path_of(&["store", "g"]));

    file.create_block(&t1, "x".to_string(), Block::new(vec![9]), &mut cache)
        .unwrap();
    file.commit(&t1, &cache, &mut disk);
    file.finalize(&t1, &mut cache, &mut disk);

    // the version file of the transaction is gone from the disk and the
    // cache, while the canonical block remains
    let version = FsPath::new(vec![
        PathSegment::Name("store".to_string()),
        PathSegment::Name("g".to_string()),
        PathSegment::Name(".versions".to_string()),
        PathSegment::Version(t1),
        PathSegment::Name("x".to_string()),
    ]);
    assert!(!disk.has_file(&version));
    let canonical = path_of(&["store", "g", "x"]);
    assert_eq!(*disk.read_file(&canonical).unwrap(), vec![9]);

    // a read through a later transaction copies the canonical block again
    let t2 = TransactionId::new(2, 0);
    let b = file.get_block(&t2, &"x".to_string(), &mut cache, &mut disk).unwrap();
    assert_eq!(b.to_bytes(), vec![9]);
}

#[test]
fn transaction_id_bytes_roundtrip() {
    let id = TransactionId::new(123456789012345678901234567890u128, 513);
    let bytes = id.to_bytes();
    assert_eq!(bytes.len(), 18);
    let back = TransactionId::from_bytes(&bytes).unwrap();
    assert_eq!(back, id);
    assert!(TransactionId::from_bytes(&vec![0; 17]).is_none());
}

#[test]
fn transaction_id_orders_by_time_then_nonce() {
    let a = TransactionId::new(1, 5);
    let b = TransactionId::new(1, 6);
    let c = TransactionId::new(2, 0);
    assert!(a.lt(&b));
    assert!(b.lt(&c));
    assert!(a.le(&a));
    assert!(!c.le(&a));
}

#[test]
fn transaction_tracks_mutations_in_order() {
    let id = TransactionId::new(7, 0);
    let root = path_of(&["work"]);
    let mut txn = tinychain::Transaction::new(id, &root);
    assert_eq!(*txn.id(), id);
    txn.mutate("b".to_string()).unwrap();
    txn.mutate("a".to_string()).unwrap();
    txn.mutate("b".to_string()).unwrap();
    assert_eq!(*txn.commit_order(), vec!["b".to_string(), "a".to_string()]);
    assert!(txn.check_failed().is_ok());
    txn.mark_failed();
    let r = txn.check_failed();
    assert_eq!(r.unwrap_err().kind(), tinychain::ErrorKind::Internal);
    txn.finalized();
    assert!(txn.check_failed().is_ok());
    assert_eq!(txn.commit_order().len(), 0);
}

#[test]
fn txn_file_load_rejects_mixed_directories() {
    let t1 = TransactionId::new(1, 0);
    let entries = vec![("x".to_string(), true), ("y".to_string(), true)];
    let file = TxnFile::load(path_of(&["store", "h"]), entries).unwrap();
    assert!(file.block_exists(&t1, &"x".to_string()).unwrap());
    assert!(file.block_exists(&t1, &"y".to_string()).unwrap());
    assert!(!file.block_exists(&t1, &"z".to_string()).unwrap());

    let mixed = vec![("x".to_string(), true), (".versions".to_string(), false)];
    let r = TxnFile::load(path_of(&["store", "h"]), mixed);
    match r {
        Err(e) => assert_eq!(e.kind(), tinychain::ErrorKind::Internal),
        Ok(_) => panic!("a mixed directory must be refused"),
    }
}

#[test]
fn pinned_blocks_survive_eviction() {
    let mut cache = Cache::new(2);
    let disk = Disk::new();
    let a = path_of(&["a"]);
    let b = path_of(&["b"]);
    let c = path_of(&["c"]);

    cache.write(&a, Block::new(vec![1]));
    cache.write(&b, Block::new(vec![2]));
    cache.pin(&a);
    cache.pin(&b);
    // both entries are pinned, so the over-budget write cannot free space
    cache.write(&c, Block::new(vec![3]));
    assert!(cache.read(&a, &disk).is_some());
    assert!(cache.read(&b, &disk).is_some());

    // releasing the pins lets a later write evict again
    cache.unpin(&a);
    cache.unpin(&b);
    cache.write(&c, Block::new(vec![3]));
    assert!(cache.size() <= 2);
}

#[test]
fn txn_dir_children_are_transactional() {
    let t1 = TransactionId::new(1, 0);
    let t2 = TransactionId::new(2, 0);
    let mut cache = Cache::new(1024);
    let mut disk = Disk::new();
    let mut dir = tinychain::TxnDir::new(path_of(&["store"]));

    dir.create_file(&t1, "demo".to_string()).unwrap();
    // the child is visible to its own transaction alone until commit
    assert!(dir.child_exists(&t1, &"demo".to_string()).unwrap());
    assert!(!dir.child_exists(&t2, &"demo".to_string()).unwrap());
    // a duplicate create conflicts
    match dir.create_file(&t1, "demo".to_string()) {
        Err(e) => assert_eq!(e.kind(), tinychain::ErrorKind::Conflict),
        Ok(_) => panic!("a duplicate child must be refused"),
    }

    dir.commit(&t1, &cache, &mut disk);
    assert!(dir.child_exists(&t2, &"demo".to_string()).unwrap());
    dir.finalize(&t1, &mut cache, &mut disk);
    assert!(dir.find_file(&"demo".to_string()).is_some());
    assert!(dir.find_file(&"other".to_string()).is_none());
}

#[test]
fn oversized_write_proceeds_in_degraded_mode() {
    // a block wider than the whole budget is still written, kept, synced
    // and read back; the cache simply runs over budget
    let mut cache = Cache::new(2);
    let mut disk = Disk::new();
    let p = path_of(&["big"]);
    cache.write(&p, Block::new(vec![1, 2, 3, 4, 5]));
    assert_eq!(cache.size(), 5);
    cache.sync(&p, &mut disk);
    let read = cache.read(&p, &disk).unwrap();
    assert_eq!(read.to_bytes(), vec![1, 2, 3, 4, 5]);

    // a later write of a small block evicts the oversized one, not itself
    let q = path_of(&["small"]);
    cache.write(&q, Block::new(vec![9]));
    assert!(cache.read(&q, &disk).is_some());
    assert!(cache.size() <= 2);
    // and the oversized block still round-trips from the synced file
    let again = cache.read(&p, &disk).unwrap();
    assert_eq!(again.to_bytes(), vec![1, 2, 3, 4, 5]);
}
