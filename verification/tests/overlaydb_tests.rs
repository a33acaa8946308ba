use overlaydb::blobstore::BlobStore;
use overlaydb::hash::H256;
use overlaydb::kvstore::KvStore;
use overlaydb::overlaydb::{BaseDataError, OverlayDB, UtilError};

#[test]
fn overlaydb_overlay_insert_and_kill() {
    let mut trie = OverlayDB::new_temp();
    let h = trie.insert(b"hello world");
    assert_eq!(trie.lookup(&h).unwrap(), b"hello world");
    trie.kill(&h);
    assert_eq!(trie.lookup(&h), None);
}

#[test]
fn overlaydb_backing_insert_revert() {
    let mut trie = OverlayDB::new_temp();
    let h = trie.insert(b"hello world");
    assert_eq!(trie.lookup(&h).unwrap(), b"hello world");
    trie.commit().unwrap();
    assert_eq!(trie.lookup(&h).unwrap(), b"hello world");
    trie.revert();
    assert_eq!(trie.lookup(&h).unwrap(), b"hello world");
}

#[test]
fn overlaydb_backing_kill() {
    let mut trie = OverlayDB::new_temp();
    let h = trie.insert(b"hello world");
    trie.commit().unwrap();
    trie.kill(&h);
    assert_eq!(trie.lookup(&h), None);
    trie.commit().unwrap();
    assert_eq!(trie.lookup(&h), None);
    trie.revert();
    assert_eq!(trie.lookup(&h), None);
}

#[test]
fn overlaydb_backing_kill_revert() {
    let mut trie = OverlayDB::new_temp();
    let h = trie.insert(b"hello world");
    trie.commit().unwrap();
    trie.kill(&h);
    assert_eq!(trie.lookup(&h), None);
    trie.revert();
    assert_eq!(trie.lookup(&h).unwrap(), b"hello world");
}

#[test]
fn overlaydb_negative() {
    let mut trie = OverlayDB::new_temp();
    let h = trie.insert(b"hello world");
    trie.commit().unwrap();
    trie.kill(&h);
    trie.kill(&h); //bad - sends us into negative refs.
    assert_eq!(trie.lookup(&h), None);
    assert!(trie.commit().is_err());
}

#[test]
fn overlaydb_complex() {
    let mut trie = OverlayDB::new_temp();
    let hfoo = trie.insert(b"foo");
    assert_eq!(trie.lookup(&hfoo).unwrap(), b"foo");
    let hbar = trie.insert(b"bar");
    assert_eq!(trie.lookup(&hbar).unwrap(), b"bar");
    trie.commit().unwrap();
    assert_eq!(trie.lookup(&hfoo).unwrap(), b"foo");
    assert_eq!(trie.lookup(&hbar).unwrap(), b"bar");
    trie.insert(b"foo"); // two refs
    assert_eq!(trie.lookup(&hfoo).unwrap(), b"foo");
    trie.commit().unwrap();
    assert_eq!(trie.lookup(&hfoo).unwrap(), b"foo");
    assert_eq!(trie.lookup(&hbar).unwrap(), b"bar");
    trie.kill(&hbar); // zero refs - delete
    assert_eq!(trie.lookup(&hbar), None);
    trie.kill(&hfoo); // one ref - keep
    assert_eq!(trie.lookup(&hfoo).unwrap(), b"foo");
    trie.commit().unwrap();
    assert_eq!(trie.lookup(&hfoo).unwrap(), b"foo");
    trie.kill(&hfoo); // zero ref - would delete, but...
    assert_eq!(trie.lookup(&hfoo), None);
    trie.insert(b"foo"); // one ref - keep after all.
    assert_eq!(trie.lookup(&hfoo).unwrap(), b"foo");
    trie.commit().unwrap();
    assert_eq!(trie.lookup(&hfoo).unwrap(), b"foo");
    trie.kill(&hfoo); // zero ref - delete
    assert_eq!(trie.lookup(&hfoo), None);
    trie.commit().unwrap(); //
    assert_eq!(trie.lookup(&hfoo), None);
}

#[test]
fn commit_counts_the_touched_digests() {
    let mut db = OverlayDB::new_temp();
    let h = db.insert(b"hello world");
    assert_eq!(db.commit(), Ok(1));
    assert_eq!(db.lookup(&h).unwrap(), b"hello world");
    db.revert();
    assert_eq!(db.lookup(&h).unwrap(), b"hello world");
    // nothing staged: nothing touched
    assert_eq!(db.commit(), Ok(0));
    // an insertion cancelled by a kill is not counted
    db.insert(b"foo");
    let hbar = db.insert(b"bar");
    db.kill(&hbar);
    assert_eq!(db.commit(), Ok(1));
    assert!(!db.contains(&hbar));
}

#[test]
fn commit_in_steps_and_revert() {
    let mut m = OverlayDB::new_temp();
    let key = m.insert(b"foo"); // insert item.
    assert!(m.contains(&key)); // key exists (in memory).
    assert_eq!(m.commit().unwrap(), 1); // 1 item changed.
    assert!(m.contains(&key)); // key still exists (in backing).
    m.kill(&key); // delete item.
    assert!(!m.contains(&key)); // key "doesn't exist" (though still does in backing).
    m.kill(&key); // more kills than inserts for the key
    m.revert(); // revert both kills.
    assert!(m.contains(&key)); // key now still exists.
}

#[test]
fn revert_drops_what_was_staged() {
    let mut m = OverlayDB::new_temp();
    let foo = m.insert(b"foo");
    m.commit().unwrap();
    let bar = m.insert(b"bar");
    m.kill(&foo);
    assert!(!m.contains(&foo));
    assert!(m.contains(&bar));
    m.revert();
    assert!(m.contains(&foo));
    assert!(!m.contains(&bar));
    assert_eq!(m.lookup(&foo).unwrap(), b"foo");
    assert_eq!(m.lookup(&bar), None);
}

#[test]
fn negative_commit_reports_the_hash_error() {
    let mut db = OverlayDB::new_temp();
    let h = db.insert(b"hello world");
    db.commit().unwrap();
    db.kill(&h);
    db.kill(&h);
    assert_eq!(
        db.commit(),
        Err(UtilError::BaseData(BaseDataError::NegativelyReferencedHash))
    );
    // the overlay is empty after a failed commit too
    assert_eq!(db.commit(), Ok(0));
}

#[test]
fn kill_of_an_unknown_digest_fails_the_commit() {
    let mut db = OverlayDB::new_temp();
    let h = H256::of(b"never inserted");
    db.kill(&h);
    assert!(!db.contains(&h));
    assert_eq!(
        db.commit(),
        Err(UtilError::BaseData(BaseDataError::NegativelyReferencedHash))
    );
}

#[test]
fn round_trip_of_several_payloads() {
    let payloads: Vec<Vec<u8>> = vec![
        vec![],
        vec![0],
        vec![0x7f],
        vec![0x80],
        b"hello world".to_vec(),
        vec![0xab; 55],
        vec![0xcd; 56],
        vec![0xef; 300],
        vec![0x11; 70000],
    ];
    let mut db = OverlayDB::new_temp();
    let mut digests = Vec::new();
    for p in payloads.iter() {
        digests.push(db.insert(p));
    }
    assert_eq!(db.commit(), Ok(9));
    for (p, h) in payloads.iter().zip(digests.iter()) {
        assert_eq!(db.lookup(h).as_ref(), Some(p));
        assert!(db.contains(h));
    }
}

#[test]
fn refcounts_are_conserved_over_a_commit() {
    let mut db = OverlayDB::new_temp();
    let h = db.insert(b"foo");
    db.insert(b"foo");
    db.insert(b"foo");
    assert_eq!(db.commit(), Ok(1));
    assert_eq!(db.backing().get_record(&h), Some((b"foo".to_vec(), 3)));
    db.kill(&h);
    db.insert(b"foo");
    db.kill(&h);
    db.kill(&h);
    assert_eq!(db.commit(), Ok(1));
    assert_eq!(db.backing().get_record(&h), Some((b"foo".to_vec(), 1)));
}

#[test]
fn a_count_of_zero_removes_the_record() {
    let mut db = OverlayDB::new_temp();
    let h = db.insert(b"foo");
    db.commit().unwrap();
    assert!(db.backing().get_record(&h).is_some());
    db.kill(&h);
    // the record is still stored, but the digest is no longer live
    assert!(db.backing().get_record(&h).is_some());
    assert!(!db.contains(&h));
    assert_eq!(db.commit(), Ok(1));
    assert_eq!(db.backing().get_record(&h), None);
    assert_eq!(db.backing().table().len(), 0);
}

#[test]
fn keys_fold_the_overlay_over_the_store() {
    let mut db = OverlayDB::new_temp();
    let hfoo = db.insert(b"foo");
    db.insert(b"foo");
    let hbar = db.insert(b"bar");
    db.commit().unwrap();
    db.kill(&hfoo);
    db.kill(&hbar);
    db.kill(&hbar);
    let hbaz = db.insert(b"baz");
    let mut keys = db.keys();
    assert_eq!(keys.len(), 3);
    keys.sort_by_key(|e| e.0 .0);
    let mut want = vec![(hbar, -1i64), (hfoo, 1), (hbaz, 1)];
    want.sort_by_key(|e| e.0 .0);
    assert_eq!(keys, want);
}

#[test]
fn lookup_notes_the_stored_payload_without_changing_counts() {
    let mut db = OverlayDB::new_temp();
    let h = db.insert(b"foo");
    db.insert(b"foo");
    db.commit().unwrap();
    db.kill(&h);
    // one reference is left: the payload comes from the store
    assert_eq!(db.lookup(&h).unwrap(), b"foo");
    assert_eq!(db.keys(), vec![(h, 1)]);
    assert_eq!(db.commit(), Ok(1));
    assert_eq!(db.backing().get_record(&h), Some((b"foo".to_vec(), 1)));
    // a lookup alone stages nothing that a commit would apply
    assert_eq!(db.lookup(&h).unwrap(), b"foo");
    assert_eq!(db.commit(), Ok(0));
}

#[test]
fn emplace_takes_the_digest_on_trust() {
    let mut db = OverlayDB::new_temp();
    let h = H256::of(b"foo");
    db.emplace(h, b"foo".to_vec());
    assert_eq!(db.lookup(&h).unwrap(), b"foo");
    assert_eq!(db.commit(), Ok(1));
    assert_eq!(db.lookup(&h).unwrap(), b"foo");
    let other = H256([0u8; 32]);
    db.emplace(other, b"bar".to_vec());
    assert_eq!(db.lookup(&other).unwrap(), b"bar");
}

#[test]
fn try_insert_stages_like_insert() {
    let mut db = OverlayDB::new_temp();
    let h = db.try_insert(b"hello world").unwrap();
    assert_eq!(h, H256::of(b"hello world"));
    assert_eq!(db.lookup(&h).unwrap(), b"hello world");
    assert_eq!(db.commit(), Ok(1));
    assert_eq!(db.try_insert(b"hello world"), Some(h));
    assert_eq!(db.commit(), Ok(1));
    assert_eq!(db.backing().get_record(&h), Some((b"hello world".to_vec(), 2)));
}

#[test]
fn staged_delta_follows_insertions_and_kills() {
    let mut db = OverlayDB::new_temp();
    let h = H256::of(b"foo");
    assert_eq!(db.staged_delta(&h), 0);
    db.insert(b"foo");
    db.insert(b"foo");
    assert_eq!(db.staged_delta(&h), 2);
    db.commit().unwrap();
    assert_eq!(db.staged_delta(&h), 0);
    db.kill(&h);
    db.kill(&h);
    db.kill(&h);
    assert_eq!(db.staged_delta(&h), -3);
    // a lookup stages no change of a count
    assert_eq!(db.lookup(&h), None);
    assert_eq!(db.staged_delta(&h), -3);
}

#[test]
fn commit_fits_until_a_count_passes_32_bits() {
    let h = H256::of(b"foo");
    let mut store = BlobStore::new();
    store.put_record(&h, b"foo", u32::MAX - 1);
    let mut db = OverlayDB::new(store);
    assert!(db.commit_fits());
    db.insert(b"foo");
    assert!(db.commit_fits());
    db.insert(b"foo");
    assert!(!db.commit_fits());
    db.kill(&h);
    assert!(db.commit_fits());
    assert_eq!(db.commit(), Ok(1));
    assert_eq!(db.backing().get_record(&h), Some((b"foo".to_vec(), u32::MAX)));
    // deltas far below zero fit: they fail the commit instead
    db.kill(&H256::of(b"bar"));
    assert!(db.commit_fits());
    assert!(db.commit().is_err());
}

#[test]
fn a_store_that_was_opened_serves_lookups() {
    let mut first = OverlayDB::new_temp();
    let hfoo = first.insert(b"foo");
    let hbar = first.insert(b"bar");
    first.insert(b"bar");
    first.commit().unwrap();

    // carry the encoded records over into a second table
    let mut table = KvStore::new();
    for key in first.backing().table().keys() {
        let value = first.backing().table().get(&key).unwrap().clone();
        table.put(key, value);
    }
    let mut second = OverlayDB::new(BlobStore::open(table).unwrap());
    assert_eq!(second.lookup(&hfoo).unwrap(), b"foo");
    assert_eq!(second.lookup(&hbar).unwrap(), b"bar");
    let mut keys = second.keys();
    keys.sort_by_key(|e| e.1);
    assert_eq!(keys, vec![(hfoo, 1), (hbar, 2)]);
    second.kill(&hbar);
    second.kill(&hbar);
    second.kill(&hfoo);
    assert_eq!(second.commit(), Ok(2));
    assert_eq!(second.backing().table().len(), 0);
}

#[test]
fn many_digests_in_one_commit() {
    let mut db = OverlayDB::new_temp();
    let mut digests = Vec::new();
    for i in 0u32..300 {
        let payload = i.to_be_bytes();
        let h = db.insert(&payload);
        if i % 3 == 0 {
            db.insert(&payload);
        }
        digests.push(h);
    }
    assert_eq!(db.commit(), Ok(300));
    for (i, h) in digests.iter().enumerate() {
        db.kill(h);
        assert_eq!(db.contains(h), i % 3 == 0);
    }
    assert_eq!(db.commit(), Ok(300));
    assert_eq!(db.backing().table().len(), 100);
    for (i, h) in digests.iter().enumerate() {
        let want = if i % 3 == 0 { Some((i as u32).to_be_bytes().to_vec()) } else { None };
        assert_eq!(db.lookup(h), want);
    }
}
