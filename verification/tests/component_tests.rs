use overlaydb::blobstore::BlobStore;
use overlaydb::hash::H256;
use overlaydb::kvstore::{order_keys, KeyOrder, KvStore};
use overlaydb::overlay::MemoryOverlay;
use overlaydb::overlaydb::{settle, BaseDataError, CommitAction};

fn hex(s: &str) -> Vec<u8> {
    let digits: Vec<u8> = s
        .bytes()
        .filter(|b| !b.is_ascii_whitespace())
        .map(|b| match b {
            b'0'..=b'9' => b - b'0',
            b'a'..=b'f' => b - b'a' + 10,
            _ => panic!("not a hex digit"),
        })
        .collect();
    assert!(digits.len() % 2 == 0);
    digits.chunks(2).map(|p| p[0] * 16 + p[1]).collect()
}

#[test]
fn keccak_of_known_inputs() {
    assert_eq!(
        H256::of(b"").bytes(),
        hex("c5d2460186f7233c927e7db2dcc703c0e500b653ca82273b7bfad8045d85a470")
    );
    assert_eq!(
        H256::of(b"hello world").bytes(),
        hex("47173285a8d7341e5e972fc677286384f802f8ef42a5ec5f03bbfa254cb01fad")
    );
    assert_ne!(H256::of(b"foo"), H256::of(b"bar"));
}

#[test]
fn digest_from_and_to_bytes() {
    let raw = hex("000102030405060708090a0b0c0d0e0f101112131415161718191a1b1c1d1e1f");
    let h = H256::from_slice(&raw);
    assert_eq!(h.bytes(), raw);
    assert_eq!(h.0[31], 0x1f);
    assert!(h.same(&H256::from_slice(&raw)));
    assert!(!h.same(&H256([0u8; 32])));
    assert_eq!(H256([0u8; 32]).bytes(), vec![0u8; 32]);
    let mut other = raw.clone();
    other[31] = 0x20;
    assert!(!h.same(&H256::from_slice(&other)));
}

#[test]
fn keys_compare_lexicographically() {
    assert_eq!(order_keys(b"", b""), KeyOrder::Same);
    assert_eq!(order_keys(b"", b"a"), KeyOrder::Before);
    assert_eq!(order_keys(b"a", b""), KeyOrder::After);
    assert_eq!(order_keys(b"abc", b"abd"), KeyOrder::Before);
    assert_eq!(order_keys(b"abd", b"abc"), KeyOrder::After);
    assert_eq!(order_keys(b"ab", b"abc"), KeyOrder::Before);
    assert_eq!(order_keys(b"abc", b"ab"), KeyOrder::After);
    assert_eq!(order_keys(b"abc", b"abc"), KeyOrder::Same);
    assert_eq!(order_keys(&[0x7f], &[0x80]), KeyOrder::Before);
    assert_eq!(order_keys(&[0xff], &[0x00, 0x00]), KeyOrder::After);
}

#[test]
fn table_keeps_its_keys_in_order() {
    let mut t = KvStore::new();
    assert_eq!(t.len(), 0);
    t.put(b"pear".to_vec(), b"3".to_vec());
    t.put(b"apple".to_vec(), b"1".to_vec());
    t.put(b"zebra".to_vec(), b"4".to_vec());
    t.put(b"fig".to_vec(), b"2".to_vec());
    t.put(b"app".to_vec(), b"0".to_vec());
    assert_eq!(t.len(), 5);
    assert_eq!(
        t.keys(),
        vec![
            b"app".to_vec(),
            b"apple".to_vec(),
            b"fig".to_vec(),
            b"pear".to_vec(),
            b"zebra".to_vec()
        ]
    );
    assert_eq!(t.get(b"fig"), Some(&b"2".to_vec()));
    assert_eq!(t.get(b"figs"), None);
    assert_eq!(t.get(b""), None);
    let (k, v) = t.entry(3);
    assert_eq!((k.as_slice(), v.as_slice()), (&b"pear"[..], &b"3"[..]));
}

#[test]
fn table_put_replaces_and_delete_removes() {
    let mut t = KvStore::new();
    t.put(b"a".to_vec(), b"1".to_vec());
    t.put(b"b".to_vec(), b"2".to_vec());
    t.put(b"a".to_vec(), b"one".to_vec());
    assert_eq!(t.len(), 2);
    assert_eq!(t.get(b"a"), Some(&b"one".to_vec()));
    t.delete(b"a");
    assert_eq!(t.get(b"a"), None);
    assert_eq!(t.keys(), vec![b"b".to_vec()]);
    // deleting what is not there changes nothing
    t.delete(b"a");
    t.delete(b"c");
    assert_eq!(t.len(), 1);
    t.delete(b"b");
    assert_eq!(t.len(), 0);
    assert_eq!(t.keys(), Vec::<Vec<u8>>::new());
}

#[test]
fn records_are_stored_as_a_list_of_count_and_payload() {
    let mut s = BlobStore::new();
    let h = H256::of(b"foo");
    s.put_record(&h, b"foo", 1);
    assert_eq!(s.table().get(&h.bytes()), Some(&hex("c5 01 83 666f6f")));
    s.put_record(&h, b"", 1024);
    assert_eq!(s.table().get(&h.bytes()), Some(&hex("c4 820400 80")));
    s.put_record(&h, &[0x05], 3);
    assert_eq!(s.table().get(&h.bytes()), Some(&hex("c2 03 05")));
    s.put_record(&h, &[0x80], 0x80);
    assert_eq!(s.table().get(&h.bytes()), Some(&hex("c4 8180 8180")));
    s.put_record(&h, &[0xaa; 60], 1);
    let mut long = hex("f83f 01 b83c");
    long.extend_from_slice(&[0xaa; 60]);
    assert_eq!(s.table().get(&h.bytes()), Some(&long));
    s.put_record(&h, b"x", u32::MAX);
    assert_eq!(s.table().get(&h.bytes()), Some(&hex("c6 84ffffffff 78")));
}

#[test]
fn records_come_back_as_they_went_in() {
    let mut s = BlobStore::new();
    let a = H256::of(b"a");
    let b = H256::of(b"b");
    assert_eq!(s.get_record(&a), None);
    s.put_record(&a, b"a", 7);
    s.put_record(&b, &[0x33; 1000], 0x0102_0304);
    assert_eq!(s.get_record(&a), Some((b"a".to_vec(), 7)));
    assert_eq!(s.get_record(&b), Some((vec![0x33; 1000], 0x0102_0304)));
    s.put_record(&a, b"a", 8);
    assert_eq!(s.get_record(&a), Some((b"a".to_vec(), 8)));
    s.remove_record(&a);
    assert_eq!(s.get_record(&a), None);
    assert_eq!(s.get_record(&b), Some((vec![0x33; 1000], 0x0102_0304)));
    s.remove_record(&a);
    assert_eq!(s.table().len(), 1);
}

#[test]
fn iter_all_walks_the_digests_in_order() {
    let mut s = BlobStore::new();
    let mut want = Vec::new();
    for (i, p) in [&b"a"[..], b"b", b"c", b"d", b"e"].iter().enumerate() {
        let h = H256::of(p);
        s.put_record(&h, p, i as u32 + 1);
        want.push((h, i as u32 + 1));
    }
    want.sort_by_key(|e| e.0 .0);
    assert_eq!(s.iter_all(), want);
    assert_eq!(BlobStore::new().iter_all(), vec![]);
}

#[test]
fn open_accepts_only_tables_of_records() {
    let key = H256::of(b"foo").bytes();

    let mut good = KvStore::new();
    good.put(key.clone(), hex("c5 01 83 666f6f"));
    let store = BlobStore::open(good).unwrap();
    assert_eq!(store.get_record(&H256::of(b"foo")), Some((b"foo".to_vec(), 1)));

    assert!(BlobStore::open(KvStore::new()).is_some());

    let mut short_key = KvStore::new();
    short_key.put(key[..31].to_vec(), hex("c5 01 83 666f6f"));
    assert!(BlobStore::open(short_key).is_none());

    let mut zero_count = KvStore::new();
    zero_count.put(key.clone(), hex("c2 80 80"));
    assert!(BlobStore::open(zero_count).is_none());

    let mut one_item = KvStore::new();
    one_item.put(key.clone(), hex("c1 01"));
    assert!(BlobStore::open(one_item).is_none());

    let mut not_a_list = KvStore::new();
    not_a_list.put(key.clone(), hex("83 666f6f"));
    assert!(BlobStore::open(not_a_list).is_none());

    let mut cut_short = KvStore::new();
    cut_short.put(key.clone(), hex("c5 01 83 666f"));
    assert!(BlobStore::open(cut_short).is_none());

    let mut padded_count = KvStore::new();
    padded_count.put(key.clone(), hex("c7 820001 83 666f6f"));
    assert!(BlobStore::open(padded_count).is_none());

    let mut empty_value = KvStore::new();
    empty_value.put(key, vec![]);
    assert!(BlobStore::open(empty_value).is_none());
}

#[test]
fn overlay_counts_insertions_and_kills() {
    let mut o = MemoryOverlay::new();
    let h = o.insert(b"hello world");
    assert_eq!(h, H256::of(b"hello world"));
    {
        let e = o.raw(&h).unwrap();
        assert_eq!((e.key, e.value.as_slice(), e.rc), (h, &b"hello world"[..], 1));
    }
    o.insert(b"hello world");
    assert_eq!(o.raw(&h).unwrap().rc, 2);
    o.kill(&h);
    o.kill(&h);
    o.kill(&h);
    {
        let e = o.raw(&h).unwrap();
        assert_eq!((e.value.as_slice(), e.rc), (&b"hello world"[..], -1));
    }
    assert_eq!(o.len(), 1);
    assert!(o.raw(&H256::of(b"other")).is_none());
}

#[test]
fn overlay_kill_first_leaves_no_payload_until_an_insert() {
    let mut o = MemoryOverlay::new();
    let h = H256::of(b"foo");
    o.kill(&h);
    {
        let e = o.raw(&h).unwrap();
        assert_eq!((e.value.len(), e.rc), (0, -1));
    }
    assert_eq!(o.insert(b"foo"), h);
    {
        let e = o.raw(&h).unwrap();
        assert_eq!((e.value.as_slice(), e.rc), (&b"foo"[..], 0));
    }
    // a payload that is there is kept
    o.emplace(h, b"bar".to_vec());
    {
        let e = o.raw(&h).unwrap();
        assert_eq!((e.value.as_slice(), e.rc), (&b"foo"[..], 1));
    }
}

#[test]
fn overlay_denote_fills_in_a_payload_and_keeps_the_delta() {
    let mut o = MemoryOverlay::new();
    let h = H256::of(b"foo");
    o.denote(&h, b"foo".to_vec());
    {
        let e = o.raw(&h).unwrap();
        assert_eq!((e.value.as_slice(), e.rc), (&b"foo"[..], 0));
    }
    let g = H256::of(b"bar");
    o.kill(&g);
    o.denote(&g, b"bar".to_vec());
    {
        let e = o.raw(&g).unwrap();
        assert_eq!((e.value.as_slice(), e.rc), (&b"bar"[..], -1));
    }
    o.denote(&g, b"baz".to_vec());
    assert_eq!(o.raw(&g).unwrap().value, b"bar".to_vec());
}

#[test]
fn overlay_keys_drain_and_clear() {
    let mut o = MemoryOverlay::new();
    let hfoo = o.insert(b"foo");
    let hbar = o.insert(b"bar");
    o.insert(b"bar");
    let hbaz = H256::of(b"baz");
    o.kill(&hbaz);
    let mut keys = o.keys();
    keys.sort_by_key(|e| e.1);
    assert_eq!(keys, vec![(hbaz, -1), (hfoo, 1), (hbar, 2)]);

    let mut drained: Vec<(H256, Vec<u8>, i32)> =
        o.drain().into_iter().map(|e| (e.key, e.value, e.rc)).collect();
    drained.sort_by_key(|e| e.2);
    assert_eq!(
        drained,
        vec![(hbaz, vec![], -1), (hfoo, b"foo".to_vec(), 1), (hbar, b"bar".to_vec(), 2)]
    );
    assert_eq!(o.len(), 0);
    assert_eq!(o.keys(), vec![]);

    o.insert(b"foo");
    o.clear();
    assert_eq!(o.len(), 0);
    assert!(o.raw(&hfoo).is_none());
}

#[test]
fn settle_follows_the_sign_of_the_total() {
    let foo = b"foo".to_vec();
    let bar = b"bar".to_vec();
    assert_eq!(settle(0, bar.clone(), Some((foo.clone(), 4))), Ok(CommitAction::Keep));
    assert_eq!(settle(0, bar.clone(), None), Ok(CommitAction::Keep));
    assert_eq!(settle(-1, vec![], Some((foo.clone(), 1))), Ok(CommitAction::Remove));
    assert_eq!(
        settle(-2, vec![], Some((foo.clone(), 1))),
        Err(BaseDataError::NegativelyReferencedHash)
    );
    assert_eq!(
        settle(2, bar.clone(), Some((foo.clone(), 3))),
        Ok(CommitAction::Store { payload: foo.clone(), rc: 5 })
    );
    assert_eq!(
        settle(-2, bar.clone(), Some((foo.clone(), 3))),
        Ok(CommitAction::Store { payload: foo.clone(), rc: 1 })
    );
    assert_eq!(
        settle(1, bar.clone(), None),
        Ok(CommitAction::Store { payload: bar.clone(), rc: 1 })
    );
    assert_eq!(settle(-1, bar.clone(), None), Err(BaseDataError::NegativelyReferencedHash));
}

#[test]
fn settle_adds_in_a_wider_domain() {
    let p = b"p".to_vec();
    assert_eq!(
        settle(-1, vec![], Some((p.clone(), u32::MAX))),
        Ok(CommitAction::Store { payload: p.clone(), rc: u32::MAX - 1 })
    );
    assert_eq!(
        settle(i32::MAX, vec![], Some((p.clone(), 0x8000_0000))),
        Ok(CommitAction::Store { payload: p.clone(), rc: u32::MAX })
    );
    assert_eq!(settle(i32::MIN, vec![], Some((p.clone(), 0x8000_0000))), Ok(CommitAction::Remove));
    assert_eq!(
        settle(i32::MIN, vec![], Some((p.clone(), 5))),
        Err(BaseDataError::NegativelyReferencedHash)
    );
    assert_eq!(
        settle(i32::MAX, p.clone(), None),
        Ok(CommitAction::Store { payload: p.clone(), rc: 0x7fff_ffff })
    );
}

#[test]
fn table_finds_every_key_among_many() {
    let mut t = KvStore::new();
    let mut x: u32 = 12345;
    let mut keys: Vec<Vec<u8>> = Vec::new();
    for _ in 0..500 {
        x = x.wrapping_mul(1664525).wrapping_add(1013904223);
        let len = (x >> 28) as usize;
        let key: Vec<u8> = x.to_be_bytes().iter().cycle().take(len).cloned().collect();
        t.put(key.clone(), x.to_le_bytes().to_vec());
        keys.retain(|k| k != &key);
        keys.push(key);
    }
    assert_eq!(t.len(), keys.len());
    let mut sorted = keys.clone();
    sorted.sort();
    assert_eq!(t.keys(), sorted);
    for (i, k) in sorted.iter().enumerate() {
        assert!(t.get(k).is_some());
        assert_eq!(t.entry(i).0, k);
    }
    for k in keys.iter().step_by(2) {
        t.delete(k);
        assert_eq!(t.get(k), None);
    }
    let mut left: Vec<Vec<u8>> = keys.iter().skip(1).step_by(2).cloned().collect();
    left.sort();
    assert_eq!(t.keys(), left);
}
