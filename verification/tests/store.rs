use mem_db::namespace::IterOrder;
use mem_db::store::{MemoryDB, StoreError};

fn fresh() -> MemoryDB {
    MemoryDB::new(String::from("temp-memorydb"))
}

#[test]
fn lib_db_put_n_get() {
    let mut fdb = fresh();

    // put data
    fdb.put_batch(vec![
        (b"k10".to_vec(), Some(b"v10".to_vec())),
        (b"k20".to_vec(), Some(b"v20".to_vec())),
    ])
    .unwrap();
    // commit data with aux
    fdb.commit(vec![(b"height".to_vec(), Some(b"100".to_vec()))], false)
        .unwrap();

    // get and compare
    assert_eq!(fdb.get(b"k10").unwrap().unwrap(), b"v10".to_vec());
    assert_eq!(fdb.get(b"k20").unwrap().unwrap(), b"v20".to_vec());
    assert_eq!(fdb.get_aux(b"height").unwrap().unwrap(), b"100".to_vec());
}

#[test]
fn lib_db_del_n_get() {
    let mut fdb = fresh();

    // put data
    fdb.put_batch(vec![
        (b"k10".to_vec(), Some(b"v10".to_vec())),
        (b"k20".to_vec(), Some(b"v20".to_vec())),
    ])
    .unwrap();
    // commit data with aux
    fdb.commit(vec![(b"height".to_vec(), Some(b"100".to_vec()))], false)
        .unwrap();

    // del data at height 101
    fdb.put_batch(vec![(b"k10".to_vec(), None), (b"k20".to_vec(), None)])
        .unwrap();
    // commit data with aux
    fdb.commit(vec![(b"height".to_vec(), Some(b"101".to_vec()))], false)
        .unwrap();

    // get and compare
    assert_eq!(fdb.get(b"k10").unwrap(), None);
    assert_eq!(fdb.get(b"k20").unwrap(), None);
    assert_eq!(fdb.get_aux(b"height").unwrap().unwrap(), b"101".to_vec());
}

#[test]
fn lib_db_put_n_update() {
    let mut fdb = fresh();

    // put data
    fdb.put_batch(vec![(b"k10".to_vec(), Some(b"v10".to_vec()))])
        .unwrap();
    // commit data with aux
    fdb.commit(vec![(b"height".to_vec(), Some(b"100".to_vec()))], false)
        .unwrap();

    // update data at height
    fdb.put_batch(vec![
        (b"k10".to_vec(), Some(b"v12".to_vec())),
        (b"k20".to_vec(), Some(b"v20".to_vec())),
    ])
    .unwrap();
    // commit data with aux
    fdb.commit(vec![(b"height".to_vec(), Some(b"101".to_vec()))], false)
        .unwrap();

    // get and compare
    assert_eq!(fdb.get(b"k10").unwrap(), Some(b"v12".to_vec()));
    assert_eq!(fdb.get(b"k20").unwrap(), Some(b"v20".to_vec()));
    assert_eq!(fdb.get_aux(b"height").unwrap().unwrap(), b"101".to_vec());
}

#[test]
fn lib_del_n_iter_range() {
    let mut fdb = fresh();

    // put data and commit
    fdb.put_batch(vec![
        (b"k10".to_vec(), Some(b"v10".to_vec())),
        (b"k20".to_vec(), Some(b"v20".to_vec())),
        (b"k30".to_vec(), Some(b"v30".to_vec())),
        (b"k40".to_vec(), Some(b"v40".to_vec())),
        (b"k50".to_vec(), Some(b"v50".to_vec())),
    ])
    .unwrap();
    fdb.commit(vec![(b"height".to_vec(), Some(b"100".to_vec()))], false)
        .unwrap();

    // del data at height 101
    fdb.put_batch(vec![(b"k20".to_vec(), None), (b"k40".to_vec(), None)])
        .unwrap();
    // commit data with aux
    fdb.commit(vec![(b"height".to_vec(), Some(b"101".to_vec()))], false)
        .unwrap();

    // iterate data on range ["k10", "k50")
    let iter = fdb.iter(b"k10", b"k50", IterOrder::Asc).into_iter();
    let expected = vec![
        (b"k10".to_vec(), b"v10".to_vec()),
        (b"k30".to_vec(), b"v30".to_vec()),
    ];
    let actual = iter
        .map(|(k, v)| (k.to_vec(), v.to_vec()))
        .collect::<Vec<_>>();
    assert_eq!(expected, actual);
    assert_eq!(fdb.get_aux(b"height").unwrap().unwrap(), b"101".to_vec());
}

#[test]
fn lib_iter_range_inc() {
    let mut fdb = fresh();

    // put data
    fdb.put_batch(vec![
        (b"k10".to_vec(), Some(b"v10".to_vec())),
        (b"k20".to_vec(), Some(b"v20".to_vec())),
        (b"k30".to_vec(), Some(b"v30".to_vec())),
        (b"k40".to_vec(), Some(b"v40".to_vec())),
        (b"k50".to_vec(), Some(b"v50".to_vec())),
    ])
    .unwrap();
    // commit data with aux
    fdb.commit(
        vec![
            (b"k11".to_vec(), Some(b"v11".to_vec())),
            (b"k21".to_vec(), Some(b"v21".to_vec())),
            (b"k31".to_vec(), Some(b"v31".to_vec())),
            (b"k41".to_vec(), Some(b"v41".to_vec())),
            (b"k51".to_vec(), Some(b"v51".to_vec())),
        ],
        true,
    )
    .unwrap();

    // iterate data on range ["k20", "k50")
    let iter = fdb.iter(b"k20", b"k50", IterOrder::Asc).into_iter();
    let expected = vec![
        (b"k20".to_vec(), b"v20".to_vec()),
        (b"k30".to_vec(), b"v30".to_vec()),
        (b"k40".to_vec(), b"v40".to_vec()),
    ];
    let actual = iter
        .map(|(k, v)| (k.to_vec(), v.to_vec()))
        .collect::<Vec<_>>();
    assert_eq!(expected, actual);

    // iterate aux on range ["k21", "k51")
    let iter_aux = fdb.iter_aux(b"k21", b"k51", IterOrder::Asc).into_iter();
    let expected_aux = vec![
        (b"k21".to_vec(), b"v21".to_vec()),
        (b"k31".to_vec(), b"v31".to_vec()),
        (b"k41".to_vec(), b"v41".to_vec()),
    ];
    let actual_aux = iter_aux
        .map(|(k, v)| (k.to_vec(), v.to_vec()))
        .collect::<Vec<_>>();
    assert_eq!(expected_aux, actual_aux);
}

#[test]
fn lib_iter_range_desc() {
    let mut fdb = fresh();

    // put data and commit
    fdb.put_batch(vec![
        (b"k10".to_vec(), Some(b"v10".to_vec())),
        (b"k20".to_vec(), Some(b"v20".to_vec())),
        (b"k30".to_vec(), Some(b"v30".to_vec())),
        (b"k40".to_vec(), Some(b"v40".to_vec())),
        (b"k50".to_vec(), Some(b"v50".to_vec())),
    ])
    .unwrap();
    fdb.commit(vec![], false).unwrap();

    // iterate data on range ["k20", "k50")
    let iter = fdb.iter(b"k20", b"k50", IterOrder::Desc).into_iter();
    let expected = vec![
        (b"k40".to_vec(), b"v40".to_vec()),
        (b"k30".to_vec(), b"v30".to_vec()),
        (b"k20".to_vec(), b"v20".to_vec()),
    ];
    let actual = iter
        .map(|(k, v)| (k.to_vec(), v.to_vec()))
        .collect::<Vec<_>>();
    assert_eq!(expected, actual);

    // commit aux
    fdb.commit(
        vec![
            (b"k11".to_vec(), Some(b"v11".to_vec())),
            (b"k21".to_vec(), Some(b"v21".to_vec())),
            (b"k31".to_vec(), Some(b"v31".to_vec())),
            (b"k41".to_vec(), Some(b"v41".to_vec())),
            (b"k51".to_vec(), Some(b"v51".to_vec())),
        ],
        false,
    )
    .unwrap();

    // iterate aux on range ["k21", "k51")
    let iter_aux = fdb.iter_aux(b"k21", b"k51", IterOrder::Desc).into_iter();
    let expected_aux = vec![
        (b"k41".to_vec(), b"v41".to_vec()),
        (b"k31".to_vec(), b"v31".to_vec()),
        (b"k21".to_vec(), b"v21".to_vec()),
    ];
    let actual_aux = iter_aux
        .map(|(k, v)| (k.to_vec(), v.to_vec()))
        .collect::<Vec<_>>();
    assert_eq!(expected_aux, actual_aux);
}

#[test]
fn lib_db_snapshot() {
    let mut fdb = fresh();

    // put data
    fdb.put_batch(vec![
        (b"k10".to_vec(), Some(b"v10".to_vec())),
        (b"k20".to_vec(), Some(b"v20".to_vec())),
        (b"k30".to_vec(), Some(b"v30".to_vec())),
        (b"k40".to_vec(), Some(b"v40".to_vec())),
    ])
    .unwrap();

    // commit with some aux
    fdb.commit(
        vec![
            (b"k11".to_vec(), Some(b"v11".to_vec())),
            (b"k21".to_vec(), Some(b"v21".to_vec())),
            (b"k31".to_vec(), Some(b"v31".to_vec())),
        ],
        false,
    )
    .unwrap();

    // take snapshot
    let bytes = fdb.snapshot().unwrap();

    // verify data
    let fdb_cp = MemoryDB::open(String::from("temp-memorydb-copy"), Some(bytes)).unwrap();

    assert_eq!(fdb_cp.get(b"k10").unwrap().unwrap(), b"v10".to_vec());
    assert_eq!(fdb_cp.get(b"k20").unwrap().unwrap(), b"v20".to_vec());
    assert_eq!(fdb_cp.get(b"k30").unwrap().unwrap(), b"v30".to_vec());
    assert_eq!(fdb_cp.get(b"k40").unwrap().unwrap(), b"v40".to_vec());

    // verify aux
    assert_eq!(fdb_cp.get_aux(b"k11").unwrap().unwrap(), b"v11".to_vec());
    assert_eq!(fdb_cp.get_aux(b"k21").unwrap().unwrap(), b"v21".to_vec());
    assert_eq!(fdb_cp.get_aux(b"k31").unwrap().unwrap(), b"v31".to_vec());

    // iterate data on range ["k10", "k40")
    let iter = fdb_cp.iter(b"k10", b"k40", IterOrder::Desc).into_iter();
    let expected = vec![
        (b"k30".to_vec(), b"v30".to_vec()),
        (b"k20".to_vec(), b"v20".to_vec()),
        (b"k10".to_vec(), b"v10".to_vec()),
    ];
    let actual = iter
        .map(|(k, v)| (k.to_vec(), v.to_vec()))
        .collect::<Vec<_>>();
    assert_eq!(expected, actual);

    // iterate aux on range ["k11", "k31")
    let iter_aux = fdb_cp.iter_aux(b"k11", b"k31", IterOrder::Desc).into_iter();
    let expected_aux = vec![
        (b"k21".to_vec(), b"v21".to_vec()),
        (b"k11".to_vec(), b"v11".to_vec()),
    ];
    let actual_aux = iter_aux
        .map(|(k, v)| (k.to_vec(), v.to_vec()))
        .collect::<Vec<_>>();
    assert_eq!(expected_aux, actual_aux);
}

#[test]
fn unwritten_key_is_not_found() {
    let mut db = fresh();
    assert_eq!(db.get(b"k10").unwrap(), None);
    assert_eq!(db.get_aux(b"k10").unwrap(), None);
    db.put_batch(vec![(b"k10".to_vec(), Some(b"v10".to_vec()))])
        .unwrap();
    assert_eq!(db.get(b"k1").unwrap(), None);
    assert_eq!(db.get(b"k100").unwrap(), None);
    assert_eq!(db.get(b"").unwrap(), None);
    assert_eq!(db.get(b"k10").unwrap(), Some(b"v10".to_vec()));
}

#[test]
fn tombstone_hides_an_earlier_value() {
    let mut db = fresh();
    db.put_batch(vec![(b"k".to_vec(), Some(b"v".to_vec()))])
        .unwrap();
    assert_eq!(db.get(b"k").unwrap(), Some(b"v".to_vec()));
    db.put_batch(vec![(b"k".to_vec(), None)]).unwrap();
    assert_eq!(db.get(b"k").unwrap(), None);
    db.put_batch(vec![(b"k".to_vec(), Some(b"w".to_vec()))])
        .unwrap();
    assert_eq!(db.get(b"k").unwrap(), Some(b"w".to_vec()));
}

#[test]
fn tombstone_of_a_key_never_written() {
    let mut db = fresh();
    db.put_batch(vec![(b"k".to_vec(), None)]).unwrap();
    assert_eq!(db.get(b"k").unwrap(), None);
    assert!(db.db_all_iterator(IterOrder::Asc).is_empty());
}

#[test]
fn last_write_of_a_batch_wins() {
    let mut db = fresh();
    db.put_batch(vec![
        (b"a".to_vec(), Some(b"1".to_vec())),
        (b"b".to_vec(), Some(b"2".to_vec())),
        (b"a".to_vec(), None),
        (b"b".to_vec(), Some(b"3".to_vec())),
        (b"c".to_vec(), None),
        (b"c".to_vec(), Some(b"4".to_vec())),
    ])
    .unwrap();
    assert_eq!(db.get(b"a").unwrap(), None);
    assert_eq!(db.get(b"b").unwrap(), Some(b"3".to_vec()));
    assert_eq!(db.get(b"c").unwrap(), Some(b"4".to_vec()));
}

#[test]
fn empty_value_is_a_value() {
    let mut db = fresh();
    db.put_batch(vec![(b"k".to_vec(), Some(Vec::new()))]).unwrap();
    assert_eq!(db.get(b"k").unwrap(), Some(Vec::new()));
    assert_eq!(
        db.db_all_iterator(IterOrder::Asc),
        vec![(b"k".to_vec(), Vec::new())]
    );
}

#[test]
fn main_and_aux_are_independent() {
    let mut db = fresh();
    db.put_batch(vec![(b"k".to_vec(), Some(b"main".to_vec()))])
        .unwrap();
    assert_eq!(db.get_aux(b"k").unwrap(), None);
    db.commit(vec![(b"k".to_vec(), Some(b"aux".to_vec()))], false)
        .unwrap();
    assert_eq!(db.get(b"k").unwrap(), Some(b"main".to_vec()));
    assert_eq!(db.get_aux(b"k").unwrap(), Some(b"aux".to_vec()));
    db.commit(vec![(b"k".to_vec(), None)], false).unwrap();
    assert_eq!(db.get(b"k").unwrap(), Some(b"main".to_vec()));
    assert_eq!(db.get_aux(b"k").unwrap(), None);
    db.put_batch(vec![(b"only-main".to_vec(), Some(b"x".to_vec()))])
        .unwrap();
    assert_eq!(db.get_aux(b"only-main").unwrap(), None);
    assert!(db.iter_aux(b"", b"zzzz", IterOrder::Asc).is_empty());
}

#[test]
fn clean_aux_leaves_main() {
    let mut db = fresh();
    db.put_batch(vec![(b"k".to_vec(), Some(b"v".to_vec()))])
        .unwrap();
    db.commit(vec![(b"height".to_vec(), Some(b"7".to_vec()))], false)
        .unwrap();
    db.clean_aux().unwrap();
    assert_eq!(db.get_aux(b"height").unwrap(), None);
    assert_eq!(db.get(b"k").unwrap(), Some(b"v".to_vec()));
}

fn sample() -> MemoryDB {
    let mut db = fresh();
    db.put_batch(vec![
        (b"k30".to_vec(), Some(b"v30".to_vec())),
        (b"k10".to_vec(), Some(b"v10".to_vec())),
        (b"k50".to_vec(), Some(b"v50".to_vec())),
        (b"k20".to_vec(), Some(b"v20".to_vec())),
        (b"k40".to_vec(), None),
    ])
    .unwrap();
    db
}

#[test]
fn descending_is_ascending_reversed() {
    let db = sample();
    let asc = db.iter(b"k10", b"k50", IterOrder::Asc);
    let mut desc = db.iter(b"k10", b"k50", IterOrder::Desc);
    assert_eq!(
        asc,
        vec![
            (b"k10".to_vec(), b"v10".to_vec()),
            (b"k20".to_vec(), b"v20".to_vec()),
            (b"k30".to_vec(), b"v30".to_vec()),
        ]
    );
    desc.reverse();
    assert_eq!(asc, desc);
}

#[test]
fn iteration_skips_tombstones() {
    let db = sample();
    let all = db.iter(b"k", b"l", IterOrder::Asc);
    assert!(all.iter().all(|(k, _)| k.as_slice() != b"k40"));
    assert_eq!(all.len(), 4);
}

#[test]
fn range_bounds_are_half_open() {
    let db = sample();
    assert_eq!(
        db.iter(b"k20", b"k30", IterOrder::Asc),
        vec![(b"k20".to_vec(), b"v20".to_vec())]
    );
    assert_eq!(
        db.iter(b"k2", b"k300", IterOrder::Asc),
        vec![
            (b"k20".to_vec(), b"v20".to_vec()),
            (b"k30".to_vec(), b"v30".to_vec()),
        ]
    );
    assert!(db.iter(b"k20", b"k20", IterOrder::Asc).is_empty());
    assert!(db.iter(b"k50", b"k10", IterOrder::Asc).is_empty());
    assert!(db.iter(b"k50", b"k10", IterOrder::Desc).is_empty());
    assert!(db.iter(b"", b"", IterOrder::Asc).is_empty());
}

#[test]
fn all_iterator_has_no_sentinel() {
    let mut db = fresh();
    db.put_batch(vec![
        (b"zebra".to_vec(), Some(b"1".to_vec())),
        (b"0".to_vec(), Some(b"2".to_vec())),
        (b"!".to_vec(), Some(b"3".to_vec())),
        (vec![255u8, 255u8], Some(b"4".to_vec())),
        (Vec::new(), Some(b"5".to_vec())),
        (b"gone".to_vec(), None),
    ])
    .unwrap();
    let asc = db.db_all_iterator(IterOrder::Asc);
    assert_eq!(
        asc,
        vec![
            (Vec::new(), b"5".to_vec()),
            (b"!".to_vec(), b"3".to_vec()),
            (b"0".to_vec(), b"2".to_vec()),
            (b"zebra".to_vec(), b"1".to_vec()),
            (vec![255u8, 255u8], b"4".to_vec()),
        ]
    );
    let mut desc = db.db_all_iterator(IterOrder::Desc);
    desc.reverse();
    assert_eq!(asc, desc);
}

#[test]
fn destroy_clears_both_namespaces() {
    let mut db = sample();
    db.commit(vec![(b"height".to_vec(), Some(b"1".to_vec()))], false)
        .unwrap();
    db.destroy();
    assert_eq!(db.get(b"k10").unwrap(), None);
    assert_eq!(db.get(b"k40").unwrap(), None);
    assert_eq!(db.get_aux(b"height").unwrap(), None);
    assert!(db.db_all_iterator(IterOrder::Asc).is_empty());
    assert_eq!(db.temp_path().as_str(), "temp-memorydb");
    db.destroy();
    assert_eq!(db.get(b"k10").unwrap(), None);
}

#[test]
fn root_hash_is_empty() {
    let db = sample();
    assert_eq!(db.root_hash(), Vec::<u8>::new());
}

#[test]
fn decode_kv_copies_the_pair() {
    let db = fresh();
    let pair = (
        b"k10".to_vec().into_boxed_slice(),
        b"v10".to_vec().into_boxed_slice(),
    );
    assert_eq!(db.decode_kv(pair), (b"k10".to_vec(), b"v10".to_vec()));
}

#[test]
fn open_without_contents_is_empty() {
    let db = MemoryDB::open(String::from("somewhere"), None).unwrap();
    assert_eq!(db.temp_path().as_str(), "somewhere");
    assert_eq!(db.get(b"k10").unwrap(), None);
    assert!(db.db_all_iterator(IterOrder::Asc).is_empty());
}

#[test]
fn open_rejects_what_is_no_snapshot() {
    let r = MemoryDB::open(String::from("somewhere"), Some(vec![1, 2, 3]));
    assert_eq!(r.err(), Some(StoreError::DeserializeFailure));
    let r = MemoryDB::open(String::from("somewhere"), Some(Vec::new()));
    assert_eq!(r.err(), Some(StoreError::DeserializeFailure));
}

#[test]
fn open_rejects_a_cut_snapshot() {
    let db = sample();
    let mut bytes = db.snapshot().unwrap();
    bytes.pop();
    let r = MemoryDB::open(String::from("somewhere"), Some(bytes));
    assert_eq!(r.err(), Some(StoreError::DeserializeFailure));
}

#[test]
fn snapshot_bytes_of_a_small_store() {
    let mut db = MemoryDB::new(String::from("p"));
    db.put_batch(vec![(b"k".to_vec(), Some(b"v".to_vec()))])
        .unwrap();
    db.commit(vec![(b"t".to_vec(), None)], false).unwrap();
    let mut expected: Vec<u8> = Vec::new();
    // the path
    expected.extend_from_slice(&[1, 0, 0, 0, 0, 0, 0, 0]);
    expected.push(b'p');
    // the main namespace: one slot with a value
    expected.extend_from_slice(&[1, 0, 0, 0, 0, 0, 0, 0]);
    expected.extend_from_slice(&[1, 0, 0, 0, 0, 0, 0, 0]);
    expected.push(b'k');
    expected.push(1);
    expected.extend_from_slice(&[1, 0, 0, 0, 0, 0, 0, 0]);
    expected.push(b'v');
    // the auxiliary namespace: one tombstone
    expected.extend_from_slice(&[1, 0, 0, 0, 0, 0, 0, 0]);
    expected.extend_from_slice(&[1, 0, 0, 0, 0, 0, 0, 0]);
    expected.push(b't');
    expected.push(0);
    assert_eq!(db.snapshot().unwrap(), expected);
    assert_eq!(
        db.commit(Vec::new(), true).unwrap(),
        Some(expected.clone())
    );
    assert_eq!(db.commit(Vec::new(), false).unwrap(), None);
}

#[test]
fn snapshot_round_trip_keeps_tombstones_and_path() {
    let mut db = sample();
    db.commit(
        vec![
            (b"height".to_vec(), Some(b"9".to_vec())),
            (b"old".to_vec(), None),
        ],
        false,
    )
    .unwrap();
    let bytes = db.snapshot().unwrap();
    let copy = MemoryDB::open(String::from("elsewhere"), Some(bytes.clone())).unwrap();
    assert_eq!(copy.temp_path().as_str(), "elsewhere");
    assert_eq!(db.temp_path().as_str(), "temp-memorydb");
    let again = MemoryDB::open(String::from("temp-memorydb"), copy.snapshot().ok()).unwrap();
    assert_eq!(again.snapshot().unwrap(), bytes);
    assert_eq!(copy.get(b"k40").unwrap(), None);
    assert_eq!(copy.get(b"k30").unwrap(), Some(b"v30".to_vec()));
    assert_eq!(copy.get_aux(b"height").unwrap(), Some(b"9".to_vec()));
    assert_eq!(copy.get_aux(b"old").unwrap(), None);
    assert_eq!(
        copy.db_all_iterator(IterOrder::Asc),
        db.db_all_iterator(IterOrder::Asc)
    );
    assert_eq!(
        copy.iter_aux(b"a", b"z", IterOrder::Desc),
        db.iter_aux(b"a", b"z", IterOrder::Desc)
    );
}

#[test]
fn open_binds_to_the_path_given() {
    let mut live = MemoryDB::new(String::from("q"));
    live.put_batch(vec![(b"k".to_vec(), Some(b"v".to_vec()))])
        .unwrap();
    let bytes = live.snapshot().unwrap();
    let mut copy = MemoryDB::open(String::from("p"), Some(bytes)).unwrap();
    assert_eq!(copy.temp_path().as_str(), "p");
    assert_eq!(copy.get(b"k").unwrap(), Some(b"v".to_vec()));
    copy.destroy();
    assert_eq!(copy.temp_path().as_str(), "p");
    assert_eq!(live.temp_path().as_str(), "q");
    assert_eq!(live.get(b"k").unwrap(), Some(b"v".to_vec()));
}

#[test]
fn snapshot_does_not_change_the_store() {
    let db = sample();
    let first = db.snapshot().unwrap();
    let second = db.snapshot().unwrap();
    assert_eq!(first, second);
    assert_eq!(db.get(b"k10").unwrap(), Some(b"v10".to_vec()));
}

#[test]
fn restore_writes_the_slots_in_turn() {
    let main = vec![
        (b"b".to_vec(), Some(b"1".to_vec())),
        (b"a".to_vec(), Some(b"2".to_vec())),
        (b"b".to_vec(), None),
        (b"c".to_vec(), Some(b"3".to_vec())),
    ];
    let aux = vec![(b"h".to_vec(), Some(b"5".to_vec()))];
    let db = MemoryDB::restore(String::from("p"), &main, &aux);
    assert_eq!(db.temp_path().as_str(), "p");
    assert_eq!(db.get(b"b").unwrap(), None);
    assert_eq!(
        db.db_all_iterator(IterOrder::Asc),
        vec![
            (b"a".to_vec(), b"2".to_vec()),
            (b"c".to_vec(), b"3".to_vec()),
        ]
    );
    assert_eq!(db.get_aux(b"h").unwrap(), Some(b"5".to_vec()));
}

#[test]
fn snapshot_outcome_maps_the_encoder_error() {
    let failed: Result<Vec<u8>, Box<bincode::ErrorKind>> =
        Err(Box::new(bincode::ErrorKind::SizeLimit));
    assert_eq!(
        mem_db::store::snapshot_outcome(failed),
        Err(StoreError::SerializeFailure)
    );
    assert_eq!(
        mem_db::store::snapshot_outcome(Ok(vec![1, 2])),
        Ok(vec![1, 2])
    );
}
