use hub_store::db::{Db, Transaction};

#[test]
fn put_get_delete() {
    let mut db = Db::new();
    assert!(db.get(&vec![1, 2]).is_none());
    db.put(vec![1, 2], vec![9]);
    db.put(vec![1, 3], vec![8]);
    db.put(vec![1, 2], vec![7]);
    assert_eq!(db.get(&vec![1, 2]), Some(vec![7]));
    assert_eq!(db.get(&vec![1, 3]), Some(vec![8]));
    db.delete(&vec![1, 2]);
    assert!(db.get(&vec![1, 2]).is_none());
    assert_eq!(db.clear(), 1);
    assert!(db.get(&vec![1, 3]).is_none());
}

#[test]
fn commit_applies_every_write_in_order() {
    let mut db = Db::new();
    let mut txn = Transaction::new();
    txn.put(vec![5], vec![1]);
    txn.put(vec![6], vec![2]);
    txn.delete(vec![5]);
    txn.put(vec![6], vec![3]);
    db.commit(txn).expect("commit");
    assert!(db.get(&vec![5]).is_none());
    assert_eq!(db.get(&vec![6]), Some(vec![3]));
}

#[test]
fn prefix_scan_is_ordered_and_filtered() {
    let mut db = Db::new();
    db.put(vec![1, 9], vec![0]);
    db.put(vec![2, 3], vec![1]);
    db.put(vec![2, 1], vec![2]);
    db.put(vec![2, 2], vec![3]);
    db.put(vec![3, 0], vec![4]);
    let rows = db.prefix_scan(&vec![2], false, None);
    let keys: Vec<Vec<u8>> = rows.iter().map(|p| p.0.clone()).collect();
    assert_eq!(keys, vec![vec![2, 1], vec![2, 2], vec![2, 3]]);

    let rows = db.prefix_scan(&vec![2], true, None);
    let keys: Vec<Vec<u8>> = rows.iter().map(|p| p.0.clone()).collect();
    assert_eq!(keys, vec![vec![2, 3], vec![2, 2], vec![2, 1]]);

    let rows = db.prefix_scan(&vec![2], false, Some(&vec![2, 1]));
    let keys: Vec<Vec<u8>> = rows.iter().map(|p| p.0.clone()).collect();
    assert_eq!(keys, vec![vec![2, 2], vec![2, 3]]);

    let rows = db.prefix_scan(&vec![2], true, Some(&vec![2, 3]));
    let keys: Vec<Vec<u8>> = rows.iter().map(|p| p.0.clone()).collect();
    assert_eq!(keys, vec![vec![2, 2], vec![2, 1]]);
}
