use surreal_executor::err::Error;
use surreal_executor::key::{key_eq, key_lt};
use surreal_executor::kvs::{Datastore, Mutation, Transaction, TransactionType};

fn open(write: bool) -> Transaction {
    Datastore::new("file:/tmp/test.db").transaction(write, false)
}

#[test]
fn datastore_keeps_its_path() {
    let ds = Datastore::new("file:/tmp/test.db");
    assert_eq!(ds.path().as_str(), "file:/tmp/test.db");
}

#[test]
fn transaction_starts_open() {
    let tx = open(true);
    assert!(!tx.closed());
    assert!(tx.writable());
    assert_eq!(tx.kind(), TransactionType::Write);
    let tx = open(false);
    assert!(!tx.closed());
    assert!(!tx.writable());
    assert_eq!(tx.kind(), TransactionType::Read);
    tx.kind().rollback();
}

#[test]
fn cancel_after_cancel_is_finished() {
    let mut tx = open(true);
    assert!(matches!(tx.cancel(), Ok(TransactionType::Write)));
    assert!(tx.closed());
    assert!(matches!(tx.cancel(), Err(Error::TxFinished)));
    let mut tx = open(false);
    assert!(matches!(tx.cancel(), Ok(TransactionType::Read)));
    assert!(matches!(tx.cancel(), Err(Error::TxFinished)));
}

#[test]
fn commit_after_commit_is_finished() {
    let mut tx = open(true);
    assert!(matches!(tx.commit(), Ok(())));
    assert!(tx.closed());
    assert!(matches!(tx.commit(), Err(Error::TxFinished)));
    assert!(matches!(tx.cancel(), Err(Error::TxFinished)));
}

#[test]
fn commit_of_a_reader_is_readonly() {
    let mut tx = open(false);
    assert!(matches!(tx.commit(), Err(Error::TxReadonly)));
    assert!(!tx.closed());
    assert!(matches!(tx.commit(), Err(Error::TxReadonly)));
}

#[test]
fn reads_of_a_closed_transaction_fail() {
    let mut tx = open(false);
    let v = b"oh".to_vec();
    assert!(matches!(tx.exi(Some(&v)), Ok(true)));
    assert!(matches!(tx.exi(None), Ok(false)));
    assert!(matches!(tx.get(Some(v.clone())), Ok(Some(x)) if x == v));
    assert!(matches!(tx.get(None), Ok(None)));
    tx.cancel().unwrap();
    assert!(matches!(tx.exi(Some(&v)), Err(Error::TxFinished)));
    assert!(matches!(tx.get(Some(v.clone())), Err(Error::TxFinished)));
    assert!(matches!(tx.scan(&vec![], &b"a".to_vec(), &b"b".to_vec(), 10), Err(Error::TxFinished)));
}

#[test]
fn writes_need_an_open_writer() {
    let k = b"uh".to_vec();
    let v = b"oh".to_vec();
    let tx = open(false);
    assert!(matches!(tx.set(k.clone(), v.clone()), Err(Error::TxReadonly)));
    assert!(matches!(tx.put(k.clone(), v.clone(), None), Err(Error::TxReadonly)));
    assert!(matches!(tx.putc(k.clone(), v.clone(), None, None), Err(Error::TxReadonly)));
    assert!(matches!(tx.del(k.clone()), Err(Error::TxReadonly)));
    assert!(matches!(tx.delc(k.clone(), None, None), Err(Error::TxReadonly)));
    let mut tx = open(true);
    tx.commit().unwrap();
    assert!(matches!(tx.set(k.clone(), v.clone()), Err(Error::TxFinished)));
    assert!(matches!(tx.put(k.clone(), v.clone(), None), Err(Error::TxFinished)));
    assert!(matches!(tx.putc(k.clone(), v.clone(), None, None), Err(Error::TxFinished)));
    assert!(matches!(tx.del(k.clone()), Err(Error::TxFinished)));
    assert!(matches!(tx.delc(k.clone(), None, None), Err(Error::TxFinished)));
}

#[test]
fn set_and_del_name_the_change() {
    let k = b"uh".to_vec();
    let v = b"oh".to_vec();
    let tx = open(true);
    assert!(matches!(tx.set(k.clone(), v.clone()), Ok(Mutation::Put { key, val }) if key == k && val == v));
    assert!(matches!(tx.del(k.clone()), Ok(Mutation::Del { key }) if key == k));
}

#[test]
fn put_refuses_a_key_that_exists() {
    let k = b"uh".to_vec();
    let v = b"oh".to_vec();
    let old = b"old".to_vec();
    let tx = open(true);
    assert!(matches!(tx.put(k.clone(), v.clone(), Some(&old)), Err(Error::TxKeyAlreadyExists)));
    assert!(matches!(tx.put(k.clone(), v.clone(), None), Ok(Mutation::Put { key, val }) if key == k && val == v));
}

#[test]
fn putc_and_delc_compare_the_stored_value() {
    let k = b"uh".to_vec();
    let v = b"new".to_vec();
    let old = b"old".to_vec();
    let other = b"other".to_vec();
    let tx = open(true);
    assert!(matches!(tx.putc(k.clone(), v.clone(), Some(old.clone()), Some(&old)), Ok(Mutation::Put { .. })));
    assert!(matches!(tx.putc(k.clone(), v.clone(), None, None), Ok(Mutation::Put { .. })));
    assert!(matches!(tx.putc(k.clone(), v.clone(), Some(other.clone()), Some(&old)), Err(Error::TxConditionNotMet)));
    assert!(matches!(tx.putc(k.clone(), v.clone(), None, Some(&old)), Err(Error::TxConditionNotMet)));
    assert!(matches!(tx.putc(k.clone(), v.clone(), Some(old.clone()), None), Err(Error::TxConditionNotMet)));
    assert!(matches!(tx.delc(k.clone(), Some(old.clone()), Some(&old)), Ok(Mutation::Del { key }) if key == k));
    assert!(matches!(tx.delc(k.clone(), None, None), Ok(Mutation::Del { .. })));
    assert!(matches!(tx.delc(k.clone(), Some(other.clone()), Some(&old)), Err(Error::TxConditionNotMet)));
    assert!(matches!(tx.delc(k.clone(), None, Some(&old)), Err(Error::TxConditionNotMet)));
}

fn row(k: &[u8], v: &[u8]) -> (Vec<u8>, Vec<u8>) {
    (k.to_vec(), v.to_vec())
}

#[test]
fn scan_takes_the_rows_in_range_up_to_the_limit() {
    let tx = open(false);
    let rows = vec![row(b"b", b"1"), row(b"ba", b"2"), row(b"c", b"3"), row(b"d", b"4"), row(b"e", b"5")];
    let res = tx.scan(&rows, &b"b".to_vec(), &b"d".to_vec(), 10).unwrap();
    assert_eq!(res, vec![row(b"b", b"1"), row(b"ba", b"2"), row(b"c", b"3")]);
    let res = tx.scan(&rows, &b"b".to_vec(), &b"d".to_vec(), 2).unwrap();
    assert_eq!(res, vec![row(b"b", b"1"), row(b"ba", b"2")]);
    let res = tx.scan(&rows, &b"b".to_vec(), &b"d".to_vec(), 0).unwrap();
    assert_eq!(res, vec![]);
    let res = tx.scan(&rows, &b"bb".to_vec(), &b"z".to_vec(), 10).unwrap();
    assert_eq!(res, vec![]);
    let res = tx.scan(&rows, &b"a".to_vec(), &b"z".to_vec(), 10).unwrap();
    assert_eq!(res, rows);
    let res = tx.scan(&rows, &b"d".to_vec(), &b"b".to_vec(), 10).unwrap();
    assert_eq!(res, vec![]);
}

#[test]
fn keys_are_ordered_byte_by_byte() {
    assert!(key_lt(&b"".to_vec(), &b"a".to_vec()));
    assert!(key_lt(&b"a".to_vec(), &b"ab".to_vec()));
    assert!(key_lt(&b"ab".to_vec(), &b"b".to_vec()));
    assert!(key_lt(&vec![0x01, 0xff], &vec![0x02]));
    assert!(!key_lt(&b"a".to_vec(), &b"a".to_vec()));
    assert!(!key_lt(&b"b".to_vec(), &b"ab".to_vec()));
    assert!(key_lt(&b"a".to_vec(), &vec![b'a', 0]));
    assert!(key_eq(&b"abc".to_vec(), &b"abc".to_vec()));
    assert!(!key_eq(&b"abc".to_vec(), &b"abd".to_vec()));
    assert!(!key_eq(&b"abc".to_vec(), &b"ab".to_vec()));
}
