use surreal_executor::err::Error;
use surreal_executor::idx::{be_decode, be_encode, read_rows, IndexKeyBase};
use surreal_executor::iterators::{
    IndexEqualThingIterator, IndexJoinThingIterator, IndexRangeThingIterator, IndexUnionThingIterator,
    ThingIterator, ThingsIterator, UniqueEqualThingIterator, UniqueJoinThingIterator,
    UniqueUnionThingIterator,
};
use surreal_executor::plan::RangeValue;
use surreal_executor::sql::Thing;

const NS: u32 = 1;
const DB: u32 = 2;
const TB: u32 = 3;
const IX: u32 = 4;

fn t(id: u64) -> Thing {
    Thing { tb: TB, id }
}

/// The rows that an index over (record, value) pairs keeps, in key order.
fn index(ix: u32, records: &[(u64, i64)]) -> Vec<(Vec<u8>, Thing)> {
    let base = IndexKeyBase::new(NS, DB, TB, ix);
    let mut rows: Vec<(Vec<u8>, Thing)> =
        records.iter().map(|(id, n)| (base.new_entry_key(*n, *id), t(*id))).collect();
    rows.sort();
    rows
}

fn scan(store: &[(Vec<u8>, Thing)], beg: &[u8], end: &[u8], limit: u32) -> Vec<(Vec<u8>, Thing)> {
    store
        .iter()
        .filter(|(k, _)| k.as_slice() >= beg && k.as_slice() < end)
        .take(limit as usize)
        .cloned()
        .collect()
}

fn drive(it: &mut ThingIterator, store: &[(Vec<u8>, Thing)], limit: u32) -> Vec<Thing> {
    let mut out = vec![];
    let mut steps = 0;
    while !it.is_done() {
        steps += 1;
        assert!(steps < 1000);
        let rows = match it.range() {
            Some((beg, end)) => scan(store, &beg, &end, limit),
            None => vec![],
        };
        out.extend(it.next_batch(&rows, limit));
    }
    out
}

#[test]
fn numbers_are_written_highest_digit_first() {
    assert_eq!(be_encode(0x0102, 4), vec![0, 0, 1, 2]);
    assert_eq!(be_encode(u64::MAX, 8), vec![0xff; 8]);
    assert_eq!(be_encode(0x0102, 1), vec![2]);
    assert_eq!(be_encode(7, 0), Vec::<u8>::new());
}

#[test]
fn keys_are_laid_out_field_by_field() {
    let base = IndexKeyBase::new(1, 2, 3, 4);
    let mut want = vec![0x2f, 0, 0, 0, 1, 0, 0, 0, 2, 0, 0, 0, 3, 0, 0, 0, 4];
    want.extend([0x80, 0, 0, 0, 0, 0, 0, 5]);
    let mut beg = want.clone();
    beg.push(0x00);
    let mut end = want.clone();
    end.push(0xff);
    assert_eq!(base.prefix_ids_beg(5), beg);
    assert_eq!(base.prefix_ids_end(5), end);
    want.push(0x01);
    want.extend([0, 0, 0, 0, 0, 0, 0, 9]);
    assert_eq!(base.new_entry_key(5, 9), want);
}

#[test]
fn keys_are_ordered_as_their_values() {
    let base = IndexKeyBase::new(1, 2, 3, 4);
    let values = [i64::MIN, -256, -1, 0, 1, 255, 256, i64::MAX];
    for w in values.windows(2) {
        assert!(base.new_entry_key(w[0], u64::MAX) < base.new_entry_key(w[1], 0));
        assert!(base.prefix_ids_end(w[0]) < base.prefix_ids_beg(w[1]));
    }
    for v in values {
        assert!(base.prefix_ids_beg(v) < base.new_entry_key(v, 0));
        assert!(base.new_entry_key(v, u64::MAX) < base.prefix_ids_end(v));
    }
}

#[test]
fn equality_yields_the_entries_of_the_value() {
    let store = index(IX, &[(1, 5), (2, 5), (3, 7)]);
    for limit in [1, 2, 10] {
        let mut it = ThingIterator::IndexEqual(IndexEqualThingIterator::new(NS, DB, TB, IX, 5));
        assert_eq!(drive(&mut it, &store, limit), vec![t(1), t(2)]);
    }
    let mut it = ThingIterator::IndexEqual(IndexEqualThingIterator::new(NS, DB, TB, IX, 6));
    assert_eq!(drive(&mut it, &store, 10), vec![]);
}

#[test]
fn range_is_half_open() {
    let store = index(IX, &[(1, 1), (2, 2), (3, 3), (4, 4), (5, 5)]);
    let from = RangeValue { value: 2, inclusive: true };
    let to = RangeValue { value: 5, inclusive: false };
    for limit in [1, 2, 10] {
        let mut it = ThingIterator::IndexRange(IndexRangeThingIterator::new(NS, DB, TB, IX, &from, &to));
        assert_eq!(drive(&mut it, &store, limit), vec![t(2), t(3), t(4)]);
    }
}

#[test]
fn range_ends_are_taken_in_or_left_out() {
    let store = index(IX, &[(1, 1), (2, 2), (3, 3), (4, 4), (5, 5)]);
    let run = |fv: i64, fi: bool, tv: i64, ti: bool| {
        let from = RangeValue { value: fv, inclusive: fi };
        let to = RangeValue { value: tv, inclusive: ti };
        let mut it = ThingIterator::IndexRange(IndexRangeThingIterator::new(NS, DB, TB, IX, &from, &to));
        drive(&mut it, &store, 2)
    };
    assert_eq!(run(2, false, 5, false), vec![t(3), t(4)]);
    assert_eq!(run(2, true, 5, true), vec![t(2), t(3), t(4), t(5)]);
    assert_eq!(run(2, false, 5, true), vec![t(3), t(4), t(5)]);
    assert_eq!(run(4, true, 2, true), vec![]);
    assert_eq!(run(3, true, 3, true), vec![t(3)]);
    assert_eq!(run(3, false, 3, true), vec![]);
}

#[test]
fn union_keeps_the_order_of_its_values() {
    let store = index(IX, &[(1, 1), (2, 2), (3, 3), (4, 4), (5, 5)]);
    let mut it = ThingIterator::IndexUnion(IndexUnionThingIterator::new(NS, DB, TB, IX, &vec![3, 1]));
    assert_eq!(drive(&mut it, &store, 10), vec![t(3), t(1)]);
    let mut it = ThingIterator::IndexUnion(IndexUnionThingIterator::new(NS, DB, TB, IX, &vec![3, 9, 3]));
    assert_eq!(drive(&mut it, &store, 1), vec![t(3), t(3)]);
    let mut it = ThingIterator::IndexUnion(IndexUnionThingIterator::new(NS, DB, TB, IX, &vec![]));
    assert!(it.is_done());
    assert_eq!(drive(&mut it, &store, 1), vec![]);
}

#[test]
fn unique_iterators_take_one_record_for_each_value() {
    let store = index(IX, &[(1, 5), (2, 5), (3, 7)]);
    let mut it = ThingIterator::UniqueEqual(UniqueEqualThingIterator::new(NS, DB, TB, IX, 5));
    assert_eq!(drive(&mut it, &store, 10), vec![t(1)]);
    let mut it = ThingIterator::UniqueUnion(UniqueUnionThingIterator::new(NS, DB, TB, IX, &vec![7, 5, 6]));
    assert_eq!(drive(&mut it, &store, 10), vec![t(3), t(1)]);
}

#[test]
fn list_is_handed_out_in_batches() {
    let mut it = ThingsIterator::new(vec![t(1), t(2), t(3)]);
    assert!(!it.is_empty());
    assert_eq!(it.next_batch(2), vec![t(1), t(2)]);
    assert_eq!(it.next_batch(2), vec![t(3)]);
    assert!(it.is_empty());
    assert_eq!(it.next_batch(2), vec![]);
    let mut it = ThingIterator::Things(ThingsIterator::new(vec![t(1), t(2), t(3)]));
    assert!(it.range().is_none());
    assert_eq!(drive(&mut it, &[], 2), vec![t(1), t(2), t(3)]);
}

#[test]
fn join_looks_each_outer_record_up() {
    // The inner index holds, under the number of an outer record, the
    // records that link to it.
    let inner = 9;
    let store = index(inner, &[(10, 1), (11, 1), (12, 2), (13, 4)]);
    let outer = vec![
        ThingIterator::Things(ThingsIterator::new(vec![t(2), t(1)])),
        ThingIterator::Things(ThingsIterator::new(vec![])),
        ThingIterator::Things(ThingsIterator::new(vec![t(1), t(3)])),
    ];
    let mut it = ThingIterator::IndexJoin(Box::new(IndexJoinThingIterator::new(NS, DB, TB, inner, outer)));
    assert_eq!(drive(&mut it, &store, 1), vec![t(12), t(10), t(11), t(10), t(11)]);
    assert!(it.is_done());
}

#[test]
fn join_over_a_scan_and_a_unique_index() {
    let mut store = index(IX, &[(1, 5), (2, 5), (3, 7)]);
    store.extend(index(9, &[(10, 1), (11, 1), (12, 2)]));
    store.sort();
    let outer = vec![ThingIterator::IndexEqual(IndexEqualThingIterator::new(NS, DB, TB, IX, 5))];
    let mut it = ThingIterator::UniqueJoin(Box::new(UniqueJoinThingIterator::new(NS, DB, TB, 9, outer)));
    assert_eq!(drive(&mut it, &store, 10), vec![t(10), t(12)]);
    let mut it = ThingIterator::IndexJoin(Box::new(IndexJoinThingIterator::new(NS, DB, TB, 9, vec![])));
    assert!(it.is_done());
    assert_eq!(drive(&mut it, &store, 10), vec![]);
}

#[test]
fn numbers_are_read_as_they_are_written() {
    assert_eq!(be_decode(&[9, 0, 0, 1, 2, 9], 1, 4), 0x0102);
    assert_eq!(be_decode(&[0xff; 8], 0, 8), u64::MAX);
    assert_eq!(be_decode(&[1, 2], 2, 0), 0);
    for v in [0, 1, 255, 256, 0x0102_0304_0506_0708, u64::MAX] {
        assert_eq!(be_decode(&be_encode(v, 8), 0, 8), v);
    }
}

#[test]
fn records_are_read_as_they_are_written() {
    let thing = Thing { tb: 0x0102_0304, id: 0x0506_0708_090a_0b0c };
    assert_eq!(thing.encode(), vec![1, 2, 3, 4, 5, 6, 7, 8, 9, 10, 11, 12]);
    assert_eq!(Thing::decode(&thing.encode()), Some(thing));
    assert_eq!(Thing::decode(&[0; 11]), None);
    assert_eq!(Thing::decode(&[0; 13]), None);
    assert_eq!(Thing::decode(&[]), None);
    let max = Thing { tb: u32::MAX, id: u64::MAX };
    assert_eq!(Thing::decode(&max.encode()), Some(max));
}

#[test]
fn rows_are_read_or_refused() {
    let rows = vec![(b"a".to_vec(), t(1).encode()), (b"b".to_vec(), t(2).encode())];
    assert_eq!(read_rows(&rows).unwrap(), vec![(b"a".to_vec(), t(1)), (b"b".to_vec(), t(2))]);
    assert_eq!(read_rows(&vec![]).unwrap(), vec![]);
    let rows = vec![(b"a".to_vec(), t(1).encode()), (b"b".to_vec(), b"oh".to_vec())];
    assert!(matches!(read_rows(&rows), Err(Error::Ds(_))));
}
