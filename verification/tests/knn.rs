use surreal_executor::err::Error;
use surreal_executor::knn::{Distance, KnnBruteForceResult, KnnPriorityList};
use surreal_executor::sql::{Expression, Thing};

fn t(id: u64) -> Thing {
    Thing { tb: 1, id }
}

#[test]
fn distances_are_exact() {
    let a = vec![0, 0];
    assert!(matches!(Distance::Euclidean.compute(&vec![3, 4], &a), Ok(25)));
    assert!(matches!(Distance::Manhattan.compute(&vec![3, -4], &a), Ok(7)));
    assert!(matches!(Distance::Chebyshev.compute(&vec![3, -4], &a), Ok(4)));
    assert!(matches!(Distance::Hamming.compute(&vec![3, 0], &a), Ok(1)));
    assert!(matches!(Distance::Euclidean.compute(&vec![], &vec![]), Ok(0)));
    assert!(matches!(
        Distance::Euclidean.compute(&vec![i32::MIN, i32::MAX], &vec![i32::MAX, i32::MIN]),
        Ok(36893488130239234050)
    ));
}

#[test]
fn distance_needs_one_dimension() {
    assert!(matches!(
        Distance::Euclidean.compute(&vec![1, 2, 3], &vec![0, 0]),
        Err(Error::InvalidVectorDimension { current: 3, expected: 2 })
    ));
}

#[test]
fn list_keeps_the_nearest() {
    let mut l = KnnPriorityList::new(2);
    l.add(1, &t(1));
    l.add(4, &t(2));
    l.add(25, &t(3));
    assert_eq!(l.build(), vec![t(1), t(2)]);
    assert_eq!(l.len(), 2);
    assert_eq!(l.knn(), 2);
}

#[test]
fn list_has_as_many_as_were_offered_or_its_capacity() {
    let mut l = KnnPriorityList::new(3);
    assert_eq!(l.len(), 0);
    l.add(9, &t(9));
    assert_eq!(l.len(), 1);
    l.add(7, &t(7));
    assert_eq!(l.len(), 2);
    l.add(8, &t(8));
    assert_eq!(l.len(), 3);
    l.add(1, &t(5));
    assert_eq!(l.len(), 3);
    assert_eq!(l.build(), vec![t(5), t(7), t(8)]);
    assert_eq!(l.entries().clone(), vec![(1, t(5)), (7, t(7)), (8, t(8))]);
}

#[test]
fn full_list_evicts_only_for_a_strictly_nearer_candidate() {
    let mut l = KnnPriorityList::new(2);
    l.add(5, &t(5));
    l.add(3, &t(3));
    l.add(5, &t(1));
    assert_eq!(l.build(), vec![t(3), t(5)]);
    l.add(4, &t(9));
    assert_eq!(l.build(), vec![t(3), t(9)]);
}

#[test]
fn ties_are_ordered_by_record() {
    let mut l = KnnPriorityList::new(4);
    l.add(5, &Thing { tb: 2, id: 1 });
    l.add(5, &Thing { tb: 1, id: 9 });
    l.add(5, &Thing { tb: 1, id: 3 });
    assert_eq!(l.build(), vec![Thing { tb: 1, id: 3 }, Thing { tb: 1, id: 9 }, Thing { tb: 2, id: 1 }]);
}

#[test]
fn list_of_none_stays_empty() {
    let mut l = KnnPriorityList::new(0);
    l.add(1, &t(1));
    assert_eq!(l.len(), 0);
    assert_eq!(l.build(), vec![]);
}

#[test]
fn result_knows_its_records() {
    let mut r = KnnBruteForceResult::with_capacity(1);
    assert_eq!(r.len(), 0);
    r.insert(Expression(7), vec![t(1), t(2)]);
    assert_eq!(r.len(), 1);
    assert!(r.contains(&Expression(7), &t(1)));
    assert!(r.contains(&Expression(7), &t(2)));
    assert!(!r.contains(&Expression(7), &t(3)));
    assert!(!r.contains(&Expression(8), &t(1)));
}
