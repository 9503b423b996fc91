use surreal_executor::err::Error;
use surreal_executor::ft::DocIds;
use surreal_executor::knn::Distance;
use surreal_executor::sql::Thing;
use surreal_executor::trees::{HnswIndex, MTreeIndex};

fn t(id: u64) -> Thing {
    Thing { tb: 1, id }
}

#[test]
fn tree_finds_the_nearest_documents() {
    let docs = DocIds::new(vec![t(10), t(11), t(12)]);
    let mt = MTreeIndex::new(
        docs,
        vec![(0, vec![3, 4]), (1, vec![1, 0]), (2, vec![0, 2])],
        Distance::Euclidean,
    );
    assert_eq!(mt.knn_search(&vec![0, 0], 2).unwrap(), vec![(1, 1), (2, 4)]);
    assert_eq!(mt.knn_search(&vec![0, 0], 5).unwrap(), vec![(1, 1), (2, 4), (0, 25)]);
    assert_eq!(mt.knn_search(&vec![0, 0], 0).unwrap(), vec![]);
}

#[test]
fn graph_finds_the_nearest_records() {
    let h = HnswIndex::new(vec![(t(1), vec![3, 4]), (t(2), vec![1, 0]), (t(3), vec![0, 2])], Distance::Manhattan);
    assert_eq!(h.knn_search(&vec![0, 0], 2, 40).unwrap(), vec![(t(2), 1), (t(3), 2)]);
}

#[test]
fn search_needs_one_dimension() {
    let h = HnswIndex::new(vec![(t(1), vec![3, 4]), (t(2), vec![1]), (t(3), vec![])], Distance::Manhattan);
    assert!(matches!(
        h.knn_search(&vec![0, 0], 2, 40),
        Err(Error::InvalidVectorDimension { current: 1, expected: 2 })
    ));
    let mt = MTreeIndex::new(DocIds::new(vec![]), vec![(0, vec![1, 2, 3])], Distance::Euclidean);
    assert!(matches!(
        mt.knn_search(&vec![0, 0], 2),
        Err(Error::InvalidVectorDimension { current: 3, expected: 2 })
    ));
}
