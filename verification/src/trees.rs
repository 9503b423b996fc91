//! The sessions over vector indexes. A session holds the vectors that its
//! index has, and answers a search with the nearest of them, nearest first.

use vstd::prelude::*;
use crate::err::Error;
use crate::ft::{DocId, DocIds};
use crate::knn::{Candidate, Distance, KnnPriorityList, offer_all};
use crate::sql::Thing;

verus! {

/// The candidates that the documents of a metric tree are for the vector
/// `a`: each with its distance to `a`, and with its number for its name.
pub open spec fn doc_candidates(
    points: Seq<(DocId, Vec<i32>)>,
    d: Distance,
    a: Seq<i32>,
) -> Seq<Candidate> {
    Seq::new(
        points.len(),
        |i: int| (d.between(points[i].1@, a) as u128, Thing { tb: 0, id: points[i].0 }),
    )
}

/// The candidates that the records of a graph are for the vector `a`.
pub open spec fn thing_candidates(
    points: Seq<(Thing, Vec<i32>)>,
    d: Distance,
    a: Seq<i32>,
) -> Seq<Candidate> {
    Seq::new(points.len(), |i: int| (d.between(points[i].1@, a) as u128, points[i].0))
}

/// A ranked list as a search result over documents.
pub open spec fn as_docs(s: Seq<Candidate>) -> Seq<(DocId, u128)> {
    Seq::new(s.len(), |i: int| (s[i].1.id, s[i].0))
}

/// A ranked list as a search result over records.
pub open spec fn as_things(s: Seq<Candidate>) -> Seq<(Thing, u128)> {
    Seq::new(s.len(), |i: int| (s[i].1, s[i].0))
}

/// The first vector among `dims` whose dimension is not `n`, if there is one.
pub open spec fn first_mismatch(dims: Seq<nat>, n: nat) -> Option<int>
    decreases dims.len(),
{
    if dims.len() == 0 {
        None
    } else {
        match first_mismatch(dims.drop_last(), n) {
            Some(i) => Some(i),
            None => if dims.last() != n {
                Some(dims.len() - 1)
            } else {
                None
            },
        }
    }
}

/// The dimensions of the vectors of a metric tree.
pub open spec fn doc_dims(points: Seq<(DocId, Vec<i32>)>) -> Seq<nat> {
    Seq::new(points.len(), |i: int| points[i].1@.len())
}

/// The dimensions of the vectors of a graph.
pub open spec fn thing_dims(points: Seq<(Thing, Vec<i32>)>) -> Seq<nat> {
    Seq::new(points.len(), |i: int| points[i].1@.len())
}

/// A session over a metric tree.
#[derive(Debug)]
pub struct MTreeIndex {
    /// The documents of the index.
    pub doc_ids: DocIds,
    /// The vector of each document.
    pub points: Vec<(DocId, Vec<i32>)>,
    /// How the tree measures.
    pub distance: Distance,
}

impl MTreeIndex {
    /// A session over the vectors `points` of the documents `doc_ids`.
    pub fn new(
        doc_ids: DocIds,
        points: Vec<(DocId, Vec<i32>)>,
        distance: Distance,
    ) -> (mt: MTreeIndex)
        ensures
            mt == (MTreeIndex { doc_ids, points, distance }),
    {
        MTreeIndex { doc_ids, points, distance }
    }

    /// What a search for the `k` documents nearest to `a` gives.
    pub open spec fn search(&self, a: Seq<i32>, k: nat) -> Result<Seq<(DocId, u128)>, Error> {
        match first_mismatch(doc_dims(self.points@), a.len()) {
            Some(i) => Err(
                Error::InvalidVectorDimension {
                    current: self.points@[i].1.len(),
                    expected: a.len() as usize,
                },
            ),
            None => Ok(as_docs(offer_all(Seq::empty(), k, doc_candidates(self.points@, self.distance, a)))),
        }
    }

    /// The `k` documents nearest to `a`, nearest first, ties by number. A
    /// vector of another dimension than `a` fails the search.
    pub fn knn_search(&self, a: &Vec<i32>, k: usize) -> (r: Result<Vec<(DocId, u128)>, Error>)
        ensures
            match self.search(a@, k as nat) {
                Ok(s) => r is Ok && r->Ok_0@ == s,
                Err(e) => r == Err::<Vec<(DocId, u128)>, Error>(e),
            },
            match first_mismatch(doc_dims(self.points@), a@.len()) {
                Some(i) => r == Err::<Vec<(DocId, u128)>, Error>(
                    Error::InvalidVectorDimension {
                        current: self.points@[i].1.len(),
                        expected: a.len(),
                    },
                ),
                None => r is Ok && r->Ok_0@ == as_docs(
                    offer_all(Seq::empty(), k as nat, doc_candidates(self.points@, self.distance, a@)),
                ),
            },
    {
        let mut list = KnnPriorityList::new(k);
        let ghost cands = doc_candidates(self.points@, self.distance, a@);
        let ghost dims = doc_dims(self.points@);
        let mut i: usize = 0;
        while i < self.points.len()
            invariant
                i <= self.points.len(),
                list.wf(),
                list.capacity() == k,
                cands == doc_candidates(self.points@, self.distance, a@),
                dims == doc_dims(self.points@),
                first_mismatch(dims.subrange(0, i as int), a@.len()) is None,
                list@ == offer_all(Seq::empty(), k as nat, cands.subrange(0, i as int)),
            decreases self.points.len() - i,
        {
            proof {
                assert(dims.subrange(0, i + 1).drop_last() =~= dims.subrange(0, i as int));
                assert(cands.subrange(0, i + 1).drop_last() =~= cands.subrange(0, i as int));
            }
            let dist = match self.distance.compute(&self.points[i].1, a) {
                Ok(d) => d,
                Err(e) => {
                    proof {
                        lemma_first_mismatch_stays(dims, a@.len(), i + 1);
                    }
                    return Err(e);
                },
            };
            let thg = Thing { tb: 0, id: self.points[i].0 };
            list.add(dist, &thg);
            i += 1;
        }
        assert(dims.subrange(0, i as int) =~= dims);
        assert(cands.subrange(0, i as int) =~= cands);
        let mut res: Vec<(DocId, u128)> = Vec::new();
        let n = list.len();
        let things = list.entries();
        let mut j: usize = 0;
        while j < n
            invariant
                j <= n,
                n == things@.len(),
                res@ == as_docs(things@).subrange(0, j as int),
            decreases n - j,
        {
            res.push((things[j].1.id, things[j].0));
            assert(res@ =~= as_docs(things@).subrange(0, j + 1));
            j += 1;
        }
        assert(res@ =~= as_docs(things@));
        Ok(res)
    }
}

/// A mismatch found among the first vectors is the first mismatch among all.
pub proof fn lemma_first_mismatch_stays(dims: Seq<nat>, n: nat, upto: int)
    requires
        0 <= upto <= dims.len(),
        first_mismatch(dims.subrange(0, upto), n) is Some,
    ensures
        first_mismatch(dims, n) == first_mismatch(dims.subrange(0, upto), n),
    decreases dims.len() - upto,
{
    if upto < dims.len() {
        assert(dims.subrange(0, upto + 1).drop_last() =~= dims.subrange(0, upto));
        lemma_first_mismatch_stays(dims, n, upto + 1);
    } else {
        assert(dims.subrange(0, upto) =~= dims);
    }
}

/// A session over a small-world graph.
#[derive(Debug)]
pub struct HnswIndex {
    /// The vector of each record.
    pub points: Vec<(Thing, Vec<i32>)>,
    /// How the graph measures.
    pub distance: Distance,
}

impl HnswIndex {
    /// A session over the vectors `points`.
    pub fn new(points: Vec<(Thing, Vec<i32>)>, distance: Distance) -> (h: HnswIndex)
        ensures
            h == (HnswIndex { points, distance }),
    {
        HnswIndex { points, distance }
    }

    /// What a search for the `n` records nearest to `a` gives.
    pub open spec fn search(&self, a: Seq<i32>, n: nat) -> Result<Seq<(Thing, u128)>, Error> {
        match first_mismatch(thing_dims(self.points@), a.len()) {
            Some(i) => Err(
                Error::InvalidVectorDimension {
                    current: self.points@[i].1.len(),
                    expected: a.len() as usize,
                },
            ),
            None => Ok(
                as_things(offer_all(Seq::empty(), n, thing_candidates(self.points@, self.distance, a))),
            ),
        }
    }

    /// The `n` records nearest to `a`, nearest first. The session looks at
    /// every record, whatever breadth `ef` asks for. A vector of another
    /// dimension than `a` fails the search.
    pub fn knn_search(
        &self,
        a: &Vec<i32>,
        n: usize,
        ef: usize,
    ) -> (r: Result<Vec<(Thing, u128)>, Error>)
        ensures
            match self.search(a@, n as nat) {
                Ok(s) => r is Ok && r->Ok_0@ == s,
                Err(e) => r == Err::<Vec<(Thing, u128)>, Error>(e),
            },
            match first_mismatch(thing_dims(self.points@), a@.len()) {
                Some(i) => r == Err::<Vec<(Thing, u128)>, Error>(
                    Error::InvalidVectorDimension {
                        current: self.points@[i].1.len(),
                        expected: a.len(),
                    },
                ),
                None => r is Ok && r->Ok_0@ == as_things(
                    offer_all(Seq::empty(), n as nat, thing_candidates(self.points@, self.distance, a@)),
                ),
            },
    {
        let _ = ef;
        let mut list = KnnPriorityList::new(n);
        let ghost cands = thing_candidates(self.points@, self.distance, a@);
        let ghost dims = thing_dims(self.points@);
        let mut i: usize = 0;
        while i < self.points.len()
            invariant
                i <= self.points.len(),
                list.wf(),
                list.capacity() == n,
                cands == thing_candidates(self.points@, self.distance, a@),
                dims == thing_dims(self.points@),
                first_mismatch(dims.subrange(0, i as int), a@.len()) is None,
                list@ == offer_all(Seq::empty(), n as nat, cands.subrange(0, i as int)),
            decreases self.points.len() - i,
        {
            proof {
                assert(dims.subrange(0, i + 1).drop_last() =~= dims.subrange(0, i as int));
                assert(cands.subrange(0, i + 1).drop_last() =~= cands.subrange(0, i as int));
            }
            let dist = match self.distance.compute(&self.points[i].1, a) {
                Ok(d) => d,
                Err(e) => {
                    proof {
                        lemma_first_mismatch_stays(dims, a@.len(), i + 1);
                    }
                    return Err(e);
                },
            };
            list.add(dist, &self.points[i].0);
            i += 1;
        }
        assert(dims.subrange(0, i as int) =~= dims);
        assert(cands.subrange(0, i as int) =~= cands);
        let len = list.len();
        let things = list.entries();
        let mut res: Vec<(Thing, u128)> = Vec::new();
        let mut j: usize = 0;
        while j < len
            invariant
                j <= len,
                len == things@.len(),
                res@ == as_things(things@).subrange(0, j as int),
            decreases len - j,
        {
            res.push((things[j].1, things[j].0));
            assert(res@ =~= as_things(things@).subrange(0, j + 1));
            j += 1;
        }
        assert(res@ =~= as_things(things@));
        Ok(res)
    }
}

} // verus!
