//! Brute-force nearest neighbours: distances, the bounded priority list that
//! collects the nearest records during a scan, and the results it is drained
//! into.

use vstd::prelude::*;
use crate::err::Error;
use crate::sql::{Thing, thing_lt, Expression};

verus! {

/// How far apart two vectors are. Every distance is a whole number by which
/// candidates are ordered; `Euclidean` orders by the square of the geometric
/// distance, which ranks candidates just as the distance itself does.
#[derive(Clone, Copy, PartialEq, Eq, Structural, Debug)]
pub enum Distance {
    Chebyshev,
    Euclidean,
    Hamming,
    Manhattan,
}

/// The gap between two coordinates.
pub open spec fn gap(x: i32, y: i32) -> nat {
    if x >= y {
        (x - y) as nat
    } else {
        (y - x) as nat
    }
}

impl Distance {
    /// What one pair of coordinates adds to the distance.
    pub open spec fn term(self, x: i32, y: i32) -> nat {
        match self {
            Distance::Chebyshev => gap(x, y),
            Distance::Euclidean => gap(x, y) * gap(x, y),
            Distance::Hamming => if x != y { 1nat } else { 0nat },
            Distance::Manhattan => gap(x, y),
        }
    }

    /// The distance between two vectors of one length: the largest term for
    /// `Chebyshev`, the sum of the terms for the others.
    pub open spec fn between(self, a: Seq<i32>, b: Seq<i32>) -> nat
        decreases a.len(),
    {
        if a.len() == 0 || b.len() == 0 {
            0
        } else {
            let rest = self.between(a.drop_last(), b.drop_last());
            let t = self.term(a.last(), b.last());
            if self == Distance::Chebyshev {
                if t > rest { t } else { rest }
            } else {
                rest + t
            }
        }
    }

    /// The distance between `a` and `b`, or the failure that they do not have
    /// the same dimension.
    pub open spec fn distance(self, a: Seq<i32>, b: Seq<i32>) -> Result<u128, Error> {
        if a.len() != b.len() {
            Err(Error::InvalidVectorDimension { current: a.len() as usize, expected: b.len() as usize })
        } else {
            Ok(self.between(a, b) as u128)
        }
    }

    /// Computes the distance between `a` and `b`, or reports that they do not
    /// have the same dimension.
    pub fn compute(&self, a: &Vec<i32>, b: &Vec<i32>) -> (r: Result<u128, Error>)
        ensures
            r == self.distance(a@, b@),
            a.len() != b.len() ==> r == Err::<u128, Error>(
                Error::InvalidVectorDimension { current: a.len(), expected: b.len() },
            ),
            a.len() == b.len() ==> r == Ok::<u128, Error>(self.between(a@, b@) as u128),
            a.len() == b.len() ==> self.between(a@, b@) <= u128::MAX,
    {
        if a.len() != b.len() {
            return Err(Error::InvalidVectorDimension { current: a.len(), expected: b.len() });
        }
        let n = a.len();
        let mut acc: u128 = 0;
        let mut i: usize = 0;
        while i < n
            invariant
                n == a.len(),
                n == b.len(),
                i <= n,
                acc == self.between(a@.subrange(0, i as int), b@.subrange(0, i as int)),
                acc <= i * 0xffff_ffff_0000_0000,
            decreases n - i,
        {
            let x = a[i];
            let y = b[i];
            let g: u64 = if x >= y {
                (x as i64 - y as i64) as u64
            } else {
                (y as i64 - x as i64) as u64
            };
            assert(g == gap(x, y));
            assert(g <= 0xffff_ffff);
            let t: u128 = match self {
                Distance::Chebyshev => g as u128,
                Distance::Euclidean => {
                    assert(g * g <= 0xffff_ffff_0000_0000) by (nonlinear_arith)
                        requires
                            g <= 0xffff_ffff,
                    ;
                    (g as u128) * (g as u128)
                },
                Distance::Hamming => if x != y { 1 } else { 0 },
                Distance::Manhattan => g as u128,
            };
            assert(t == self.term(x, y));
            proof {
                let a1 = a@.subrange(0, i + 1);
                let b1 = b@.subrange(0, i + 1);
                assert(a1.drop_last() =~= a@.subrange(0, i as int));
                assert(b1.drop_last() =~= b@.subrange(0, i as int));
                assert(a1.last() == x && b1.last() == y);
            }
            match self {
                Distance::Chebyshev => {
                    if t > acc {
                        acc = t;
                    }
                },
                _ => {
                    acc = acc + t;
                },
            }
            i += 1;
        }
        assert(a@.subrange(0, n as int) =~= a@);
        assert(b@.subrange(0, n as int) =~= b@);
        Ok(acc)
    }
}

/// One candidate of a priority list: how far it is, and which record it is.
pub type Candidate = (u128, Thing);

/// `a` ranks at or before `b`: it is nearer, or as near and not a later record.
pub open spec fn ranks_le(a: Candidate, b: Candidate) -> bool {
    a.0 < b.0 || (a.0 == b.0 && !thing_lt(b.1, a.1))
}

/// The candidates stand in rank order.
pub open spec fn ranked(s: Seq<Candidate>) -> bool {
    forall|i: int, j: int| 0 <= i < j < s.len() ==> ranks_le(#[trigger] s[i], #[trigger] s[j])
}

/// `s` with `e` put in at its rank, behind the candidates that rank at or
/// before it.
pub open spec fn insert_ranked(s: Seq<Candidate>, e: Candidate) -> Seq<Candidate>
    decreases s.len(),
{
    if s.len() == 0 || ranks_le(s.last(), e) {
        s.push(e)
    } else {
        insert_ranked(s.drop_last(), e).push(s.last())
    }
}

/// A list of at most `k` candidates after `e` was offered to it: while there
/// is room `e` goes in at its rank; a full list lets go of its last candidate
/// for `e` only if `e` is strictly nearer than that one.
pub open spec fn offer(s: Seq<Candidate>, k: nat, e: Candidate) -> Seq<Candidate> {
    if s.len() < k {
        insert_ranked(s, e)
    } else if s.len() > 0 && e.0 < s.last().0 {
        insert_ranked(s.drop_last(), e)
    } else {
        s
    }
}

/// A list of at most `k` candidates after all of `items` were offered to it,
/// one after the other.
pub open spec fn offer_all(s: Seq<Candidate>, k: nat, items: Seq<Candidate>) -> Seq<Candidate>
    decreases items.len(),
{
    if items.len() == 0 {
        s
    } else {
        offer(offer_all(s, k, items.drop_last()), k, items.last())
    }
}

/// The records of a list of candidates, in its order.
pub open spec fn things_of(s: Seq<Candidate>) -> Seq<Thing> {
    Seq::new(s.len(), |i: int| s[i].1)
}

/// No record occurs twice among the candidates.
pub open spec fn distinct_things(s: Seq<Candidate>) -> bool {
    forall|i: int, j: int| 0 <= i < j < s.len() ==> (#[trigger] s[i]).1 != (#[trigger] s[j]).1
}

/// Putting a candidate in at its rank is an insertion at some place, and it
/// keeps a ranked list ranked.
pub proof fn lemma_insert_ranked(s: Seq<Candidate>, e: Candidate) -> (p: int)
    ensures
        0 <= p <= s.len(),
        insert_ranked(s, e) == s.insert(p, e),
        ranked(s) ==> ranked(insert_ranked(s, e)),
        ranked(s) ==> forall|j: int| 0 <= j < p ==> ranks_le(#[trigger] s[j], e),
        forall|j: int| p <= j < s.len() ==> !ranks_le(#[trigger] s[j], e),
    decreases s.len(),
{
    if s.len() == 0 || ranks_le(s.last(), e) {
        let p = s.len() as int;
        assert(s.push(e) =~= s.insert(p, e));
        if ranked(s) {
            let r = s.push(e);
            assert forall|i: int, j: int| 0 <= i < j < r.len() implies ranks_le(
                #[trigger] r[i],
                #[trigger] r[j],
            ) by {
                if j == s.len() {
                    if i < s.len() - 1 {
                        assert(ranks_le(s[i], s[s.len() - 1]));
                    }
                }
            }
            assert forall|j: int| 0 <= j < p implies ranks_le(#[trigger] s[j], e) by {
                if j < s.len() - 1 {
                    assert(ranks_le(s[j], s[s.len() - 1]));
                }
            }
        }
        p
    } else {
        let t = s.drop_last();
        let p = lemma_insert_ranked(t, e);
        let r = insert_ranked(t, e).push(s.last());
        assert(r =~= s.insert(p, e));
        if ranked(s) {
            assert(ranked(t)) by {
                assert forall|i: int, j: int| 0 <= i < j < t.len() implies ranks_le(
                    #[trigger] t[i],
                    #[trigger] t[j],
                ) by {
                    assert(t[i] == s[i] && t[j] == s[j]);
                }
            }
            let u = insert_ranked(t, e);
            assert forall|i: int, j: int| 0 <= i < j < r.len() implies ranks_le(
                #[trigger] r[i],
                #[trigger] r[j],
            ) by {
                if j < u.len() {
                    assert(r[i] == u[i] && r[j] == u[j]);
                } else {
                    if i == p {
                    } else if i < p {
                        assert(r[i] == s[i]);
                        assert(ranks_le(s[i], s[s.len() - 1]));
                    } else {
                        assert(r[i] == s[i - 1]);
                        if i - 1 < s.len() - 1 {
                            assert(ranks_le(s[i - 1], s[s.len() - 1]));
                        }
                    }
                }
            }
            assert forall|j: int| 0 <= j < p implies ranks_le(#[trigger] s[j], e) by {
                assert(s[j] == t[j]);
            }
        }
        assert forall|j: int| p <= j < s.len() implies !ranks_le(#[trigger] s[j], e) by {
            if j < t.len() {
                assert(s[j] == t[j]);
            }
        }
        p
    }
}

/// Decides whether `a` ranks at or before `b`.
fn ranks_before(a: &Candidate, b: &Candidate) -> (r: bool)
    ensures
        r == ranks_le(*a, *b),
{
    a.0 < b.0 || (a.0 == b.0 && !b.1.lt(&a.1))
}

/// The nearest candidates seen so far, in rank order, `k` of them at most.
#[derive(Debug)]
pub struct KnnPriorityList {
    knn: usize,
    list: Vec<Candidate>,
}

impl View for KnnPriorityList {
    type V = Seq<Candidate>;

    closed spec fn view(&self) -> Seq<Candidate> {
        self.list@
    }
}

impl KnnPriorityList {
    /// The number of candidates the list keeps at most.
    pub closed spec fn capacity(&self) -> nat {
        self.knn as nat
    }

    /// The list holds no more than its capacity, in rank order.
    pub open spec fn wf(&self) -> bool {
        self@.len() <= self.capacity() && ranked(self@)
    }

    /// An empty list that keeps `knn` candidates.
    pub fn new(knn: usize) -> (l: KnnPriorityList)
        ensures
            l.wf(),
            l@ == Seq::<Candidate>::empty(),
            l.capacity() == knn,
    {
        KnnPriorityList { knn, list: Vec::new() }
    }

    /// The number of candidates held.
    pub fn len(&self) -> (n: usize)
        ensures
            n == self@.len(),
    {
        self.list.len()
    }

    /// The most candidates the list keeps.
    pub fn knn(&self) -> (k: usize)
        ensures
            k == self.capacity(),
    {
        self.knn
    }

    /// Offers the record `thg` at distance `dist`.
    pub fn add(&mut self, dist: u128, thg: &Thing)
        requires
            old(self).wf(),
        ensures
            final(self).wf(),
            final(self).capacity() == old(self).capacity(),
            final(self)@ == offer(old(self)@, old(self).capacity(), (dist, *thg)),
    {
        let e: Candidate = (dist, *thg);
        let n = self.list.len();
        let ghost s0 = self.list@;
        if n >= self.knn {
            if n == 0 || dist >= self.list[n - 1].0 {
                return ;
            }
            // Make room: the last candidate is the farthest
            self.list.pop();
            proof {
                assert(self.list@ =~= s0.drop_last());
                assert forall|i: int, j: int| 0 <= i < j < self.list@.len() implies ranks_le(
                    #[trigger] self.list@[i],
                    #[trigger] self.list@[j],
                ) by {
                    assert(self.list@[i] == s0[i] && self.list@[j] == s0[j]);
                }
            }
        }
        let ghost s = self.list@;
        let ghost q = lemma_insert_ranked(s, e);
        let mut p = self.list.len();
        while p > 0 && !ranks_before(&self.list[p - 1], &e)
            invariant
                p <= self.list.len(),
                self.list@ == s,
                forall|j: int| p <= j < s.len() ==> !ranks_le(#[trigger] s[j], e),
            decreases p,
        {
            p -= 1;
        }
        proof {
            if q < p {
                assert(!ranks_le(s[p - 1], e));
            }
            if q > p {
                assert(ranks_le(s[p as int], e));
            }
            assert(q == p);
        }
        self.list.insert(p, e);
    }

    /// The candidates held, nearest first.
    pub fn entries(&self) -> (r: &Vec<Candidate>)
        ensures
            r@ == self@,
    {
        &self.list
    }

    /// The records held, nearest first.
    pub fn build(&self) -> (r: Vec<Thing>)
        ensures
            r@ == things_of(self@),
    {
        let mut r: Vec<Thing> = Vec::new();
        let mut i: usize = 0;
        while i < self.list.len()
            invariant
                i <= self.list.len(),
                r@ == things_of(self.list@.subrange(0, i as int)),
            decreases self.list.len() - i,
        {
            r.push(self.list[i].1);
            assert(things_of(self.list@.subrange(0, i + 1)) =~= things_of(
                self.list@.subrange(0, i as int),
            ).push(self.list@[i as int].1));
            i += 1;
        }
        assert(self.list@.subrange(0, i as int) =~= self.list@);
        r
    }
}

/// Every candidate that a list holds after an offer was held before or is the
/// one offered; the list grows by one while there is room and never beyond;
/// and a ranked list stays ranked.
pub proof fn lemma_offer(s: Seq<Candidate>, k: nat, e: Candidate)
    requires
        s.len() <= k,
    ensures
        offer(s, k, e).len() == if s.len() < k { s.len() + 1 } else { s.len() },
        ranked(s) ==> ranked(offer(s, k, e)),
        forall|i: int|
            0 <= i < offer(s, k, e).len() ==> s.contains(#[trigger] offer(s, k, e)[i]) || offer(
                s,
                k,
                e,
            )[i] == e,
        distinct_things(s) && (forall|j: int| 0 <= j < s.len() ==> (#[trigger] s[j]).1 != e.1)
            ==> distinct_things(offer(s, k, e)),
{
    let r = offer(s, k, e);
    if s.len() < k || (s.len() > 0 && e.0 < s.last().0) {
        let t = if s.len() < k { s } else { s.drop_last() };
        let p = lemma_insert_ranked(t, e);
        assert(r == t.insert(p, e));
        if ranked(s) {
            assert forall|i: int, j: int| 0 <= i < j < t.len() implies ranks_le(
                #[trigger] t[i],
                #[trigger] t[j],
            ) by {
                assert(t[i] == s[i] && t[j] == s[j]);
            }
        }
        assert forall|i: int| 0 <= i < r.len() implies s.contains(#[trigger] r[i]) || r[i] == e by {
            if i < p {
                assert(r[i] == s[i]);
            } else if i > p {
                assert(r[i] == s[i - 1]);
            }
        }
        if distinct_things(s) && (forall|j: int| 0 <= j < s.len() ==> (#[trigger] s[j]).1 != e.1) {
            assert forall|i: int, j: int| 0 <= i < j < r.len() implies (#[trigger] r[i]).1 != (
            #[trigger] r[j]).1 by {
                let a = if i < p { i } else { i - 1 };
                let b = if j < p { j } else { j - 1 };
                if i != p {
                    assert(r[i] == s[a]);
                }
                if j != p {
                    assert(r[j] == s[b]);
                }
            }
        }
    } else {
        assert forall|i: int| 0 <= i < r.len() implies s.contains(#[trigger] r[i]) || r[i] == e by {
            assert(r[i] == s[i]);
        }
    }
}

/// After any number of records were offered to an empty list that keeps `k`,
/// the list holds as many candidates as were offered, or `k` if that is
/// fewer; it holds them nearest first; each of them is one that was offered;
/// and if no record was offered twice, none is held twice.
pub proof fn law_offer_all(k: nat, items: Seq<Candidate>)
    ensures
        offer_all(Seq::empty(), k, items).len() == if items.len() < k { items.len() } else { k },
        ranked(offer_all(Seq::empty(), k, items)),
        forall|i: int, j: int|
            0 <= i < j < offer_all(Seq::empty(), k, items).len() ==> (#[trigger] offer_all(
                Seq::empty(),
                k,
                items,
            )[i]).0 <= (#[trigger] offer_all(Seq::empty(), k, items)[j]).0,
        forall|i: int|
            0 <= i < offer_all(Seq::empty(), k, items).len() ==> items.contains(
                #[trigger] offer_all(Seq::empty(), k, items)[i],
            ),
        distinct_things(items) ==> distinct_things(offer_all(Seq::empty(), k, items)),
        distinct_things(items) ==> things_of(offer_all(Seq::empty(), k, items)).no_duplicates(),
    decreases items.len(),
{
    let r = offer_all(Seq::empty(), k, items);
    if items.len() > 0 {
        let before = items.drop_last();
        let e = items.last();
        let s = offer_all(Seq::empty(), k, before);
        law_offer_all(k, before);
        lemma_offer(s, k, e);
        assert forall|i: int| 0 <= i < r.len() implies items.contains(#[trigger] r[i]) by {
            if r[i] == e {
                assert(items[items.len() - 1] == e);
            } else {
                assert(s.contains(r[i]));
                let a = choose|a: int| 0 <= a < s.len() && s[a] == r[i];
                assert(before.contains(s[a]));
                let b = choose|b: int| 0 <= b < before.len() && before[b] == s[a];
                assert(items[b] == r[i]);
            }
        }
        if distinct_things(items) {
            assert forall|i: int, j: int| 0 <= i < j < before.len() implies (#[trigger] before[i]).1
                != (#[trigger] before[j]).1 by {
                assert(before[i] == items[i] && before[j] == items[j]);
            }
            assert forall|j: int| 0 <= j < s.len() implies (#[trigger] s[j]).1 != e.1 by {
                assert(before.contains(s[j]));
                let b = choose|b: int| 0 <= b < before.len() && before[b] == s[j];
                assert(items[b] == s[j]);
                assert(items[items.len() - 1] == e);
            }
        }
    }
    assert forall|i: int, j: int| 0 <= i < j < r.len() implies (#[trigger] r[i]).0 <= (#[trigger] r[j]).0 by {
        assert(ranks_le(r[i], r[j]));
    }
    if distinct_things(items) {
        let things = things_of(r);
        assert forall|i: int, j: int| 0 <= i < things.len() && 0 <= j < things.len() && i != j implies things[i]
            != things[j] by {
            if i < j {
                assert(r[i].1 != r[j].1);
            } else {
                assert(r[j].1 != r[i].1);
            }
        }
    }
}

/// What the brute-force searches of a query found: for each expression the
/// records nearest to its vector, nearest first.
#[derive(Debug)]
pub struct KnnBruteForceResult {
    exp: Vec<(Expression, Vec<Thing>)>,
}

impl View for KnnBruteForceResult {
    type V = Seq<(Expression, Seq<Thing>)>;

    closed spec fn view(&self) -> Seq<(Expression, Seq<Thing>)> {
        Seq::new(self.exp@.len(), |i: int| (self.exp@[i].0, self.exp@[i].1@))
    }
}

/// Whether some entry of `s` for the expression `exp` holds the record `thg`.
pub open spec fn result_contains(
    s: Seq<(Expression, Seq<Thing>)>,
    exp: Expression,
    thg: Thing,
) -> bool {
    exists|i: int| 0 <= i < s.len() && (#[trigger] s[i]).0 == exp && s[i].1.contains(thg)
}

impl KnnBruteForceResult {
    /// A result with no entries.
    pub fn with_capacity(capacity: usize) -> (r: KnnBruteForceResult)
        ensures
            r@ == Seq::<(Expression, Seq<Thing>)>::empty(),
    {
        let r = KnnBruteForceResult { exp: Vec::with_capacity(capacity) };
        assert(r@ =~= Seq::<(Expression, Seq<Thing>)>::empty());
        r
    }

    /// Records what was found for `e`.
    pub fn insert(&mut self, e: Expression, things: Vec<Thing>)
        ensures
            final(self)@ == old(self)@.push((e, things@)),
    {
        self.exp.push((e, things));
        assert(self@ =~= old(self)@.push((e, things@)));
    }

    /// The number of entries.
    pub fn len(&self) -> (n: usize)
        ensures
            n == self@.len(),
    {
        self.exp.len()
    }

    /// Whether `thg` is among the records found for `exp`.
    pub fn contains(&self, exp: &Expression, thg: &Thing) -> (r: bool)
        ensures
            r == result_contains(self@, *exp, *thg),
    {
        let mut i: usize = 0;
        while i < self.exp.len()
            invariant
                i <= self.exp.len(),
                forall|a: int| 0 <= a < i ==> !((#[trigger] self@[a]).0 == *exp && self@[a].1.contains(*thg)),
            decreases self.exp.len() - i,
        {
            if self.exp[i].0.0 == exp.0 {
                let things = &self.exp[i].1;
                let mut j: usize = 0;
                while j < things.len()
                    invariant
                        j <= things.len(),
                        i < self.exp.len(),
                        things@ == self@[i as int].1,
                        self@[i as int].0 == *exp,
                        forall|b: int| 0 <= b < j ==> things@[b] != *thg,
                    decreases things.len() - j,
                {
                    if things[j].tb == thg.tb && things[j].id == thg.id {
                        assert(self@[i as int].1[j as int] == *thg);
                        return true;
                    }
                    j += 1;
                }
                assert(!self@[i as int].1.contains(*thg));
            }
            i += 1;
        }
        false
    }
}

/// Where a scan stands between the two passes of a brute-force search.
#[derive(Debug)]
pub enum IterationStage {
    /// The second pass: the records are filtered by what the first one found,
    /// if it found anything.
    Iterate(Option<KnnBruteForceResult>),
    /// The first pass: distances are collected.
    CollectKnn,
    /// The lists are being drained.
    BuildKnn,
}

} // verus!
