//! The iterators that an index lookup is resolved into.
//!
//! An iterator over an ordered index does not read the store itself. It
//! names the range to scan next, takes the rows that the scan gave, and
//! moves its lower end behind the last of them. An iterator over a list that
//! is already in memory hands out the list piece by piece.

use vstd::prelude::*;
use crate::ft::{
    DocId, DocIds, FtIndex, TermId, TermsDocs, docs_contain, first_of, lemma_first_from,
    terms_docs_view, thing_of,
};
use crate::idx::IndexKeyBase;
use crate::key::{Key, key_clone};
use crate::plan::RangeValue;
use crate::sql::Thing;

verus! {

/// One range to scan: from `beg`, up to and without `end`.
pub type Range = (Key, Key);

/// The view of a list of ranges.
pub open spec fn ranges_view(ranges: Seq<Range>) -> Seq<(Seq<u8>, Seq<u8>)> {
    Seq::new(ranges.len(), |i: int| (ranges[i].0@, ranges[i].1@))
}

/// The records of a batch of rows, in its order.
pub open spec fn row_things(rows: Seq<(Key, Thing)>) -> Seq<Thing> {
    Seq::new(rows.len(), |i: int| rows[i].1)
}

/// The ranges that are left after the scan of the first of them gave `rows`.
/// With no rows the range is done with. With rows, a scan that takes one
/// record from each range is done with the range too; any other goes on
/// behind the key of the last row.
pub open spec fn scans_after(
    left: Seq<(Seq<u8>, Seq<u8>)>,
    unique: bool,
    rows: Seq<(Key, Thing)>,
) -> Seq<(Seq<u8>, Seq<u8>)> {
    if left.len() == 0 {
        left
    } else if rows.len() == 0 || unique {
        left.drop_first()
    } else {
        left.update(0, (rows.last().0@.push(0u8), left[0].1))
    }
}

/// The records that a scan hands out for `rows`: all of them, or the first
/// alone where one record is taken from each range.
pub open spec fn scans_emit(
    left: Seq<(Seq<u8>, Seq<u8>)>,
    unique: bool,
    rows: Seq<(Key, Thing)>,
) -> Seq<Thing> {
    if left.len() == 0 {
        Seq::empty()
    } else if unique && rows.len() > 1 {
        seq![rows[0].1]
    } else {
        row_things(rows)
    }
}

/// A queue of ranges to scan, one after the other.
#[derive(Debug)]
pub struct Scans {
    ranges: Vec<Range>,
    pos: usize,
    unique: bool,
}

impl Scans {
    /// The ranges that are still to be scanned, the current one first.
    pub closed spec fn left(&self) -> Seq<(Seq<u8>, Seq<u8>)> {
        ranges_view(self.ranges@.skip(self.pos as int))
    }

    /// Whether one record is taken from each range.
    pub closed spec fn unique(&self) -> bool {
        self.unique
    }

    /// The place of the current range is a place of the queue, or its end.
    pub closed spec fn wf(&self) -> bool {
        self.pos <= self.ranges.len()
    }

    /// A queue of the given ranges.
    pub fn new(ranges: Vec<Range>, unique: bool) -> (s: Scans)
        ensures
            s.wf(),
            s.left() == ranges_view(ranges@),
            s.unique() == unique,
    {
        assert(ranges@.skip(0) =~= ranges@);
        Scans { ranges, pos: 0, unique }
    }

    /// The range to scan next, or nothing if every range is done with.
    pub fn range(&self) -> (r: Option<Range>)
        requires
            self.wf(),
        ensures
            self.left().len() == 0 <==> r is None,
            r is Some ==> (r->Some_0.0@, r->Some_0.1@) == self.left()[0],
    {
        if self.pos < self.ranges.len() {
            assert(self.ranges@.skip(self.pos as int)[0] == self.ranges@[self.pos as int]);
            Some((key_clone(&self.ranges[self.pos].0), key_clone(&self.ranges[self.pos].1)))
        } else {
            None
        }
    }

    /// Takes the rows that the scan of the current range gave.
    pub fn next_batch(&mut self, rows: &Vec<(Key, Thing)>) -> (r: Vec<Thing>)
        requires
            old(self).wf(),
        ensures
            final(self).wf(),
            final(self).unique() == old(self).unique(),
            final(self).left() == scans_after(old(self).left(), old(self).unique(), rows@),
            r@ == scans_emit(old(self).left(), old(self).unique(), rows@),
    {
        let mut out: Vec<Thing> = Vec::new();
        if self.pos >= self.ranges.len() {
            return out;
        }
        let ghost left0 = self.left();
        let ghost all0 = self.ranges@;
        assert(all0.skip(self.pos as int)[0] == all0[self.pos as int]);
        if rows.len() == 0 {
            self.pos = self.pos + 1;
            assert(self.left() =~= left0.drop_first());
            assert(out@ =~= row_things(rows@));
            return out;
        }
        if self.unique {
            out.push(rows[0].1);
            self.pos = self.pos + 1;
            assert(self.left() =~= left0.drop_first());
            assert(rows@.len() == 1 ==> out@ =~= row_things(rows@));
            return out;
        }
        let mut i: usize = 0;
        while i < rows.len()
            invariant
                i <= rows.len(),
                out@ == row_things(rows@).subrange(0, i as int),
            decreases rows.len() - i,
        {
            out.push(rows[i].1);
            assert(out@ =~= row_things(rows@).subrange(0, i + 1));
            i += 1;
        }
        assert(out@ =~= row_things(rows@));
        let mut beg = key_clone(&rows[rows.len() - 1].0);
        beg.push(0x00);
        let end = key_clone(&self.ranges[self.pos].1);
        self.ranges.set(self.pos, (beg, end));
        assert(self.left() =~= left0.update(0, (rows@.last().0@.push(0u8), left0[0].1)));
        out
    }
}

/// An iterator over the entries of one value in an ordered index.
#[derive(Debug)]
pub struct IndexEqualThingIterator {
    pub scans: Scans,
}

impl IndexEqualThingIterator {
    /// An iterator over the entries that the value `v` has in the index `ix_name`
    /// on the table `ix_what`.
    pub fn new(
        ns: u32,
        db: u32,
        ix_what: u32,
        ix_name: u32,
        v: i64,
    ) -> (it: IndexEqualThingIterator)
        ensures
            it.scans.wf(),
            !it.scans.unique(),
            it.scans.left() == seq![equal_range(IndexKeyBase { ns, db, tb: ix_what, ix: ix_name }, v)],
    {
        let base = IndexKeyBase::new(ns, db, ix_what, ix_name);
        let mut ranges: Vec<Range> = Vec::new();
        ranges.push((base.prefix_ids_beg(v), base.prefix_ids_end(v)));
        assert(ranges_view(ranges@) =~= seq![equal_range(base, v)]);
        IndexEqualThingIterator { scans: Scans::new(ranges, false) }
    }
}

/// The range that holds the entries of the value `v`.
pub open spec fn equal_range(base: IndexKeyBase, v: i64) -> (Seq<u8>, Seq<u8>) {
    (base.ids_beg(v), base.ids_end(v))
}

/// The ranges that hold the entries of each of `values`, in their order.
pub open spec fn union_ranges(base: IndexKeyBase, values: Seq<i64>) -> Seq<(Seq<u8>, Seq<u8>)> {
    Seq::new(values.len(), |i: int| equal_range(base, values[i]))
}

/// The range that holds the entries whose values lie between `from` and `to`.
pub open spec fn between_range(
    base: IndexKeyBase,
    from: RangeValue,
    to: RangeValue,
) -> (Seq<u8>, Seq<u8>) {
    (base.range_beg(from), base.range_end(to))
}

/// Makes the ranges of the entries of each of `values`.
fn ranges_of(base: &IndexKeyBase, values: &Vec<i64>) -> (ranges: Vec<Range>)
    ensures
        ranges_view(ranges@) == union_ranges(*base, values@),
{
    let mut ranges: Vec<Range> = Vec::new();
    let mut i: usize = 0;
    while i < values.len()
        invariant
            i <= values.len(),
            ranges_view(ranges@) == union_ranges(*base, values@).subrange(0, i as int),
        decreases values.len() - i,
    {
        let ghost before = ranges_view(ranges@);
        let r = (base.prefix_ids_beg(values[i]), base.prefix_ids_end(values[i]));
        ranges.push(r);
        assert(ranges_view(ranges@) =~= before.push(equal_range(*base, values@[i as int])));
        assert(before.push(equal_range(*base, values@[i as int])) =~= union_ranges(
            *base,
            values@,
        ).subrange(0, i + 1));
        i += 1;
    }
    assert(ranges_view(ranges@) =~= union_ranges(*base, values@));
    ranges
}

/// Makes the range of the entries between `from` and `to`.
fn range_of(base: &IndexKeyBase, from: &RangeValue, to: &RangeValue) -> (ranges: Vec<Range>)
    ensures
        ranges_view(ranges@) == seq![between_range(*base, *from, *to)],
{
    let beg = if from.inclusive {
        base.prefix_ids_beg(from.value)
    } else {
        base.prefix_ids_end(from.value)
    };
    let end = if to.inclusive {
        base.prefix_ids_end(to.value)
    } else {
        base.prefix_ids_beg(to.value)
    };
    let mut ranges: Vec<Range> = Vec::new();
    ranges.push((beg, end));
    assert(ranges_view(ranges@) =~= seq![between_range(*base, *from, *to)]);
    ranges
}

/// An iterator over the entries between two values in an ordered index.
#[derive(Debug)]
pub struct IndexRangeThingIterator {
    pub scans: Scans,
}

impl IndexRangeThingIterator {
    /// An iterator over the entries of the index `ix_name` on the table `ix_what`
    /// whose values lie between `from` and `to`.
    pub fn new(
        ns: u32,
        db: u32,
        ix_what: u32,
        ix_name: u32,
        from: &RangeValue,
        to: &RangeValue,
    ) -> (it: IndexRangeThingIterator)
        ensures
            it.scans.wf(),
            !it.scans.unique(),
            it.scans.left() == seq![
                between_range(IndexKeyBase { ns, db, tb: ix_what, ix: ix_name }, *from, *to),
            ],
    {
        let base = IndexKeyBase::new(ns, db, ix_what, ix_name);
        IndexRangeThingIterator { scans: Scans::new(range_of(&base, from, to), false) }
    }
}

/// An iterator over the entries of several values in an ordered index, value
/// by value in the order given.
#[derive(Debug)]
pub struct IndexUnionThingIterator {
    pub scans: Scans,
}

impl IndexUnionThingIterator {
    /// An iterator over the entries that each of `values` has in the index
    /// `ix_name` on the table `ix_what`.
    pub fn new(
        ns: u32,
        db: u32,
        ix_what: u32,
        ix_name: u32,
        values: &Vec<i64>,
    ) -> (it: IndexUnionThingIterator)
        ensures
            it.scans.wf(),
            !it.scans.unique(),
            it.scans.left() == union_ranges(IndexKeyBase { ns, db, tb: ix_what, ix: ix_name }, values@),
    {
        let base = IndexKeyBase::new(ns, db, ix_what, ix_name);
        IndexUnionThingIterator { scans: Scans::new(ranges_of(&base, values), false) }
    }
}

/// An iterator over the one entry that a value has in a unique index.
#[derive(Debug)]
pub struct UniqueEqualThingIterator {
    pub scans: Scans,
}

impl UniqueEqualThingIterator {
    /// An iterator over the entry that the value `v` has in the unique index
    /// `ix_name` on the table `ix_what`.
    pub fn new(
        ns: u32,
        db: u32,
        ix_what: u32,
        ix_name: u32,
        v: i64,
    ) -> (it: UniqueEqualThingIterator)
        ensures
            it.scans.wf(),
            it.scans.unique(),
            it.scans.left() == seq![equal_range(IndexKeyBase { ns, db, tb: ix_what, ix: ix_name }, v)],
    {
        let base = IndexKeyBase::new(ns, db, ix_what, ix_name);
        let mut ranges: Vec<Range> = Vec::new();
        ranges.push((base.prefix_ids_beg(v), base.prefix_ids_end(v)));
        assert(ranges_view(ranges@) =~= seq![equal_range(base, v)]);
        UniqueEqualThingIterator { scans: Scans::new(ranges, true) }
    }
}

/// An iterator over the entries between two values in a unique index.
#[derive(Debug)]
pub struct UniqueRangeThingIterator {
    pub scans: Scans,
}

impl UniqueRangeThingIterator {
    /// An iterator over the entries of the unique index `ix_name` on the table
    /// `ix_what` whose values lie between `from` and `to`.
    pub fn new(
        ns: u32,
        db: u32,
        ix_what: u32,
        ix_name: u32,
        from: &RangeValue,
        to: &RangeValue,
    ) -> (it: UniqueRangeThingIterator)
        ensures
            it.scans.wf(),
            !it.scans.unique(),
            it.scans.left() == seq![
                between_range(IndexKeyBase { ns, db, tb: ix_what, ix: ix_name }, *from, *to),
            ],
    {
        let base = IndexKeyBase::new(ns, db, ix_what, ix_name);
        UniqueRangeThingIterator { scans: Scans::new(range_of(&base, from, to), false) }
    }
}

/// An iterator over the entries that several values have in a unique index,
/// one for each value, in the order given.
#[derive(Debug)]
pub struct UniqueUnionThingIterator {
    pub scans: Scans,
}

impl UniqueUnionThingIterator {
    /// An iterator over the entry that each of `values` has in the unique index
    /// `ix_name` on the table `ix_what`.
    pub fn new(
        ns: u32,
        db: u32,
        ix_what: u32,
        ix_name: u32,
        values: &Vec<i64>,
    ) -> (it: UniqueUnionThingIterator)
        ensures
            it.scans.wf(),
            it.scans.unique(),
            it.scans.left() == union_ranges(IndexKeyBase { ns, db, tb: ix_what, ix: ix_name }, values@),
    {
        let base = IndexKeyBase::new(ns, db, ix_what, ix_name);
        UniqueUnionThingIterator { scans: Scans::new(ranges_of(&base, values), true) }
    }
}

/// An iterator over a list of records that is already in memory.
#[derive(Debug)]
pub struct ThingsIterator {
    res: Vec<Thing>,
    pos: usize,
}

impl ThingsIterator {
    /// The records that are still to be handed out.
    pub closed spec fn left(&self) -> Seq<Thing> {
        self.res@.skip(self.pos as int)
    }

    /// The place of the next record is a place of the list, or its end.
    pub closed spec fn wf(&self) -> bool {
        self.pos <= self.res.len()
    }

    /// An iterator over the records `res`.
    pub fn new(res: Vec<Thing>) -> (it: ThingsIterator)
        ensures
            it.wf(),
            it.left() == res@,
    {
        assert(res@.skip(0) =~= res@);
        ThingsIterator { res, pos: 0 }
    }

    /// Whether the list has run out.
    pub fn is_empty(&self) -> (r: bool)
        requires
            self.wf(),
        ensures
            r == (self.left().len() == 0),
    {
        self.pos >= self.res.len()
    }

    /// Hands out the next records, `limit` of them at most; none once the
    /// list has run out.
    pub fn next_batch(&mut self, limit: u32) -> (r: Vec<Thing>)
        requires
            old(self).wf(),
        ensures
            final(self).wf(),
            r@ == old(self).left().take(taken(old(self).left().len(), limit)),
            final(self).left() == old(self).left().skip(taken(old(self).left().len(), limit)),
    {
        let ghost left0 = self.left();
        let ghost pos0 = self.pos;
        let mut out: Vec<Thing> = Vec::new();
        let mut n: u32 = 0;
        while n < limit && self.pos < self.res.len()
            invariant
                self.pos <= self.res.len(),
                self.pos == pos0 + n,
                n <= limit,
                self.res == old(self).res,
                left0 == self.res@.skip(pos0 as int),
                out@ == left0.take(n as int),
            decreases limit - n,
        {
            out.push(self.res[self.pos]);
            assert(out@ =~= left0.take(n + 1));
            self.pos = self.pos + 1;
            n = n + 1;
        }
        assert(self.left() =~= left0.skip(n as int));
        out
    }
}

/// How many of `n` records a batch of at most `limit` takes.
pub open spec fn taken(n: nat, limit: u32) -> int {
    if n < limit {
        n as int
    } else {
        limit as int
    }
}

/// Whether every term of a query was found, and the document `d` is among
/// the documents of each.
pub open spec fn in_all(tds: Seq<Option<(TermId, Seq<DocId>)>>, d: DocId) -> bool {
    forall|i: int| 0 <= i < tds.len() ==> (#[trigger] tds[i]) is Some && tds[i]->Some_0.1.contains(d)
}

/// The records of those among `docs` that hold every term of the query.
pub open spec fn hits(
    docs: Seq<DocId>,
    tds: Seq<Option<(TermId, Seq<DocId>)>>,
    doc_ids: Seq<Thing>,
) -> Seq<Thing>
    decreases docs.len(),
{
    if docs.len() == 0 {
        Seq::empty()
    } else {
        let rest = hits(docs.drop_last(), tds, doc_ids);
        match thing_of(doc_ids, docs.last()) {
            Some(t) => if in_all(tds, docs.last()) {
                rest.push(t)
            } else {
                rest
            },
            None => rest,
        }
    }
}

/// The records that match a query: those that hold every one of its terms,
/// in the order in which the first term has them. A query without terms, or
/// with a term that nothing holds, matches no record.
pub open spec fn matching_things(
    tds: Seq<Option<(TermId, Seq<DocId>)>>,
    doc_ids: Seq<Thing>,
) -> Seq<Thing> {
    if tds.len() == 0 || tds[0] is None {
        Seq::empty()
    } else {
        hits(tds[0]->Some_0.1, tds, doc_ids)
    }
}

/// The hits among `docs` are the records of the documents among `docs` that
/// hold every term.
pub proof fn lemma_hits(
    docs: Seq<DocId>,
    tds: Seq<Option<(TermId, Seq<DocId>)>>,
    doc_ids: Seq<Thing>,
    t: Thing,
)
    ensures
        hits(docs, tds, doc_ids).contains(t) <==> exists|i: int|
            0 <= i < docs.len() && in_all(tds, #[trigger] docs[i]) && thing_of(doc_ids, docs[i]) == Some(t),
    decreases docs.len(),
{
    if docs.len() > 0 {
        let before = docs.drop_last();
        let d = docs.last();
        let rest = hits(before, tds, doc_ids);
        let all = hits(docs, tds, doc_ids);
        lemma_hits(before, tds, doc_ids, t);
        let takes = thing_of(doc_ids, d) is Some && in_all(tds, d);
        if all.contains(t) {
            let a = choose|a: int| 0 <= a < all.len() && all[a] == t;
            if takes && a == rest.len() {
                assert(in_all(tds, docs[docs.len() - 1]) && thing_of(doc_ids, docs[docs.len() - 1]) == Some(t));
            } else {
                assert(rest[a] == t);
                assert(rest.contains(t));
                let i = choose|i: int|
                    0 <= i < before.len() && in_all(tds, #[trigger] before[i]) && thing_of(doc_ids, before[i])
                        == Some(t);
                assert(docs[i] == before[i]);
            }
        }
        if exists|i: int|
            0 <= i < docs.len() && in_all(tds, #[trigger] docs[i]) && thing_of(doc_ids, docs[i]) == Some(t) {
            let i = choose|i: int|
                0 <= i < docs.len() && in_all(tds, #[trigger] docs[i]) && thing_of(doc_ids, docs[i]) == Some(
                    t,
                );
            if i < before.len() {
                assert(before[i] == docs[i]);
                assert(rest.contains(t));
                let a = choose|a: int| 0 <= a < rest.len() && rest[a] == t;
                assert(all[a] == t);
            } else {
                assert(all[all.len() - 1] == t);
            }
        }
    }
}

/// The iterator over the matches of a query hands out the records that
/// match it, and no others: where no record is a document twice, a record
/// is among the matches exactly if it is a document, the query has a term,
/// every term was found, and the document is among the documents of each.
pub proof fn law_matching_things(
    tds: Seq<Option<(TermId, Seq<DocId>)>>,
    doc_ids: Seq<Thing>,
    t: Thing,
)
    requires
        doc_ids.no_duplicates(),
        doc_ids.len() <= u64::MAX,
    ensures
        matching_things(tds, doc_ids).contains(t) <==> (match first_of(doc_ids, t) {
            Some(d) => tds.len() > 0 && in_all(tds, d),
            None => false,
        }),
{
    lemma_first_from(doc_ids, t, 0);
    if tds.len() > 0 && tds[0] is Some {
        let docs = tds[0]->Some_0.1;
        lemma_hits(docs, tds, doc_ids, t);
        if matching_things(tds, doc_ids).contains(t) {
            let i = choose|i: int|
                0 <= i < docs.len() && in_all(tds, #[trigger] docs[i]) && thing_of(doc_ids, docs[i]) == Some(
                    t,
                );
            let d = docs[i];
            assert(doc_ids[d as int] == t);
            let f = first_of(doc_ids, t)->Some_0;
            assert(doc_ids[f as int] == t);
            assert(f == d);
        }
        if first_of(doc_ids, t) is Some {
            let d = first_of(doc_ids, t)->Some_0;
            if in_all(tds, d) {
                assert(tds[0] is Some && tds[0]->Some_0.1.contains(d));
                let i = choose|i: int| 0 <= i < docs.len() && docs[i] == d;
                assert(in_all(tds, docs[i]) && thing_of(doc_ids, docs[i]) == Some(t));
            }
        }
    } else {
        assert(!matching_things(tds, doc_ids).contains(t));
        if first_of(doc_ids, t) is Some && tds.len() > 0 {
            let d = first_of(doc_ids, t)->Some_0;
            if in_all(tds, d) {
                assert(tds[0] is Some);
            }
        }
    }
}

/// Decides whether every term was found and `d` is among the documents of each.
pub fn doc_in_all(tds: &TermsDocs, d: DocId) -> (r: bool)
    ensures
        r == in_all(terms_docs_view(tds@), d),
{
    let ghost v = terms_docs_view(tds@);
    let mut i: usize = 0;
    while i < tds.len()
        invariant
            i <= tds.len(),
            v == terms_docs_view(tds@),
            forall|j: int| 0 <= j < i ==> (#[trigger] v[j]) is Some && v[j]->Some_0.1.contains(d),
        decreases tds.len() - i,
    {
        match &tds[i] {
            Some((_, docs)) => {
                if !docs_contain(docs, d) {
                    assert(!(v[i as int] is Some && v[i as int]->Some_0.1.contains(d)));
                    return false;
                }
            },
            None => {
                assert(v[i as int] is None);
                return false;
            },
        }
        i += 1;
    }
    true
}

/// An iterator over the records that match a full-text query.
#[derive(Debug)]
pub struct MatchesThingIterator {
    pub things: ThingsIterator,
}

impl MatchesThingIterator {
    /// An iterator over the records of the index `ft` that match the query
    /// for whose terms `terms_docs` was found.
    pub fn new(ft: &FtIndex, terms_docs: &TermsDocs) -> (it: MatchesThingIterator)
        ensures
            it.things.wf(),
            it.things.left() == matching_things(terms_docs_view(terms_docs@), ft.doc_ids@),
    {
        let mut res: Vec<Thing> = Vec::new();
        let ghost tds = terms_docs_view(terms_docs@);
        if terms_docs.len() > 0 {
            match &terms_docs[0] {
                Some((_, docs)) => {
                    assert(tds[0] == Some((terms_docs@[0]->Some_0.0, docs@)));
                    let mut i: usize = 0;
                    while i < docs.len()
                        invariant
                            i <= docs.len(),
                            tds == terms_docs_view(terms_docs@),
                            res@ == hits(docs@.subrange(0, i as int), tds, ft.doc_ids@),
                        decreases docs.len() - i,
                    {
                        assert(docs@.subrange(0, i + 1).drop_last() =~= docs@.subrange(0, i as int));
                        let d = docs[i];
                        if let Some(t) = ft.doc_ids.get_thing(d) {
                            if doc_in_all(terms_docs, d) {
                                res.push(t);
                            }
                        }
                        i += 1;
                    }
                    assert(docs@.subrange(0, i as int) =~= docs@);
                },
                None => {
                    assert(tds[0] is None);
                },
            }
        }
        MatchesThingIterator { things: ThingsIterator::new(res) }
    }
}

/// The records that a list of documents names, in its order, without the
/// numbers that name no document.
pub open spec fn things_of_docs(docs: Seq<DocId>, doc_ids: Seq<Thing>) -> Seq<Thing>
    decreases docs.len(),
{
    if docs.len() == 0 {
        Seq::empty()
    } else {
        let rest = things_of_docs(docs.drop_last(), doc_ids);
        match thing_of(doc_ids, docs.last()) {
            Some(t) => rest.push(t),
            None => rest,
        }
    }
}

/// An iterator over the records of a list of documents.
#[derive(Debug)]
pub struct DocIdsIterator {
    pub things: ThingsIterator,
}

impl DocIdsIterator {
    /// An iterator over the records that the documents `res` are among `doc_ids`.
    pub fn new(doc_ids: &DocIds, res: &Vec<DocId>) -> (it: DocIdsIterator)
        ensures
            it.things.wf(),
            it.things.left() == things_of_docs(res@, doc_ids@),
    {
        let mut things: Vec<Thing> = Vec::new();
        let mut i: usize = 0;
        while i < res.len()
            invariant
                i <= res.len(),
                things@ == things_of_docs(res@.subrange(0, i as int), doc_ids@),
            decreases res.len() - i,
        {
            assert(res@.subrange(0, i + 1).drop_last() =~= res@.subrange(0, i as int));
            if let Some(t) = doc_ids.get_thing(res[i]) {
                things.push(t);
            }
            i += 1;
        }
        assert(res@.subrange(0, i as int) =~= res@);
        DocIdsIterator { things: ThingsIterator::new(things) }
    }
}

/// An iterator that joins an ordered index to the records that other
/// iterators yield: for each of those records, the entries that the index
/// has under the number of the record.
#[derive(Debug)]
pub struct IndexJoinThingIterator {
    pub base: IndexKeyBase,
    pub join: Join,
}

impl IndexJoinThingIterator {
    /// A join of the index `ix_name` on the table `ix_what` to what `iterators` yield.
    pub fn new(
        ns: u32,
        db: u32,
        ix_what: u32,
        ix_name: u32,
        iterators: Vec<ThingIterator>,
    ) -> (it: IndexJoinThingIterator)
        ensures
            it.base == (IndexKeyBase { ns, db, tb: ix_what, ix: ix_name }),
            it.join.opened_with(iterators),
    {
        IndexJoinThingIterator { base: IndexKeyBase::new(ns, db, ix_what, ix_name), join: Join::new(iterators) }
    }
}

/// An iterator that joins a unique index to the records that other iterators
/// yield.
#[derive(Debug)]
pub struct UniqueJoinThingIterator {
    pub base: IndexKeyBase,
    pub join: Join,
}

impl UniqueJoinThingIterator {
    /// A join of the unique index `ix_name` on the table `ix_what` to what
    /// `iterators` yield.
    pub fn new(
        ns: u32,
        db: u32,
        ix_what: u32,
        ix_name: u32,
        iterators: Vec<ThingIterator>,
    ) -> (it: UniqueJoinThingIterator)
        ensures
            it.base == (IndexKeyBase { ns, db, tb: ix_what, ix: ix_name }),
            it.join.opened_with(iterators),
    {
        UniqueJoinThingIterator { base: IndexKeyBase::new(ns, db, ix_what, ix_name), join: Join::new(iterators) }
    }
}

/// The state of a join: the iterators that still yield outer records, the
/// outer records that wait for their turn, and the inner scan that is open.
#[derive(Debug)]
pub struct Join {
    /// The outer iterators, the one in use first.
    pub remote_iterators: Vec<ThingIterator>,
    /// The outer records that wait, the next one first.
    pub waiting: Vec<Thing>,
    /// The inner scan for the outer record whose turn it is.
    pub current_local: Option<Scans>,
}

impl Join {
    /// The join has not begun: it has the outer iterators `iterators`, no
    /// record waits, and no inner scan is open.
    pub open spec fn opened_with(&self, iterators: Vec<ThingIterator>) -> bool {
        &&& self.remote_iterators == iterators
        &&& self.waiting@ == Seq::<Thing>::empty()
        &&& self.current_local is None
    }

    /// A join over the outer iterators `iterators` that has not begun.
    pub fn new(iterators: Vec<ThingIterator>) -> (j: Join)
        ensures
            j.opened_with(iterators),
    {
        Join { remote_iterators: iterators, waiting: Vec::new(), current_local: None }
    }
}

/// An iterator over record identities, one variant for each way to look an
/// index up.
#[derive(Debug)]
pub enum ThingIterator {
    IndexEqual(IndexEqualThingIterator),
    UniqueEqual(UniqueEqualThingIterator),
    IndexRange(IndexRangeThingIterator),
    UniqueRange(UniqueRangeThingIterator),
    IndexUnion(IndexUnionThingIterator),
    UniqueUnion(UniqueUnionThingIterator),
    IndexJoin(Box<IndexJoinThingIterator>),
    UniqueJoin(Box<UniqueJoinThingIterator>),
    Matches(MatchesThingIterator),
    Knn(DocIdsIterator),
    Things(ThingsIterator),
}

/// What a join is, apart from how it is laid out.
pub struct JoinView {
    pub remotes: Seq<IterView>,
    pub waiting: Seq<Thing>,
    pub local: Option<Seq<(Seq<u8>, Seq<u8>)>>,
}

/// What an iterator is, apart from how it is laid out: the ranges that a
/// scan has left, the records that a list has left, the state of a join.
pub enum IterView {
    IndexEqual(Seq<(Seq<u8>, Seq<u8>)>),
    UniqueEqual(Seq<(Seq<u8>, Seq<u8>)>),
    IndexRange(Seq<(Seq<u8>, Seq<u8>)>),
    UniqueRange(Seq<(Seq<u8>, Seq<u8>)>),
    IndexUnion(Seq<(Seq<u8>, Seq<u8>)>),
    UniqueUnion(Seq<(Seq<u8>, Seq<u8>)>),
    IndexJoin(IndexKeyBase, JoinView),
    UniqueJoin(IndexKeyBase, JoinView),
    Matches(Seq<Thing>),
    Knn(Seq<Thing>),
    Things(Seq<Thing>),
}

/// A join that has not begun over the outer iterators `remotes`.
pub open spec fn join_opened(remotes: Seq<IterView>) -> JoinView {
    JoinView { remotes, waiting: Seq::empty(), local: None }
}

/// The views of the first `n` of `its`.
pub open spec fn views_upto(its: Vec<ThingIterator>, n: nat) -> Seq<IterView>
    decreases its, n,
{
    if n == 0 || n > its.len() {
        Seq::empty()
    } else {
        views_upto(its, (n - 1) as nat).push(its[n - 1].view())
    }
}

/// The views of `its`.
pub open spec fn views_of(its: Vec<ThingIterator>) -> Seq<IterView> {
    views_upto(its, its.len() as nat)
}

/// The view of an inner scan that may be missing.
pub open spec fn local_view(l: Option<Scans>) -> Option<Seq<(Seq<u8>, Seq<u8>)>> {
    match l {
        Some(s) => Some(s.left()),
        None => None,
    }
}

impl View for ThingIterator {
    type V = IterView;

    open spec fn view(&self) -> IterView
        decreases self, 0nat,
    {
        match self {
            ThingIterator::IndexEqual(it) => IterView::IndexEqual(it.scans.left()),
            ThingIterator::UniqueEqual(it) => IterView::UniqueEqual(it.scans.left()),
            ThingIterator::IndexRange(it) => IterView::IndexRange(it.scans.left()),
            ThingIterator::UniqueRange(it) => IterView::UniqueRange(it.scans.left()),
            ThingIterator::IndexUnion(it) => IterView::IndexUnion(it.scans.left()),
            ThingIterator::UniqueUnion(it) => IterView::UniqueUnion(it.scans.left()),
            ThingIterator::IndexJoin(it) => IterView::IndexJoin(
                it.base,
                JoinView {
                    remotes: views_upto(it.join.remote_iterators, it.join.remote_iterators.len() as nat),
                    waiting: it.join.waiting@,
                    local: local_view(it.join.current_local),
                },
            ),
            ThingIterator::UniqueJoin(it) => IterView::UniqueJoin(
                it.base,
                JoinView {
                    remotes: views_upto(it.join.remote_iterators, it.join.remote_iterators.len() as nat),
                    waiting: it.join.waiting@,
                    local: local_view(it.join.current_local),
                },
            ),
            ThingIterator::Matches(it) => IterView::Matches(it.things.left()),
            ThingIterator::Knn(it) => IterView::Knn(it.things.left()),
            ThingIterator::Things(it) => IterView::Things(it.left()),
        }
    }
}

/// An inner scan is in order: it has a range left, and it takes one record
/// from it exactly if the join is over a unique index.
pub open spec fn local_wf(l: Option<Scans>, unique: bool) -> bool {
    match l {
        Some(s) => s.wf() && s.unique() == unique && s.left().len() > 0,
        None => true,
    }
}

/// The iterator and all that it is built of are in order.
pub open spec fn iterator_wf(it: ThingIterator) -> bool
    decreases it, 0nat,
{
    match it {
        ThingIterator::IndexEqual(it) => it.scans.wf() && !it.scans.unique(),
        ThingIterator::UniqueEqual(it) => it.scans.wf() && it.scans.unique(),
        ThingIterator::IndexRange(it) => it.scans.wf() && !it.scans.unique(),
        ThingIterator::UniqueRange(it) => it.scans.wf() && !it.scans.unique(),
        ThingIterator::IndexUnion(it) => it.scans.wf() && !it.scans.unique(),
        ThingIterator::UniqueUnion(it) => it.scans.wf() && it.scans.unique(),
        ThingIterator::IndexJoin(it) => iterators_wf(
            it.join.remote_iterators,
            it.join.remote_iterators.len() as nat,
        ) && local_wf(it.join.current_local, false),
        ThingIterator::UniqueJoin(it) => iterators_wf(
            it.join.remote_iterators,
            it.join.remote_iterators.len() as nat,
        ) && local_wf(it.join.current_local, true),
        ThingIterator::Matches(it) => it.things.wf(),
        ThingIterator::Knn(it) => it.things.wf(),
        ThingIterator::Things(it) => it.wf(),
    }
}

/// The first `n` of `its` are in order.
pub open spec fn iterators_wf(its: Vec<ThingIterator>, n: nat) -> bool
    decreases its, n,
{
    if n == 0 || n > its.len() {
        true
    } else {
        iterators_wf(its, (n - 1) as nat) && iterator_wf(its[n - 1])
    }
}

/// The views of the first iterators of a list depend on those iterators alone.
pub proof fn lemma_views_upto(a: Vec<ThingIterator>, b: Vec<ThingIterator>, n: nat)
    requires
        n <= a.len(),
        n <= b.len(),
        forall|i: int| 0 <= i < n ==> a[i] == b[i],
    ensures
        views_upto(a, n) == views_upto(b, n),
        iterators_wf(a, n) == iterators_wf(b, n),
    decreases n,
{
    if n > 0 {
        lemma_views_upto(a, b, (n - 1) as nat);
    }
}

/// The views of a list of iterators are the views of its iterators, place by
/// place, and the list is in order exactly if each of its iterators is.
pub proof fn lemma_views_of(its: Vec<ThingIterator>, n: nat)
    requires
        n <= its.len(),
    ensures
        views_upto(its, n).len() == n,
        forall|i: int| 0 <= i < n ==> views_upto(its, n)[i] == (#[trigger] its[i])@,
        iterators_wf(its, n) <==> forall|i: int| 0 <= i < n ==> iterator_wf(#[trigger] its[i]),
    decreases n,
{
    if n > 0 {
        lemma_views_of(its, (n - 1) as nat);
        let before = views_upto(its, (n - 1) as nat);
        let all = views_upto(its, n);
        assert(all == before.push(its[n - 1]@));
        assert forall|i: int| 0 <= i < n implies all[i] == (#[trigger] its[i])@ by {
            if i < n - 1 {
                assert(all[i] == before[i]);
            }
        }
        if forall|i: int| 0 <= i < n ==> iterator_wf(#[trigger] its[i]) {
            assert(iterator_wf(its[n - 1]));
        }
    }
}

/// Whether an iterator has nothing more to give.
pub open spec fn view_done(v: IterView) -> bool {
    match v {
        IterView::IndexEqual(left) => left.len() == 0,
        IterView::UniqueEqual(left) => left.len() == 0,
        IterView::IndexRange(left) => left.len() == 0,
        IterView::UniqueRange(left) => left.len() == 0,
        IterView::IndexUnion(left) => left.len() == 0,
        IterView::UniqueUnion(left) => left.len() == 0,
        IterView::IndexJoin(_, j) => j.local is None && j.waiting.len() == 0 && j.remotes.len() == 0,
        IterView::UniqueJoin(_, j) => j.local is None && j.waiting.len() == 0 && j.remotes.len() == 0,
        IterView::Matches(left) => left.len() == 0,
        IterView::Knn(left) => left.len() == 0,
        IterView::Things(left) => left.len() == 0,
    }
}

/// The first of the ranges that are left, if any is.
pub open spec fn first_range(left: Seq<(Seq<u8>, Seq<u8>)>) -> Option<(Seq<u8>, Seq<u8>)> {
    if left.len() > 0 {
        Some(left[0])
    } else {
        None
    }
}

/// The range that the store is to scan before the iterator can take its
/// next step, or nothing if the step needs no scan. A join asks for its
/// inner scan while one is open, and for its first outer iterator otherwise.
pub open spec fn view_range(v: IterView) -> Option<(Seq<u8>, Seq<u8>)>
    decreases v, 0nat,
{
    match v {
        IterView::IndexEqual(left) => first_range(left),
        IterView::UniqueEqual(left) => first_range(left),
        IterView::IndexRange(left) => first_range(left),
        IterView::UniqueRange(left) => first_range(left),
        IterView::IndexUnion(left) => first_range(left),
        IterView::UniqueUnion(left) => first_range(left),
        IterView::IndexJoin(_, j) => join_range(j),
        IterView::UniqueJoin(_, j) => join_range(j),
        IterView::Matches(_) => None,
        IterView::Knn(_) => None,
        IterView::Things(_) => None,
    }
}

/// The range that a join asks for.
pub open spec fn join_range(j: JoinView) -> Option<(Seq<u8>, Seq<u8>)>
    decreases j, 1nat,
{
    match j.local {
        Some(l) => first_range(l),
        None => if j.remotes.len() > 0 {
            view_range(j.remotes[0])
        } else {
            None
        },
    }
}

/// The value under which a join looks an outer record up: the record's number.
pub open spec fn join_value(t: Thing) -> i64 {
    t.id as i64
}

/// A join after it has opened the inner scan of the outer record that waits
/// first, if no inner scan is open and a record waits.
pub open spec fn join_advance(base: IndexKeyBase, j: JoinView) -> JoinView {
    if j.local is Some || j.waiting.len() == 0 {
        j
    } else {
        JoinView {
            waiting: j.waiting.drop_first(),
            local: Some(seq![equal_range(base, join_value(j.waiting[0]))]),
            ..j
        }
    }
}

/// One step of an iterator: what it is afterwards, and the records it hands
/// out. `rows` is what the scan of the range it asked for gave; `limit` is
/// the most that a list hands out at once.
pub open spec fn view_step(
    v: IterView,
    rows: Seq<(Key, Thing)>,
    limit: u32,
) -> (IterView, Seq<Thing>)
    decreases v, 0nat,
{
    match v {
        IterView::IndexEqual(left) => (
            IterView::IndexEqual(scans_after(left, false, rows)),
            scans_emit(left, false, rows),
        ),
        IterView::UniqueEqual(left) => (
            IterView::UniqueEqual(scans_after(left, true, rows)),
            scans_emit(left, true, rows),
        ),
        IterView::IndexRange(left) => (
            IterView::IndexRange(scans_after(left, false, rows)),
            scans_emit(left, false, rows),
        ),
        IterView::UniqueRange(left) => (
            IterView::UniqueRange(scans_after(left, false, rows)),
            scans_emit(left, false, rows),
        ),
        IterView::IndexUnion(left) => (
            IterView::IndexUnion(scans_after(left, false, rows)),
            scans_emit(left, false, rows),
        ),
        IterView::UniqueUnion(left) => (
            IterView::UniqueUnion(scans_after(left, true, rows)),
            scans_emit(left, true, rows),
        ),
        IterView::IndexJoin(base, j) => (
            IterView::IndexJoin(base, join_step(base, false, j, rows, limit).0),
            join_step(base, false, j, rows, limit).1,
        ),
        IterView::UniqueJoin(base, j) => (
            IterView::UniqueJoin(base, join_step(base, true, j, rows, limit).0),
            join_step(base, true, j, rows, limit).1,
        ),
        IterView::Matches(left) => (
            IterView::Matches(left.skip(taken(left.len(), limit))),
            left.take(taken(left.len(), limit)),
        ),
        IterView::Knn(left) => (
            IterView::Knn(left.skip(taken(left.len(), limit))),
            left.take(taken(left.len(), limit)),
        ),
        IterView::Things(left) => (
            IterView::Things(left.skip(taken(left.len(), limit))),
            left.take(taken(left.len(), limit)),
        ),
    }
}

/// One step of a join. While an inner scan is open, the rows are its rows:
/// their records are handed out, and the scan is closed once it has no range
/// left. Otherwise the first outer iterator takes the step: what it hands
/// out joins the records that wait, and it leaves once it has nothing more
/// to give; the join itself hands out nothing. Either way the join then
/// opens the inner scan of the next record that waits.
pub open spec fn join_step(
    base: IndexKeyBase,
    unique: bool,
    j: JoinView,
    rows: Seq<(Key, Thing)>,
    limit: u32,
) -> (JoinView, Seq<Thing>)
    decreases j, 1nat,
{
    match j.local {
        Some(l) => {
            let l2 = scans_after(l, unique, rows);
            (
                join_advance(base, JoinView { local: if l2.len() == 0 { None } else { Some(l2) }, ..j }),
                scans_emit(l, unique, rows),
            )
        },
        None => if j.remotes.len() == 0 {
            (j, Seq::empty())
        } else {
            let (r2, outer) = view_step(j.remotes[0], rows, limit);
            let remotes = if view_done(r2) {
                j.remotes.drop_first()
            } else {
                j.remotes.update(0, r2)
            };
            (join_advance(base, JoinView { remotes, waiting: j.waiting + outer, ..j }), Seq::empty())
        },
    }
}

/// The view of a range that may be missing.
pub open spec fn range_view(r: Option<Range>) -> Option<(Seq<u8>, Seq<u8>)> {
    match r {
        Some((b, e)) => Some((b@, e@)),
        None => None,
    }
}

impl Join {
    /// The view of this join.
    pub open spec fn view(&self) -> JoinView {
        JoinView {
            remotes: views_of(self.remote_iterators),
            waiting: self.waiting@,
            local: local_view(self.current_local),
        }
    }

    /// The join and all that it is built of are in order.
    pub open spec fn wf(&self, unique: bool) -> bool {
        iterators_wf(self.remote_iterators, self.remote_iterators.len() as nat) && local_wf(
            self.current_local,
            unique,
        )
    }

    /// Opens the inner scan of the outer record that waits first.
    fn advance(&mut self, base: &IndexKeyBase, unique: bool)
        requires
            old(self).wf(unique),
        ensures
            final(self).wf(unique),
            final(self).view() == join_advance(*base, old(self).view()),
            final(self).remote_iterators == old(self).remote_iterators,
    {
        if self.current_local.is_some() || self.waiting.len() == 0 {
            return ;
        }
        let t = self.waiting.remove(0);
        let v = #[verifier::truncate] (t.id as i64);
        let mut ranges: Vec<Range> = Vec::new();
        ranges.push((base.prefix_ids_beg(v), base.prefix_ids_end(v)));
        assert(ranges_view(ranges@) =~= seq![equal_range(*base, join_value(t))]);
        self.current_local = Some(Scans::new(ranges, unique));
        assert(self.waiting@ =~= old(self).waiting@.drop_first());
    }

    /// The range that the store is to scan before the next step.
    fn range(&self, unique: bool) -> (r: Option<Range>)
        requires
            self.wf(unique),
        ensures
            range_view(r) == join_range(self.view()),
        decreases self, 1nat,
    {
        match &self.current_local {
            Some(l) => l.range(),
            None => {
                if self.remote_iterators.len() > 0 {
                    proof {
                        lemma_views_of(self.remote_iterators, self.remote_iterators.len() as nat);
                    }
                    self.remote_iterators[0].range()
                } else {
                    None
                }
            },
        }
    }

    /// Takes one step.
    fn next_batch(
        &mut self,
        base: &IndexKeyBase,
        unique: bool,
        rows: &Vec<(Key, Thing)>,
        limit: u32,
    ) -> (r: Vec<Thing>)
        requires
            old(self).wf(unique),
        ensures
            final(self).wf(unique),
            (final(self).view(), r@) == join_step(*base, unique, old(self).view(), rows@, limit),
        decreases *old(self), 1nat,
    {
        let ghost j0 = self.view();
        if self.current_local.is_some() {
            let mut l = self.current_local.take().unwrap();
            let out = l.next_batch(rows);
            if l.range().is_some() {
                self.current_local = Some(l);
            }
            self.advance(base, unique);
            return out;
        }
        if self.remote_iterators.len() == 0 {
            return Vec::new();
        }
        let ghost remotes0 = self.remote_iterators;
        proof {
            lemma_views_of(remotes0, remotes0.len() as nat);
        }
        let mut head = self.remote_iterators.remove(0);
        let ghost mid = self.remote_iterators;
        proof {
            assert(head == remotes0[0]);
            assert(iterator_wf(remotes0[0]));
            assert(j0.remotes[0] == remotes0[0]@);
            assert forall|i: int| 0 <= i < mid.len() implies iterator_wf(#[trigger] mid[i]) by {
                assert(mid[i] == remotes0[i + 1]);
                assert(iterator_wf(remotes0[i + 1]));
            }
            lemma_views_of(mid, mid.len() as nat);
        }
        let mut outer = head.next_batch(rows, limit);
        let ghost r2 = head@;
        self.waiting.append(&mut outer);
        let done = head.is_done();
        if !done {
            self.remote_iterators.insert(0, head);
        }
        proof {
            let after = self.remote_iterators;
            lemma_views_of(after, after.len() as nat);
            let va = views_of(after);
            if done {
                let want = j0.remotes.drop_first();
                assert forall|i: int| 0 <= i < va.len() implies va[i] == want[i] by {
                    assert(after[i] == remotes0[i + 1]);
                    assert(va[i] == after[i]@);
                    assert(j0.remotes[i + 1] == remotes0[i + 1]@);
                }
                assert(va =~= want);
            } else {
                let want = j0.remotes.update(0, r2);
                assert forall|i: int| 0 <= i < va.len() implies va[i] == want[i] by {
                    assert(va[i] == after[i]@);
                    if i > 0 {
                        assert(after[i] == mid[i - 1]);
                        assert(mid[i - 1] == remotes0[i]);
                        assert(j0.remotes[i] == remotes0[i]@);
                    } else {
                        assert(after[0] == head);
                    }
                }
                assert(va =~= want);
                assert forall|i: int| 0 <= i < after.len() implies iterator_wf(#[trigger] after[i]) by {
                    if i > 0 {
                        assert(after[i] == mid[i - 1]);
                        assert(iterator_wf(mid[i - 1]));
                    } else {
                        assert(after[0] == head);
                    }
                }
            }
        }
        self.advance(base, unique);
        Vec::new()
    }
}

impl ThingIterator {
    /// Whether the iterator has nothing more to give.
    pub fn is_done(&self) -> (r: bool)
        requires
            iterator_wf(*self),
        ensures
            r == view_done(self@),
    {
        match self {
            ThingIterator::IndexEqual(it) => it.scans.range().is_none(),
            ThingIterator::UniqueEqual(it) => it.scans.range().is_none(),
            ThingIterator::IndexRange(it) => it.scans.range().is_none(),
            ThingIterator::UniqueRange(it) => it.scans.range().is_none(),
            ThingIterator::IndexUnion(it) => it.scans.range().is_none(),
            ThingIterator::UniqueUnion(it) => it.scans.range().is_none(),
            ThingIterator::IndexJoin(it) => {
                proof {
                    lemma_views_of(it.join.remote_iterators, it.join.remote_iterators.len() as nat);
                }
                it.join.current_local.is_none() && it.join.waiting.len() == 0
                    && it.join.remote_iterators.len() == 0
            },
            ThingIterator::UniqueJoin(it) => {
                proof {
                    lemma_views_of(it.join.remote_iterators, it.join.remote_iterators.len() as nat);
                }
                it.join.current_local.is_none() && it.join.waiting.len() == 0
                    && it.join.remote_iterators.len() == 0
            },
            ThingIterator::Matches(it) => it.things.is_empty(),
            ThingIterator::Knn(it) => it.things.is_empty(),
            ThingIterator::Things(it) => it.is_empty(),
        }
    }

    /// The range that the store is to scan before the iterator takes its
    /// next step, or nothing if the step needs no scan.
    pub fn range(&self) -> (r: Option<Range>)
        requires
            iterator_wf(*self),
        ensures
            range_view(r) == view_range(self@),
        decreases self, 0nat,
    {
        match self {
            ThingIterator::IndexEqual(it) => it.scans.range(),
            ThingIterator::UniqueEqual(it) => it.scans.range(),
            ThingIterator::IndexRange(it) => it.scans.range(),
            ThingIterator::UniqueRange(it) => it.scans.range(),
            ThingIterator::IndexUnion(it) => it.scans.range(),
            ThingIterator::UniqueUnion(it) => it.scans.range(),
            ThingIterator::IndexJoin(it) => it.join.range(false),
            ThingIterator::UniqueJoin(it) => it.join.range(true),
            ThingIterator::Matches(_) => None,
            ThingIterator::Knn(_) => None,
            ThingIterator::Things(_) => None,
        }
    }

    /// Takes one step: hands out the next records, given the rows that the
    /// scan of the range asked for gave. A step may hand out nothing and
    /// still not be the last: the iterator is exhausted once it is done.
    pub fn next_batch(&mut self, rows: &Vec<(Key, Thing)>, limit: u32) -> (r: Vec<Thing>)
        requires
            iterator_wf(*old(self)),
        ensures
            iterator_wf(*final(self)),
            (final(self)@, r@) == view_step(old(self)@, rows@, limit),
        decreases *old(self), 0nat,
    {
        match self {
            ThingIterator::IndexEqual(it) => it.scans.next_batch(rows),
            ThingIterator::UniqueEqual(it) => it.scans.next_batch(rows),
            ThingIterator::IndexRange(it) => it.scans.next_batch(rows),
            ThingIterator::UniqueRange(it) => it.scans.next_batch(rows),
            ThingIterator::IndexUnion(it) => it.scans.next_batch(rows),
            ThingIterator::UniqueUnion(it) => it.scans.next_batch(rows),
            ThingIterator::IndexJoin(it) => {
                let base = it.base;
                it.join.next_batch(&base, false, rows, limit)
            },
            ThingIterator::UniqueJoin(it) => {
                let base = it.base;
                it.join.next_batch(&base, true, rows, limit)
            },
            ThingIterator::Matches(it) => it.things.next_batch(limit),
            ThingIterator::Knn(it) => it.things.next_batch(limit),
            ThingIterator::Things(it) => it.next_batch(limit),
        }
    }
}

} // verus!
