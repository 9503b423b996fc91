//! The query executor: what a plan's index options are resolved into, and the
//! questions that a scan asks about the records it streams.

use vstd::prelude::*;
use std::collections::HashMap;
use crate::err::{Error, MatchRef};
use crate::ft::{
    DocId, FtIndex, ScoreInput, TermId, TermsDocs, TermsSet, dict_view, doc_offsets, first_of,
    highlighted, length_of, score_terms, total_length, terms_list_of, terms_docs_of,
    terms_docs_view,
};
use crate::idx::IndexKeyBase;
use crate::iterators::{
    DocIdsIterator, IndexEqualThingIterator, IndexJoinThingIterator, IndexRangeThingIterator,
    IndexUnionThingIterator, IterView, MatchesThingIterator, ThingIterator, ThingsIterator,
    UniqueEqualThingIterator, UniqueJoinThingIterator, UniqueRangeThingIterator,
    UniqueUnionThingIterator, between_range, doc_in_all, equal_range, in_all, iterator_wf,
    iterators_wf, join_opened, lemma_views_upto, matching_things, things_of_docs, union_ranges,
    views_of,
};
use crate::knn::{
    Candidate, Distance, IterationStage, KnnBruteForceResult, KnnPriorityList, offer,
    result_contains, things_of,
};
use crate::plan::{
    DefineIndexStatement, Explanation, IdiomPosition, Index, IndexOperator, IndexOption,
    IndexRef, IndexesMap, IteratorEntry, IteratorRef, Options, RangeValue,
};
use crate::sql::{CursorDoc, Expression, Idiom, Thing, Value, vector_of};
use crate::trees::{HnswIndex, MTreeIndex};

verus! {

broadcast use vstd::std_specs::hash::group_hash_axioms;

/// What a brute-force search needs to know of its expression.
#[derive(Debug)]
pub struct KnnBruteForceExpression {
    k: u32,
    id: Idiom,
    obj: Vec<i32>,
    d: Distance,
}

impl KnnBruteForceExpression {
    /// How many records the search keeps.
    pub closed spec fn k(&self) -> u32 {
        self.k
    }

    /// The field that holds the vector of a record.
    pub closed spec fn id(&self) -> Idiom {
        self.id
    }

    /// The vector to be near to.
    pub closed spec fn obj(&self) -> Seq<i32> {
        self.obj@
    }

    /// How the search measures.
    pub closed spec fn d(&self) -> Distance {
        self.d
    }

    /// A search for the `k` records whose vector under `id` is nearest to
    /// `obj`, as `d` measures.
    pub fn new(k: u32, id: Idiom, obj: Vec<i32>, d: Distance) -> (e: KnnBruteForceExpression)
        ensures
            e.k() == k,
            e.id() == id,
            e.obj() == obj@,
            e.d() == d,
    {
        Self { k, id, obj, d }
    }
}

/// The list of a brute-force search, and what feeds it: the field that holds
/// a record's vector, the vector to be near to, and the measure.
pub type KnnBruteForceEntry = (KnnPriorityList, Idiom, Vec<i32>, Distance);

/// The brute-force searches of a plan, each with its expression.
pub type KnnBruteForceExpressions = Vec<(Expression, KnnBruteForceExpression)>;

/// The expressions of a plan that ask for nearest neighbours.
pub type KnnExpressions = Vec<Expression>;

/// The sessions that were opened for a plan, each under the reference of its
/// index.
#[derive(Debug)]
pub struct IndexStores {
    pub ft: HashMap<IndexRef, FtIndex>,
    pub mtree: HashMap<IndexRef, MTreeIndex>,
    pub hnsw: HashMap<IndexRef, HnswIndex>,
}

/// What the executor keeps for one full-text predicate.
#[derive(Debug)]
pub struct FtEntry {
    ir: IndexRef,
    id: Idiom,
    id_pos: IdiomPosition,
    mr: Option<MatchRef>,
    query_terms_set: TermsSet,
    query_terms_list: Vec<Option<TermId>>,
    terms_docs: TermsDocs,
    scoring: bool,
}

/// What a full-text entry holds.
pub struct FtEntryView {
    pub ir: IndexRef,
    pub id: Idiom,
    pub id_pos: IdiomPosition,
    pub mr: Option<MatchRef>,
    pub terms_list: Seq<Option<TermId>>,
    pub terms_docs: Seq<Option<(TermId, Seq<DocId>)>>,
    pub scoring: bool,
}

/// The entry that the session `ft` gives for the option `io`, which asks for
/// the matches of `query`.
pub open spec fn ft_entry_for(
    ft: FtIndex,
    io: IndexOption,
    query: Seq<u8>,
    mr: Option<MatchRef>,
) -> FtEntryView {
    let list = terms_list_of(dict_view(ft.terms@), query);
    FtEntryView {
        ir: io.ir,
        id: io.id,
        id_pos: io.id_pos,
        mr,
        terms_list: list,
        terms_docs: terms_docs_of(ft.postings@, list),
        scoring: ft.scoring,
    }
}

impl View for FtEntry {
    type V = FtEntryView;

    closed spec fn view(&self) -> FtEntryView {
        FtEntryView {
            ir: self.ir,
            id: self.id,
            id_pos: self.id_pos,
            mr: self.mr,
            terms_list: self.query_terms_list@,
            terms_docs: terms_docs_view(self.terms_docs@),
            scoring: self.scoring,
        }
    }
}

impl FtEntry {
    /// The set of terms is the set of the list of terms.
    pub closed spec fn wf(&self) -> bool {
        self.query_terms_set.is_of(self.query_terms_list@)
    }

    /// The entry for the option `io`, if `io` asks for matches.
    pub fn new(ft: &FtIndex, io: &IndexOption) -> (r: Option<FtEntry>)
        ensures
            match io.op {
                IndexOperator::Matches(qs, mr) => r is Some && r->Some_0.wf() && r->Some_0@ == ft_entry_for(
                    *ft,
                    *io,
                    qs@,
                    mr,
                ),
                _ => r is None,
            },
    {
        if let IndexOperator::Matches(qs, mr) = &io.op {
            let (terms_list, terms_set) = ft.extract_querying_terms(qs.as_slice());
            let terms_docs = ft.get_terms_docs(&terms_list);
            Some(
                FtEntry {
                    ir: io.ir,
                    id: io.id,
                    id_pos: io.id_pos,
                    mr: *mr,
                    query_terms_set: terms_set,
                    query_terms_list: terms_list,
                    scoring: ft.scoring,
                    terms_docs,
                },
            )
        } else {
            None
        }
    }
}

/// What the executor keeps for one search in a metric tree: the tree, and
/// the documents found with their distances.
#[derive(Debug)]
pub struct MtEntry {
    ir: IndexRef,
    res: Vec<(DocId, u128)>,
}

impl View for MtEntry {
    type V = (IndexRef, Seq<(DocId, u128)>);

    closed spec fn view(&self) -> (IndexRef, Seq<(DocId, u128)>) {
        (self.ir, self.res@)
    }
}

impl MtEntry {
    /// Searches the tree `mt`, which the plan knows as `ir`, for the `k`
    /// documents nearest to `a`.
    pub fn new(mt: &MTreeIndex, ir: IndexRef, a: &Vec<i32>, k: u32) -> (r: Result<MtEntry, Error>)
        ensures
            match mt.search(a@, k as nat) {
                Ok(s) => r is Ok && r->Ok_0@ == (ir, s),
                Err(e) => r == Err::<MtEntry, Error>(e),
            },
    {
        match mt.knn_search(a, k as usize) {
            Ok(res) => Ok(MtEntry { ir, res }),
            Err(e) => Err(e),
        }
    }
}

/// What the executor keeps for one search in a graph: the records found
/// with their distances.
#[derive(Debug)]
pub struct HnswEntry {
    res: Vec<(Thing, u128)>,
}

impl View for HnswEntry {
    type V = Seq<(Thing, u128)>;

    closed spec fn view(&self) -> Seq<(Thing, u128)> {
        self.res@
    }
}

impl HnswEntry {
    /// Searches the graph `h` for the `n` records nearest to `a`.
    pub fn new(h: &HnswIndex, a: &Vec<i32>, n: usize, ef: usize) -> (r: Result<HnswEntry, Error>)
        ensures
            match h.search(a@, n as nat) {
                Ok(s) => r is Ok && r->Ok_0@ == s,
                Err(e) => r == Err::<HnswEntry, Error>(e),
            },
    {
        match h.knn_search(a, n, ef) {
            Ok(res) => Ok(HnswEntry { res }),
            Err(e) => Err(e),
        }
    }
}

/// What attaching a plan has built so far: the entries, in the order in
/// which they were made, and which entry serves which expression and which
/// match reference.
pub struct Attached {
    pub ft_entries: Seq<FtEntryView>,
    pub mr_entries: Map<MatchRef, usize>,
    pub exp_entries: Map<u64, usize>,
    pub mt_list: Seq<(IndexRef, Seq<(DocId, u128)>)>,
    pub mt_entries: Map<u64, usize>,
    pub hnsw_list: Seq<Seq<(Thing, u128)>>,
    pub hnsw_entries: Map<u64, usize>,
}

/// Nothing attached.
pub open spec fn attached_nothing() -> Attached {
    Attached {
        ft_entries: Seq::empty(),
        mr_entries: Map::empty(),
        exp_entries: Map::empty(),
        mt_list: Seq::empty(),
        mt_entries: Map::empty(),
        hnsw_list: Seq::empty(),
        hnsw_entries: Map::empty(),
    }
}

/// What attaching the option `io` of the expression `exp` adds to `st`.
///
/// An option counts only if the catalogue has its index and a session was
/// opened for it. A full-text index with a match operator gets an entry for
/// the expression, and for the match reference if the operator has one; a
/// reference that is taken already fails the plan. A metric tree with a
/// nearest-neighbour operator, and a graph with its operator, are searched,
/// and what was found is kept for the expression; a search that fails, fails
/// the plan. Every other pairing adds nothing.
pub open spec fn attach_one(
    defs: Seq<DefineIndexStatement>,
    stores: IndexStores,
    st: Attached,
    exp: Expression,
    io: IndexOption,
) -> Result<Attached, Error> {
    if io.ir >= defs.len() {
        Ok(st)
    } else {
        match (defs[io.ir as int].index, io.op) {
            (Index::Search, IndexOperator::Matches(qs, mr)) => if stores.ft@.contains_key(io.ir) {
                let e = ft_entry_for(stores.ft@[io.ir], io, qs@, mr);
                let n = st.ft_entries.len() as usize;
                match mr {
                    Some(m) => if st.mr_entries.contains_key(m) {
                        Err(Error::DuplicatedMatchRef { mr: m })
                    } else {
                        Ok(
                            Attached {
                                ft_entries: st.ft_entries.push(e),
                                mr_entries: st.mr_entries.insert(m, n),
                                exp_entries: st.exp_entries.insert(exp.0, n),
                                ..st
                            },
                        )
                    },
                    None => Ok(
                        Attached {
                            ft_entries: st.ft_entries.push(e),
                            exp_entries: st.exp_entries.insert(exp.0, n),
                            ..st
                        },
                    ),
                }
            } else {
                Ok(st)
            },
            (Index::MTree, IndexOperator::Knn(a, k)) => if stores.mtree@.contains_key(io.ir) {
                match stores.mtree@[io.ir].search(a@, k as nat) {
                    Ok(res) => Ok(
                        Attached {
                            mt_list: st.mt_list.push((io.ir, res)),
                            mt_entries: st.mt_entries.insert(exp.0, st.mt_list.len() as usize),
                            ..st
                        },
                    ),
                    Err(e) => Err(e),
                }
            } else {
                Ok(st)
            },
            (Index::Hnsw, IndexOperator::Ann(a, n, ef)) => if stores.hnsw@.contains_key(io.ir) {
                match stores.hnsw@[io.ir].search(a@, n as nat) {
                    Ok(res) => Ok(
                        Attached {
                            hnsw_list: st.hnsw_list.push(res),
                            hnsw_entries: st.hnsw_entries.insert(exp.0, st.hnsw_list.len() as usize),
                            ..st
                        },
                    ),
                    Err(e) => Err(e),
                }
            } else {
                Ok(st)
            },
            _ => Ok(st),
        }
    }
}

/// What attaching the options `opts`, one after the other, builds; or the
/// failure of the first option that fails.
pub open spec fn attach_all(
    defs: Seq<DefineIndexStatement>,
    stores: IndexStores,
    opts: Seq<(Expression, IndexOption)>,
) -> Result<Attached, Error>
    decreases opts.len(),
{
    if opts.len() == 0 {
        Ok(attached_nothing())
    } else {
        match attach_all(defs, stores, opts.drop_last()) {
            Ok(st) => attach_one(defs, stores, st, opts.last().0, opts.last().1),
            Err(e) => Err(e),
        }
    }
}

/// What a brute-force entry holds: its expression, the candidates in its
/// list, how many the list keeps, and what feeds it.
pub struct KnnEntryView {
    pub exp: Expression,
    pub list: Seq<Candidate>,
    pub capacity: nat,
    pub id: Idiom,
    pub obj: Seq<i32>,
    pub d: Distance,
}

/// The view of one brute-force entry.
pub open spec fn knn_entry_view(e: (Expression, KnnBruteForceEntry)) -> KnnEntryView {
    KnnEntryView { exp: e.0, list: e.1.0@, capacity: e.1.0.capacity(), id: e.1.1, obj: e.1.2@, d: e.1.3 }
}

/// The views of the brute-force entries.
pub open spec fn knn_entries_view(es: Seq<(Expression, KnnBruteForceEntry)>) -> Seq<KnnEntryView> {
    Seq::new(es.len(), |i: int| knn_entry_view(es[i]))
}

/// The entries that the brute-force searches of a plan begin with: for each
/// an empty list that keeps `k` candidates.
pub open spec fn knn_entries_for(
    kbtes: Seq<(Expression, KnnBruteForceExpression)>,
) -> Seq<KnnEntryView> {
    Seq::new(
        kbtes.len(),
        |i: int|
            KnnEntryView {
                exp: kbtes[i].0,
                list: Seq::empty(),
                capacity: kbtes[i].1.k() as nat,
                id: kbtes[i].1.id(),
                obj: kbtes[i].1.obj(),
                d: kbtes[i].1.d(),
            },
    )
}

/// The state of the executor.
#[derive(Debug)]
pub struct InnerQueryExecutor {
    pub table: u32,
    pub stores: IndexStores,
    pub ft_entries: Vec<FtEntry>,
    pub mr_entries: HashMap<MatchRef, usize>,
    pub exp_entries: HashMap<u64, usize>,
    pub it_entries: Vec<IteratorEntry>,
    pub index_definitions: Vec<DefineIndexStatement>,
    pub mt_list: Vec<MtEntry>,
    pub mt_entries: HashMap<u64, usize>,
    pub hnsw_list: Vec<HnswEntry>,
    pub hnsw_entries: HashMap<u64, usize>,
    pub knn_bruteforce_entries: Vec<(Expression, KnnBruteForceEntry)>,
}

/// The views of the full-text entries.
pub open spec fn ft_entries_view(es: Seq<FtEntry>) -> Seq<FtEntryView> {
    Seq::new(es.len(), |i: int| es[i]@)
}

/// The views of the searches in metric trees.
pub open spec fn mt_list_view(es: Seq<MtEntry>) -> Seq<(IndexRef, Seq<(DocId, u128)>)> {
    Seq::new(es.len(), |i: int| es[i]@)
}

/// The views of the searches in graphs.
pub open spec fn hnsw_list_view(es: Seq<HnswEntry>) -> Seq<Seq<(Thing, u128)>> {
    Seq::new(es.len(), |i: int| es[i]@)
}

impl InnerQueryExecutor {
    /// What was attached.
    pub open spec fn attached(&self) -> Attached {
        Attached {
            ft_entries: ft_entries_view(self.ft_entries@),
            mr_entries: self.mr_entries@,
            exp_entries: self.exp_entries@,
            mt_list: mt_list_view(self.mt_list@),
            mt_entries: self.mt_entries@,
            hnsw_list: hnsw_list_view(self.hnsw_list@),
            hnsw_entries: self.hnsw_entries@,
        }
    }

    /// Attaches a plan to the table `table`: makes the entries of its options
    /// from the sessions in `stores`, and an empty list for each brute-force
    /// search. The plan fails where a match reference is used twice, or a
    /// search fails.
    pub fn new(
        table: u32,
        im: IndexesMap,
        stores: IndexStores,
        knns: KnnExpressions,
        kbtes: KnnBruteForceExpressions,
    ) -> (r: Result<InnerQueryExecutor, Error>)
        ensures
            match attach_all(im.definitions@, stores, im.options@) {
                Err(e) => r == Err::<InnerQueryExecutor, Error>(e),
                Ok(a) => r is Ok && r->Ok_0.wf() && r->Ok_0.attached() == a && r->Ok_0.table == table
                    && r->Ok_0.stores == stores && r->Ok_0.index_definitions == im.definitions
                    && r->Ok_0.it_entries@.len() == 0 && knn_entries_view(
                    r->Ok_0.knn_bruteforce_entries@,
                ) == knn_entries_for(kbtes@),
            },
    {
        let mut mr_entries: HashMap<MatchRef, usize> = HashMap::new();
        let mut exp_entries: HashMap<u64, usize> = HashMap::new();
        let mut ft_entries: Vec<FtEntry> = Vec::new();
        let mut mt_list: Vec<MtEntry> = Vec::new();
        let mut mt_entries: HashMap<u64, usize> = HashMap::new();
        let mut hnsw_list: Vec<HnswEntry> = Vec::new();
        let mut hnsw_entries: HashMap<u64, usize> = HashMap::new();
        let mut knn_bruteforce_entries: Vec<(Expression, KnnBruteForceEntry)> = Vec::with_capacity(
            knns.len(),
        );
        let ghost defs = im.definitions@;
        let ghost opts = im.options@;
        let ghost mut st = attached_nothing();
        proof {
            assert(opts.subrange(0, 0) =~= Seq::empty());
            assert(ft_entries_view(ft_entries@) =~= Seq::empty());
            assert(mt_list_view(mt_list@) =~= Seq::empty());
            assert(hnsw_list_view(hnsw_list@) =~= Seq::empty());
        }

        // Make the entries of the options, and map them to expressions and
        // match references
        let mut i: usize = 0;
        while i < im.options.len()
            invariant
                i <= im.options.len(),
                defs == im.definitions@,
                opts == im.options@,
                attach_all(defs, stores, opts.subrange(0, i as int)) == Ok::<Attached, Error>(st),
                st == (Attached {
                    ft_entries: ft_entries_view(ft_entries@),
                    mr_entries: mr_entries@,
                    exp_entries: exp_entries@,
                    mt_list: mt_list_view(mt_list@),
                    mt_entries: mt_entries@,
                    hnsw_list: hnsw_list_view(hnsw_list@),
                    hnsw_entries: hnsw_entries@,
                }),
                attached_wf(st, stores),
                ft_entries@.len() <= i,
                mt_list@.len() <= i,
                hnsw_list@.len() <= i,
                forall|j: int| 0 <= j < ft_entries@.len() ==> (#[trigger] ft_entries@[j]).wf(),
            decreases im.options.len() - i,
        {
            let exp = &im.options[i].0;
            let io = &im.options[i].1;
            let ix_ref = io.ix_ref();
            let ghost prev = st;
            proof {
                assert(opts.subrange(0, i + 1).drop_last() =~= opts.subrange(0, i as int));
                assert(opts.subrange(0, i + 1).last() == opts[i as int]);
                lemma_attach_one(defs, stores, prev, *exp, *io);
            }
            if (ix_ref as usize) < im.definitions.len() {
                let idx_def = &im.definitions[ix_ref as usize];
                match idx_def.index {
                    Index::Search => {
                        if let Some(ft) = stores.ft.get(&ix_ref) {
                            if let Some(e) = FtEntry::new(ft, io) {
                                let n = ft_entries.len();
                                let ghost ev = e@;
                                if let Some(mr) = e.mr {
                                    if mr_entries.contains_key(&mr) {
                                        proof {
                                            lemma_attach_fails(defs, stores, opts, i + 1);
                                        }
                                        return Err(Error::DuplicatedMatchRef { mr });
                                    }
                                    mr_entries.insert(mr, n);
                                }
                                exp_entries.insert(exp.0, n);
                                let ghost before = ft_entries_view(ft_entries@);
                                ft_entries.push(e);
                                proof {
                                    assert(ft_entries_view(ft_entries@) =~= before.push(ev));
                                    st = attach_one(defs, stores, prev, *exp, *io)->Ok_0;
                                }
                            }
                        }
                    },
                    Index::MTree => {
                        if let IndexOperator::Knn(a, k) = io.op() {
                            if let Some(mt) = stores.mtree.get(&ix_ref) {
                                let entry = match MtEntry::new(mt, ix_ref, a, *k) {
                                    Ok(entry) => entry,
                                    Err(e) => {
                                        proof {
                                            lemma_attach_fails(defs, stores, opts, i + 1);
                                        }
                                        return Err(e);
                                    },
                                };
                                let ghost ev = entry@;
                                let ghost before = mt_list_view(mt_list@);
                                mt_entries.insert(exp.0, mt_list.len());
                                mt_list.push(entry);
                                proof {
                                    assert(mt_list_view(mt_list@) =~= before.push(ev));
                                    st = attach_one(defs, stores, prev, *exp, *io)->Ok_0;
                                }
                            }
                        }
                    },
                    Index::Hnsw => {
                        if let IndexOperator::Ann(a, n, ef) = io.op() {
                            if let Some(h) = stores.hnsw.get(&ix_ref) {
                                let entry = match HnswEntry::new(h, a, *n, *ef) {
                                    Ok(entry) => entry,
                                    Err(e) => {
                                        proof {
                                            lemma_attach_fails(defs, stores, opts, i + 1);
                                        }
                                        return Err(e);
                                    },
                                };
                                let ghost ev = entry@;
                                let ghost before = hnsw_list_view(hnsw_list@);
                                hnsw_entries.insert(exp.0, hnsw_list.len());
                                hnsw_list.push(entry);
                                proof {
                                    assert(hnsw_list_view(hnsw_list@) =~= before.push(ev));
                                    st = attach_one(defs, stores, prev, *exp, *io)->Ok_0;
                                }
                            }
                        }
                    },
                    _ => {},
                }
            }
            i += 1;
        }
        proof {
            assert(opts.subrange(0, i as int) =~= opts);
        }

        let mut j: usize = 0;
        while j < kbtes.len()
            invariant
                j <= kbtes.len(),
                knn_entries_view(knn_bruteforce_entries@) == knn_entries_for(kbtes@).subrange(0, j as int),
                forall|a: int|
                    0 <= a < knn_bruteforce_entries@.len() ==> (#[trigger] knn_bruteforce_entries@[a]).1.0.wf(),
            decreases kbtes.len() - j,
        {
            let knn = &kbtes[j].1;
            let ghost before = knn_entries_view(knn_bruteforce_entries@);
            let entry: (Expression, KnnBruteForceEntry) = (
                kbtes[j].0,
                (KnnPriorityList::new(knn.k as usize), knn.id, knn.obj.clone(), knn.d),
            );
            let ghost ev = knn_entry_view(entry);
            knn_bruteforce_entries.push(entry);
            proof {
                assert(knn_entries_view(knn_bruteforce_entries@) =~= before.push(ev));
                assert(before.push(ev) =~= knn_entries_for(kbtes@).subrange(0, j + 1));
            }
            j += 1;
        }
        proof {
            assert(knn_entries_for(kbtes@).subrange(0, j as int) =~= knn_entries_for(kbtes@));
        }

        Ok(
            Self {
                table,
                stores,
                ft_entries,
                mr_entries,
                exp_entries,
                it_entries: Vec::new(),
                index_definitions: im.definitions,
                mt_list,
                mt_entries,
                hnsw_list,
                hnsw_entries,
                knn_bruteforce_entries,
            },
        )
    }

    /// The executor is in order: every reference into its lists is in range,
    /// every entry has its session, every list of candidates is ranked, and
    /// the iterator entries can be counted by their references.
    pub open spec fn wf(&self) -> bool {
        &&& attached_wf(self.attached(), self.stores)
        &&& forall|i: int| 0 <= i < self.ft_entries@.len() ==> (#[trigger] self.ft_entries@[i]).wf()
        &&& forall|i: int|
            0 <= i < self.knn_bruteforce_entries@.len() ==> (
            #[trigger] self.knn_bruteforce_entries@[i]).1.0.wf()
        &&& self.it_entries@.len() <= 0x1_0000
    }
}

/// Every reference of `a` is in range, and every entry of `a` has its session
/// in `stores`.
pub open spec fn attached_wf(a: Attached, stores: IndexStores) -> bool {
    &&& forall|m: MatchRef| #[trigger] a.mr_entries.contains_key(m) ==> a.mr_entries[m] < a.ft_entries.len()
    &&& forall|e: u64| #[trigger] a.exp_entries.contains_key(e) ==> a.exp_entries[e] < a.ft_entries.len()
    &&& forall|e: u64| #[trigger] a.mt_entries.contains_key(e) ==> a.mt_entries[e] < a.mt_list.len()
    &&& forall|e: u64| #[trigger] a.hnsw_entries.contains_key(e) ==> a.hnsw_entries[e] < a.hnsw_list.len()
    &&& forall|i: int|
        0 <= i < a.ft_entries.len() ==> stores.ft@.contains_key((#[trigger] a.ft_entries[i]).ir)
    &&& forall|i: int| 0 <= i < a.mt_list.len() ==> stores.mtree@.contains_key((#[trigger] a.mt_list[i]).0)
}

/// A plan whose first options fail, fails as they do.
pub proof fn lemma_attach_fails(
    defs: Seq<DefineIndexStatement>,
    stores: IndexStores,
    opts: Seq<(Expression, IndexOption)>,
    upto: int,
)
    requires
        0 <= upto <= opts.len(),
        attach_all(defs, stores, opts.subrange(0, upto)) is Err,
    ensures
        attach_all(defs, stores, opts) == attach_all(defs, stores, opts.subrange(0, upto)),
    decreases opts.len() - upto,
{
    if upto < opts.len() {
        assert(opts.subrange(0, upto + 1).drop_last() =~= opts.subrange(0, upto));
        lemma_attach_fails(defs, stores, opts, upto + 1);
    } else {
        assert(opts.subrange(0, upto) =~= opts);
    }
}

/// Attaching an option keeps what was attached in order.
pub proof fn lemma_attach_one(
    defs: Seq<DefineIndexStatement>,
    stores: IndexStores,
    st: Attached,
    exp: Expression,
    io: IndexOption,
)
    requires
        attached_wf(st, stores),
        st.ft_entries.len() < usize::MAX,
        st.mt_list.len() < usize::MAX,
        st.hnsw_list.len() < usize::MAX,
    ensures
        attach_one(defs, stores, st, exp, io) is Ok ==> attached_wf(
            attach_one(defs, stores, st, exp, io)->Ok_0,
            stores,
        ),
{
    let r = attach_one(defs, stores, st, exp, io);
    if r is Ok {
        let a = r->Ok_0;
        assert forall|i: int| 0 <= i < a.ft_entries.len() implies stores.ft@.contains_key(
            (#[trigger] a.ft_entries[i]).ir,
        ) by {
            if i < st.ft_entries.len() {
                assert(a.ft_entries[i] == st.ft_entries[i]);
            }
        }
        assert forall|i: int| 0 <= i < a.mt_list.len() implies stores.mtree@.contains_key(
            (#[trigger] a.mt_list[i]).0,
        ) by {
            if i < st.mt_list.len() {
                assert(a.mt_list[i] == st.mt_list[i]);
            }
        }
    }
}

/// The documents of a search result.
pub open spec fn found_docs(res: Seq<(DocId, u128)>) -> Seq<DocId> {
    Seq::new(res.len(), |i: int| res[i].0)
}

/// The records of a search result.
pub open spec fn found_things(res: Seq<(Thing, u128)>) -> Seq<Thing> {
    Seq::new(res.len(), |i: int| res[i].0)
}

/// What the keys of the index `ix` have in common where the query runs in `opt`.
pub open spec fn key_base(opt: Options, ix: DefineIndexStatement) -> IndexKeyBase {
    IndexKeyBase { ns: opt.ns, db: opt.db, tb: ix.what, ix: ix.id }
}

/// The view of an iterator that may be missing.
pub open spec fn iter_view(it: Option<ThingIterator>) -> Option<IterView> {
    match it {
        Some(i) => Some(i@),
        None => None,
    }
}

impl InnerQueryExecutor {
    /// Adds an entry to make iterators from, and gives its reference.
    pub fn add_iterator(&mut self, it_entry: IteratorEntry) -> (ir: IteratorRef)
        requires
            old(self).wf(),
            old(self).it_entries@.len() < 0x1_0000,
        ensures
            final(self).wf(),
            ir == old(self).it_entries@.len(),
            final(self).it_entries@ == old(self).it_entries@.push(it_entry),
            final(self).table == old(self).table,
            final(self).stores == old(self).stores,
            final(self).ft_entries == old(self).ft_entries,
            final(self).mr_entries == old(self).mr_entries,
            final(self).exp_entries == old(self).exp_entries,
            final(self).index_definitions == old(self).index_definitions,
            final(self).mt_list == old(self).mt_list,
            final(self).mt_entries == old(self).mt_entries,
            final(self).hnsw_list == old(self).hnsw_list,
            final(self).hnsw_entries == old(self).hnsw_entries,
            final(self).knn_bruteforce_entries == old(self).knn_bruteforce_entries,
    {
        let ir = self.it_entries.len();
        self.it_entries.push(it_entry);
        ir as IteratorRef
    }

    /// The definition that `ir` refers to.
    pub open spec fn index_def(&self, ir: IndexRef) -> Option<DefineIndexStatement> {
        if ir < self.index_definitions@.len() {
            Some(self.index_definitions@[ir as int])
        } else {
            None
        }
    }

    /// The expression of the single option that the entry `it_ref` was made of.
    pub open spec fn single_expression(&self, it_ref: IteratorRef) -> Option<Expression> {
        if it_ref < self.it_entries@.len() {
            match self.it_entries@[it_ref as int] {
                IteratorEntry::Single(exp, _) => Some(exp),
                _ => None,
            }
        } else {
            None
        }
    }

    /// The iterator over the matches of the full-text option `io` of the
    /// entry `it_ref`: there is one if the entry is a single option, the
    /// option asks for matches, its index has a session, and the entry's
    /// expression has a full-text entry.
    pub open spec fn search_iterator(
        &self,
        it_ref: IteratorRef,
        io: IndexOption,
    ) -> Option<IterView> {
        match self.single_expression(it_ref) {
            Some(exp) => if io.op is Matches && self.stores.ft@.contains_key(io.ir)
                && self.exp_entries@.contains_key(exp.0) {
                Some(
                    IterView::Matches(
                        matching_things(
                            self.ft_entries@[self.exp_entries@[exp.0] as int]@.terms_docs,
                            self.stores.ft@[io.ir].doc_ids@,
                        ),
                    ),
                )
            } else {
                None
            },
            None => None,
        }
    }

    /// The iterator over what a metric tree found for the entry `it_ref`.
    pub open spec fn mtree_iterator(&self, it_ref: IteratorRef) -> Option<IterView> {
        match self.single_expression(it_ref) {
            Some(exp) => if self.mt_entries@.contains_key(exp.0) {
                let e = self.mt_list@[self.mt_entries@[exp.0] as int]@;
                Some(IterView::Knn(things_of_docs(found_docs(e.1), self.stores.mtree@[e.0].doc_ids@)))
            } else {
                None
            },
            None => None,
        }
    }

    /// The iterator over what a graph found for the entry `it_ref`.
    pub open spec fn hnsw_iterator(&self, it_ref: IteratorRef) -> Option<IterView> {
        match self.single_expression(it_ref) {
            Some(exp) => if self.hnsw_entries@.contains_key(exp.0) {
                Some(IterView::Things(found_things(self.hnsw_list@[self.hnsw_entries@[exp.0] as int]@)))
            } else {
                None
            },
            None => None,
        }
    }

    /// The iterator that the option `io` is resolved into for the entry
    /// `it_ref`, or nothing where the operator does not go with the index.
    pub open spec fn single_iterator(
        &self,
        opt: Options,
        it_ref: IteratorRef,
        io: IndexOption,
    ) -> Option<IterView>
        decreases io, 0nat,
    {
        if io.ir >= self.index_definitions@.len() {
            None
        } else {
            let ix = self.index_definitions@[io.ir as int];
            let base = key_base(opt, ix);
            match ix.index {
                Index::Idx => match io.op {
                    IndexOperator::Equality(v) => Some(IterView::IndexEqual(seq![equal_range(base, v)])),
                    IndexOperator::Exactness(v) => Some(IterView::IndexEqual(seq![equal_range(base, v)])),
                    IndexOperator::Union(vs) => Some(IterView::IndexUnion(union_ranges(base, vs@))),
                    IndexOperator::Join(ios) => Some(
                        IterView::IndexJoin(
                            base,
                            join_opened(self.iterators_upto(opt, it_ref, ios, ios.len() as nat)),
                        ),
                    ),
                    _ => None,
                },
                Index::Uniq => match io.op {
                    IndexOperator::Equality(v) => Some(IterView::UniqueEqual(seq![equal_range(base, v)])),
                    IndexOperator::Exactness(v) => Some(IterView::UniqueEqual(seq![equal_range(base, v)])),
                    IndexOperator::Union(vs) => Some(IterView::UniqueUnion(union_ranges(base, vs@))),
                    IndexOperator::Join(ios) => Some(
                        IterView::UniqueJoin(
                            base,
                            join_opened(self.iterators_upto(opt, it_ref, ios, ios.len() as nat)),
                        ),
                    ),
                    _ => None,
                },
                Index::Search => self.search_iterator(it_ref, io),
                Index::MTree => self.mtree_iterator(it_ref),
                Index::Hnsw => self.hnsw_iterator(it_ref),
            }
        }
    }

    /// The iterators that the first `n` of the options `ios` are resolved
    /// into, without those that are resolved into nothing.
    pub open spec fn iterators_upto(
        &self,
        opt: Options,
        it_ref: IteratorRef,
        ios: Vec<IndexOption>,
        n: nat,
    ) -> Seq<IterView>
        decreases ios, n,
    {
        if n == 0 || n > ios.len() {
            Seq::empty()
        } else {
            let rest = self.iterators_upto(opt, it_ref, ios, (n - 1) as nat);
            match self.single_iterator(opt, it_ref, ios[n - 1]) {
                Some(v) => rest.push(v),
                None => rest,
            }
        }
    }

    /// The iterator over the range of the index `ir` between `from` and `to`:
    /// there is one if the index is ordered.
    pub open spec fn range_iterator(
        &self,
        opt: Options,
        ir: IndexRef,
        from: RangeValue,
        to: RangeValue,
    ) -> Option<IterView> {
        match self.index_def(ir) {
            Some(ix) => match ix.index {
                Index::Idx => Some(IterView::IndexRange(seq![between_range(key_base(opt, ix), from, to)])),
                Index::Uniq => Some(IterView::UniqueRange(seq![between_range(key_base(opt, ix), from, to)])),
                _ => None,
            },
            None => None,
        }
    }

    /// The iterator that the entry `it_ref` is resolved into, or nothing
    /// where there is no such entry or its operator does not go with its
    /// index.
    pub open spec fn iterator(&self, opt: Options, it_ref: IteratorRef) -> Option<IterView> {
        if it_ref < self.it_entries@.len() {
            match self.it_entries@[it_ref as int] {
                IteratorEntry::Single(_, io) => self.single_iterator(opt, it_ref, io),
                IteratorEntry::Range(_, ir, from, to) => self.range_iterator(opt, ir, from, to),
            }
        } else {
            None
        }
    }
}

/// The place of the first brute-force entry for `exp` at or after `from`.
pub open spec fn knn_entry_from(es: Seq<KnnEntryView>, exp: Expression, from: int) -> Option<int>
    decreases es.len() - from,
{
    if from < 0 || from >= es.len() {
        None
    } else if es[from].exp == exp {
        Some(from)
    } else {
        knn_entry_from(es, exp, from + 1)
    }
}

/// The brute-force entries after the record `thg`, whose vector is `v`, was
/// seen for the expression `exp` in the first pass: the first entry of the
/// expression was offered the record at its distance; or the failure of
/// measuring that distance. Without an entry for the expression nothing
/// changes.
pub open spec fn knn_collect(
    es: Seq<KnnEntryView>,
    exp: Expression,
    thg: Thing,
    v: Seq<i32>,
) -> Result<Seq<KnnEntryView>, Error> {
    match knn_entry_from(es, exp, 0) {
        None => Ok(es),
        Some(i) => match es[i].d.distance(v, es[i].obj) {
            Err(e) => Err(e),
            Ok(dist) => Ok(
                es.update(
                    i,
                    KnnEntryView { list: offer(es[i].list, es[i].capacity, (dist, thg)), ..es[i] },
                ),
            ),
        },
    }
}

/// What the lists of the brute-force entries are drained into.
pub open spec fn knn_results(es: Seq<KnnEntryView>) -> Seq<(Expression, Seq<Thing>)> {
    Seq::new(es.len(), |i: int| (es[i].exp, things_of(es[i].list)))
}

/// Whether a record that is the document `doc` matches a query for which
/// `tds` was found: the record is a document, the query has a term, every
/// term was found, and the document is among the documents of each.
pub open spec fn doc_matches(tds: Seq<Option<(TermId, Seq<DocId>)>>, doc: Option<DocId>) -> bool {
    match doc {
        Some(d) => tds.len() > 0 && in_all(tds, d),
        None => false,
    }
}

/// Whether a value with the terms `value` matches a query with the terms
/// `query`: the query has a term, each of its words is known to the
/// dictionary, and each of its terms is a term of the value.
pub open spec fn value_matches(query: Seq<Option<TermId>>, value: Seq<Option<TermId>>) -> bool {
    &&& exists|t: TermId| query.contains(Some(t))
    &&& !query.contains(None::<TermId>)
    &&& forall|t: TermId| query.contains(Some(t)) ==> value.contains(Some(t))
}

/// The text of a value: the bytes of a string, and nothing for a value that
/// is no text.
pub open spec fn value_text(v: Value) -> Seq<u8> {
    match v {
        Value::Strand(s) => vstd::utf8::encode_utf8(s@),
        Value::Bytes(b) => b@,
        _ => Seq::empty(),
    }
}

/// The bytes of the text of a value.
fn value_bytes(v: &Value) -> (r: Vec<u8>)
    ensures
        r@ == value_text(*v),
{
    let mut out: Vec<u8> = Vec::new();
    match v {
        Value::Strand(s) => {
            let src = s.as_str().as_bytes();
            let mut i: usize = 0;
            while i < src.len()
                invariant
                    i <= src.len(),
                    out@ == src@.subrange(0, i as int),
                decreases src.len() - i,
            {
                out.push(src[i]);
                assert(out@ =~= src@.subrange(0, i + 1));
                i += 1;
            }
            assert(src@.subrange(0, i as int) =~= src@);
        },
        Value::Bytes(b) => {
            let mut i: usize = 0;
            while i < b.len()
                invariant
                    i <= b.len(),
                    out@ == b@.subrange(0, i as int),
                decreases b.len() - i,
            {
                out.push(b[i]);
                assert(out@ =~= b@.subrange(0, i + 1));
                i += 1;
            }
            assert(b@.subrange(0, i as int) =~= b@);
        },
        _ => {},
    }
    out
}

/// Decides whether `exp` is among `es`.
fn has_expression(es: &Vec<Expression>, exp: &Expression) -> (r: bool)
    ensures
        r == es@.contains(*exp),
{
    let mut i: usize = 0;
    while i < es.len()
        invariant
            i <= es.len(),
            forall|j: int| 0 <= j < i ==> es@[j] != *exp,
        decreases es.len() - i,
    {
        if es[i].0 == exp.0 {
            return true;
        }
        i += 1;
    }
    false
}

/// The executor as the scan uses it.
#[derive(Debug)]
pub struct QueryExecutor(pub InnerQueryExecutor);

impl From<InnerQueryExecutor> for QueryExecutor {
    fn from(value: InnerQueryExecutor) -> (r: Self) {
        Self(value)
    }
}

impl vstd::std_specs::convert::FromSpecImpl<InnerQueryExecutor> for QueryExecutor {
    open spec fn obeys_from_spec() -> bool {
        true
    }

    open spec fn from_spec(value: InnerQueryExecutor) -> Self {
        QueryExecutor(value)
    }
}

impl QueryExecutor {
    /// Whether the executor was made for the table `tb`.
    pub fn is_table(&self, tb: u32) -> (r: bool)
        ensures
            r == (self.0.table == tb),
    {
        self.0.table == tb
    }

    /// Whether the plan has a brute-force search.
    pub fn has_bruteforce_knn(&self) -> (r: bool)
        ensures
            r == (self.0.knn_bruteforce_entries@.len() > 0),
    {
        !self.0.knn_bruteforce_entries.is_empty()
    }

    /// Returns `true` if the expression is matching the current iterator.
    pub fn is_iterator_expression(&self, ir: IteratorRef, exp: &Expression) -> (r: bool)
        ensures
            r == (ir < self.0.it_entries@.len() && self.0.it_entries@[ir as int].is_for(*exp)),
    {
        if (ir as usize) < self.0.it_entries.len() {
            match &self.0.it_entries[ir as usize] {
                IteratorEntry::Single(e, _) => exp.0 == e.0,
                IteratorEntry::Range(es, _, _, _) => has_expression(es, exp),
            }
        } else {
            false
        }
    }

    /// Describes the entry `itr`, or nothing if there is no such entry.
    pub fn explain(&self, itr: IteratorRef) -> (r: Option<Explanation>)
        ensures
            r is Some <==> itr < self.0.it_entries@.len(),
            r is Some ==> match self.0.it_entries@[itr as int] {
                IteratorEntry::Single(_, io) => r->Some_0.index_is(self.0.index_definitions@, io.ir)
                    && r->Some_0.detail == crate::plan::ExplainDetail::Operator(
                    crate::plan::operator_of(io.op),
                ),
                IteratorEntry::Range(_, ir, from, to) => r->Some_0.index_is(self.0.index_definitions@, ir)
                    && r->Some_0.detail == (crate::plan::ExplainDetail::Range { from, to }),
            },
    {
        if (itr as usize) < self.0.it_entries.len() {
            Some(self.0.it_entries[itr as usize].explain(&self.0.index_definitions))
        } else {
            None
        }
    }

    /// The definition that `ir` refers to.
    fn get_index_def(&self, ir: IndexRef) -> (r: Option<&DefineIndexStatement>)
        ensures
            match r {
                Some(ix) => self.0.index_def(ir) == Some(*ix),
                None => self.0.index_def(ir) is None,
            },
    {
        if (ir as usize) < self.0.index_definitions.len() {
            Some(&self.0.index_definitions[ir as usize])
        } else {
            None
        }
    }

    /// The expression of the single option that the entry `it_ref` was made of.
    fn get_single_expression(&self, it_ref: IteratorRef) -> (r: Option<Expression>)
        ensures
            r == self.0.single_expression(it_ref),
    {
        if (it_ref as usize) < self.0.it_entries.len() {
            match &self.0.it_entries[it_ref as usize] {
                IteratorEntry::Single(exp, _) => Some(*exp),
                _ => None,
            }
        } else {
            None
        }
    }

    /// Makes the iterator of the entry `it_ref`. Where the operator does not
    /// go with the index there is none, and the caller scans the table.
    pub fn new_iterator(&self, opt: &Options, it_ref: IteratorRef) -> (r: Option<ThingIterator>)
        requires
            self.0.wf(),
        ensures
            iter_view(r) == self.0.iterator(*opt, it_ref),
            r is Some ==> iterator_wf(r->Some_0),
    {
        if (it_ref as usize) < self.0.it_entries.len() {
            match &self.0.it_entries[it_ref as usize] {
                IteratorEntry::Single(_, io) => self.new_single_iterator(opt, it_ref, io),
                IteratorEntry::Range(_, ir, from, to) => self.new_range_iterator(opt, *ir, from, to),
            }
        } else {
            None
        }
    }

    fn new_single_iterator(
        &self,
        opt: &Options,
        it_ref: IteratorRef,
        io: &IndexOption,
    ) -> (r: Option<ThingIterator>)
        requires
            self.0.wf(),
        ensures
            iter_view(r) == self.0.single_iterator(*opt, it_ref, *io),
            r is Some ==> iterator_wf(r->Some_0),
        decreases *io, 1nat,
    {
        if let Some(ix) = self.get_index_def(io.ix_ref()) {
            match ix.index {
                Index::Idx => self.new_index_iterator(opt, it_ref, ix, io),
                Index::Uniq => self.new_unique_index_iterator(opt, it_ref, ix, io),
                Index::Search => self.new_search_index_iterator(it_ref, io),
                Index::MTree => self.new_mtree_index_knn_iterator(it_ref),
                Index::Hnsw => self.new_hnsw_index_ann_iterator(it_ref),
            }
        } else {
            None
        }
    }

    fn new_index_iterator(
        &self,
        opt: &Options,
        it_ref: IteratorRef,
        ix: &DefineIndexStatement,
        io: &IndexOption,
    ) -> (r: Option<ThingIterator>)
        requires
            self.0.wf(),
            self.0.index_def(io.ir) == Some(*ix),
            ix.index == Index::Idx,
        ensures
            iter_view(r) == self.0.single_iterator(*opt, it_ref, *io),
            r is Some ==> iterator_wf(r->Some_0),
        decreases *io, 0nat,
    {
        match io.op() {
            IndexOperator::Equality(value) | IndexOperator::Exactness(value) => {
                Some(
                    ThingIterator::IndexEqual(
                        IndexEqualThingIterator::new(opt.ns(), opt.db(), ix.what, ix.id, *value),
                    ),
                )
            },
            IndexOperator::Union(value) => Some(
                ThingIterator::IndexUnion(
                    IndexUnionThingIterator::new(opt.ns(), opt.db(), ix.what, ix.id, value),
                ),
            ),
            IndexOperator::Join(ios) => {
                let iterators = self.build_iterators(opt, it_ref, ios);
                let index_join = Box::new(
                    IndexJoinThingIterator::new(opt.ns(), opt.db(), ix.what, ix.id, iterators),
                );
                Some(ThingIterator::IndexJoin(index_join))
            },
            _ => None,
        }
    }

    fn new_range_iterator(
        &self,
        opt: &Options,
        ir: IndexRef,
        from: &RangeValue,
        to: &RangeValue,
    ) -> (r: Option<ThingIterator>)
        ensures
            iter_view(r) == self.0.range_iterator(*opt, ir, *from, *to),
            r is Some ==> iterator_wf(r->Some_0),
    {
        if let Some(ix) = self.get_index_def(ir) {
            match ix.index {
                Index::Idx => {
                    return Some(
                        ThingIterator::IndexRange(
                            IndexRangeThingIterator::new(opt.ns(), opt.db(), ix.what, ix.id, from, to),
                        ),
                    )
                },
                Index::Uniq => {
                    return Some(
                        ThingIterator::UniqueRange(
                            UniqueRangeThingIterator::new(opt.ns(), opt.db(), ix.what, ix.id, from, to),
                        ),
                    )
                },
                _ => {},
            }
        }
        None
    }

    fn new_unique_index_iterator(
        &self,
        opt: &Options,
        it_ref: IteratorRef,
        ix: &DefineIndexStatement,
        io: &IndexOption,
    ) -> (r: Option<ThingIterator>)
        requires
            self.0.wf(),
            self.0.index_def(io.ir) == Some(*ix),
            ix.index == Index::Uniq,
        ensures
            iter_view(r) == self.0.single_iterator(*opt, it_ref, *io),
            r is Some ==> iterator_wf(r->Some_0),
        decreases *io, 0nat,
    {
        match io.op() {
            IndexOperator::Equality(value) | IndexOperator::Exactness(value) => Some(
                ThingIterator::UniqueEqual(
                    UniqueEqualThingIterator::new(opt.ns(), opt.db(), ix.what, ix.id, *value),
                ),
            ),
            IndexOperator::Union(value) => Some(
                ThingIterator::UniqueUnion(
                    UniqueUnionThingIterator::new(opt.ns(), opt.db(), ix.what, ix.id, value),
                ),
            ),
            IndexOperator::Join(ios) => {
                let iterators = self.build_iterators(opt, it_ref, ios);
                let unique_join = Box::new(
                    UniqueJoinThingIterator::new(opt.ns(), opt.db(), ix.what, ix.id, iterators),
                );
                Some(ThingIterator::UniqueJoin(unique_join))
            },
            _ => None,
        }
    }

    fn new_search_index_iterator(
        &self,
        it_ref: IteratorRef,
        io: &IndexOption,
    ) -> (r: Option<ThingIterator>)
        requires
            self.0.wf(),
        ensures
            iter_view(r) == self.0.search_iterator(it_ref, *io),
            r is Some ==> iterator_wf(r->Some_0),
    {
        if let Some(exp) = self.get_single_expression(it_ref) {
            if let IndexOperator::Matches(_, _) = io.op() {
                if let Some(fti) = self.0.stores.ft.get(&io.ix_ref()) {
                    if let Some(n) = self.0.exp_entries.get(&exp.0) {
                        assert(self.0.attached().exp_entries.contains_key(exp.0));
                        let fte = &self.0.ft_entries[*n];
                        let it = MatchesThingIterator::new(fti, &fte.terms_docs);
                        return Some(ThingIterator::Matches(it));
                    }
                }
            }
        }
        None
    }

    fn new_mtree_index_knn_iterator(&self, it_ref: IteratorRef) -> (r: Option<ThingIterator>)
        requires
            self.0.wf(),
        ensures
            iter_view(r) == self.0.mtree_iterator(it_ref),
            r is Some ==> iterator_wf(r->Some_0),
    {
        if let Some(exp) = self.get_single_expression(it_ref) {
            if let Some(n) = self.0.mt_entries.get(&exp.0) {
                assert(self.0.attached().mt_entries.contains_key(exp.0));
                let mte = &self.0.mt_list[*n];
                assert(self.0.attached().mt_list[*n as int] == mte@);
                if let Some(mt) = self.0.stores.mtree.get(&mte.ir) {
                    let mut docs: Vec<DocId> = Vec::new();
                    let mut i: usize = 0;
                    while i < mte.res.len()
                        invariant
                            i <= mte.res.len(),
                            docs@ == found_docs(mte.res@).subrange(0, i as int),
                        decreases mte.res.len() - i,
                    {
                        docs.push(mte.res[i].0);
                        assert(docs@ =~= found_docs(mte.res@).subrange(0, i + 1));
                        i += 1;
                    }
                    assert(docs@ =~= found_docs(mte.res@));
                    let it = DocIdsIterator::new(&mt.doc_ids, &docs);
                    return Some(ThingIterator::Knn(it));
                }
            }
        }
        None
    }

    fn new_hnsw_index_ann_iterator(&self, it_ref: IteratorRef) -> (r: Option<ThingIterator>)
        requires
            self.0.wf(),
        ensures
            iter_view(r) == self.0.hnsw_iterator(it_ref),
            r is Some ==> iterator_wf(r->Some_0),
    {
        if let Some(exp) = self.get_single_expression(it_ref) {
            if let Some(n) = self.0.hnsw_entries.get(&exp.0) {
                assert(self.0.attached().hnsw_entries.contains_key(exp.0));
                let he = &self.0.hnsw_list[*n];
                let mut things: Vec<Thing> = Vec::new();
                let mut i: usize = 0;
                while i < he.res.len()
                    invariant
                        i <= he.res.len(),
                        things@ == found_things(he.res@).subrange(0, i as int),
                    decreases he.res.len() - i,
                {
                    things.push(he.res[i].0);
                    assert(things@ =~= found_things(he.res@).subrange(0, i + 1));
                    i += 1;
                }
                assert(things@ =~= found_things(he.res@));
                let it = ThingsIterator::new(things);
                return Some(ThingIterator::Things(it));
            }
        }
        None
    }

    fn build_iterators(
        &self,
        opt: &Options,
        it_ref: IteratorRef,
        ios: &Vec<IndexOption>,
    ) -> (r: Vec<ThingIterator>)
        requires
            self.0.wf(),
        ensures
            views_of(r) == self.0.iterators_upto(*opt, it_ref, *ios, ios.len() as nat),
            iterators_wf(r, r.len() as nat),
        decreases *ios, ios.len(),
    {
        let mut iterators: Vec<ThingIterator> = Vec::with_capacity(ios.len());
        let mut i: usize = 0;
        while i < ios.len()
            invariant
                i <= ios.len(),
                self.0.wf(),
                views_of(iterators) == self.0.iterators_upto(*opt, it_ref, *ios, i as nat),
                iterators_wf(iterators, iterators.len() as nat),
            decreases ios.len() - i,
        {
            let ghost before = iterators;
            if let Some(it) = self.new_single_iterator(opt, it_ref, &ios[i]) {
                iterators.push(it);
                proof {
                    lemma_views_upto(before, iterators, before.len() as nat);
                }
            }
            i += 1;
        }
        iterators
    }

    /// Everything but the lists of the brute-force searches is as it is in `other`.
    pub open spec fn same_plan(&self, other: &QueryExecutor) -> bool {
        &&& self.0.table == other.0.table
        &&& self.0.stores == other.0.stores
        &&& self.0.ft_entries == other.0.ft_entries
        &&& self.0.mr_entries == other.0.mr_entries
        &&& self.0.exp_entries == other.0.exp_entries
        &&& self.0.it_entries == other.0.it_entries
        &&& self.0.index_definitions == other.0.index_definitions
        &&& self.0.mt_list == other.0.mt_list
        &&& self.0.mt_entries == other.0.mt_entries
        &&& self.0.hnsw_list == other.0.hnsw_list
        &&& self.0.hnsw_entries == other.0.hnsw_entries
    }

    /// Answers the nearest-neighbour predicate `exp` for the record `thg`.
    ///
    /// In the second pass the answer is whether the record is among the
    /// results of the expression; without results it is no. In any other
    /// stage the record is measured and offered to the list of the
    /// expression, and the answer is yes, so that the record stays a
    /// candidate.
    pub fn knn(
        &mut self,
        stage: Option<&IterationStage>,
        thg: &Thing,
        doc: Option<&CursorDoc>,
        exp: &Expression,
    ) -> (r: Result<Value, Error>)
        requires
            old(self).0.wf(),
        ensures
            final(self).0.wf(),
            final(self).same_plan(old(self)),
            match stage {
                Some(IterationStage::Iterate(e)) => *final(self) == *old(self) && r == Ok::<Value, Error>(
                    Value::Bool(
                        match e {
                            Some(results) => result_contains(results@, *exp, *thg),
                            None => false,
                        },
                    ),
                ),
                _ => {
                    let es = knn_entries_view(old(self).0.knn_bruteforce_entries@);
                    match knn_entry_from(es, *exp, 0) {
                        None => *final(self) == *old(self) && r == Ok::<Value, Error>(Value::Bool(true)),
                        Some(i) => match knn_collect(es, *exp, *thg, vector_of(doc, es[i].id)) {
                            Err(e) => *final(self) == *old(self) && r == Err::<Value, Error>(e),
                            Ok(after) => knn_entries_view(final(self).0.knn_bruteforce_entries@) == after && r
                                == Ok::<Value, Error>(Value::Bool(true)),
                        },
                    }
                },
            },
    {
        if let Some(IterationStage::Iterate(e)) = stage {
            if let Some(results) = e {
                return Ok(Value::Bool(results.contains(exp, thg)));
            }
            Ok(Value::Bool(false))
        } else {
            let ghost es = knn_entries_view(self.0.knn_bruteforce_entries@);
            let mut i: usize = 0;
            while i < self.0.knn_bruteforce_entries.len()
                invariant
                    i <= self.0.knn_bruteforce_entries.len(),
                    *self == *old(self),
                    self.0.wf(),
                    !(stage matches Some(IterationStage::Iterate(_))),
                    es == knn_entries_view(self.0.knn_bruteforce_entries@),
                    knn_entry_from(es, *exp, 0) == knn_entry_from(es, *exp, i as int),
                decreases self.0.knn_bruteforce_entries.len() - i,
            {
                if self.0.knn_bruteforce_entries[i].0.0 == exp.0 {
                    let v = self.0.knn_bruteforce_entries[i].1.1.compute(doc);
                    let dist = match self.0.knn_bruteforce_entries[i].1.3.compute(
                        &v,
                        &self.0.knn_bruteforce_entries[i].1.2,
                    ) {
                        Ok(dist) => dist,
                        Err(e) => {
                            return Err(e);
                        },
                    };
                    let mut entry = self.0.knn_bruteforce_entries.remove(i);
                    entry.1.0.add(dist, thg);
                    let ghost ev = knn_entry_view(entry);
                    self.0.knn_bruteforce_entries.insert(i, entry);
                    proof {
                        assert(knn_entries_view(self.0.knn_bruteforce_entries@) =~= es.update(i as int, ev));
                        assert(self.0.attached() == old(self).0.attached());
                    }
                    return Ok(Value::Bool(true));
                }
                i += 1;
            }
            Ok(Value::Bool(true))
        }
    }

    /// Drains the list of every brute-force search into the results of the
    /// query: for each expression its records, nearest first.
    pub fn build_bruteforce_knn_result(&self) -> (r: KnnBruteForceResult)
        ensures
            r@ == knn_results(knn_entries_view(self.0.knn_bruteforce_entries@)),
    {
        let mut result = KnnBruteForceResult::with_capacity(self.0.knn_bruteforce_entries.len());
        let ghost want = knn_results(knn_entries_view(self.0.knn_bruteforce_entries@));
        let mut i: usize = 0;
        while i < self.0.knn_bruteforce_entries.len()
            invariant
                i <= self.0.knn_bruteforce_entries.len(),
                want == knn_results(knn_entries_view(self.0.knn_bruteforce_entries@)),
                result@ == want.subrange(0, i as int),
            decreases self.0.knn_bruteforce_entries.len() - i,
        {
            let e = &self.0.knn_bruteforce_entries[i];
            result.insert(e.0, e.1.0.build());
            assert(result@ =~= want.subrange(0, i + 1));
            i += 1;
        }
        assert(want.subrange(0, i as int) =~= want);
        result
    }

    /// The match reference that a value names: a number, cut to the width of
    /// a reference.
    pub fn get_match_ref(match_ref: &Value) -> (r: Option<MatchRef>)
        ensures
            r == match *match_ref {
                Value::Number(n) => Some(n as u8),
                _ => None,
            },
    {
        if let Value::Number(n) = match_ref {
            let m = #[verifier::truncate] (*n as u8);
            Some(m)
        } else {
            None
        }
    }

    /// The full-text entry of the match reference `mr`.
    pub open spec fn ft_entry_of(&self, mr: Option<MatchRef>) -> Option<FtEntry> {
        match mr {
            Some(m) => if self.0.mr_entries@.contains_key(m) {
                Some(self.0.ft_entries@[self.0.mr_entries@[m] as int])
            } else {
                None
            },
            None => None,
        }
    }

    fn get_ft_entry(&self, match_ref: &Value) -> (r: Option<&FtEntry>)
        requires
            self.0.wf(),
        ensures
            match r {
                Some(e) => self.ft_entry_of(Self::match_ref_of(*match_ref)) == Some(*e),
                None => self.ft_entry_of(Self::match_ref_of(*match_ref)) is None,
            },
    {
        if let Some(mr) = Self::get_match_ref(match_ref) {
            if let Some(n) = self.0.mr_entries.get(&mr) {
                assert(self.0.attached().mr_entries.contains_key(mr));
                Some(&self.0.ft_entries[*n])
            } else {
                None
            }
        } else {
            None
        }
    }

    /// The match reference that a value names.
    pub open spec fn match_ref_of(v: Value) -> Option<MatchRef> {
        match v {
            Value::Number(n) => Some(n as u8),
            _ => None,
        }
    }

    fn get_ft_entry_and_index(&self, match_ref: &Value) -> (r: Option<(&FtEntry, &FtIndex)>)
        requires
            self.0.wf(),
        ensures
            match r {
                Some((e, ft)) => self.ft_entry_of(Self::match_ref_of(*match_ref)) == Some(*e)
                    && self.0.stores.ft@.contains_key(e@.ir) && self.0.stores.ft@[e@.ir] == *ft,
                None => self.ft_entry_of(Self::match_ref_of(*match_ref)) is None,
            },
    {
        if let Some(e) = self.get_ft_entry(match_ref) {
            proof {
                let n = self.0.mr_entries@[Self::match_ref_of(*match_ref)->Some_0];
                assert(self.0.attached().mr_entries.contains_key(Self::match_ref_of(*match_ref)->Some_0));
                assert(self.0.attached().ft_entries[n as int] == e@);
            }
            if let Some(ft) = self.0.stores.ft.get(&e.ir) {
                return Some((e, ft));
            }
        }
        None
    }

    /// Whether the record `thg`, compared on the two sides `l` and `r`,
    /// matches the full-text predicate `exp`.
    ///
    /// Where the index of the predicate is defined over the table of this
    /// executor, the record matches if it is a document of the index and
    /// every term of the query was found in it. Otherwise the value on the
    /// side where the indexed field does not stand is split into terms, and
    /// the record matches if the query's terms are among them. An expression
    /// without a full-text entry is an error.
    pub fn matches(
        &self,
        thg: &Thing,
        exp: &Expression,
        l: Value,
        r: Value,
    ) -> (res: Result<bool, Error>)
        requires
            self.0.wf(),
        ensures
            !self.0.exp_entries@.contains_key(exp.0) ==> res == Err::<bool, Error>(
                Error::NoIndexFoundForMatch { value: exp.0 },
            ),
            self.0.exp_entries@.contains_key(exp.0) ==> {
                let e = self.0.ft_entries@[self.0.exp_entries@[exp.0] as int]@;
                let ft = self.0.stores.ft@[e.ir];
                res == Ok::<bool, Error>(
                    if self.by_doc_id(e.ir) {
                        doc_matches(e.terms_docs, first_of(ft.doc_ids@, *thg))
                    } else {
                        value_matches(
                            e.terms_list,
                            terms_list_of(
                                dict_view(ft.terms@),
                                value_text(
                                    match e.id_pos {
                                        IdiomPosition::Left => r,
                                        IdiomPosition::Right => l,
                                    },
                                ),
                            ),
                        )
                    },
                )
            },
    {
        if let Some(n) = self.0.exp_entries.get(&exp.0) {
            assert(self.0.attached().exp_entries.contains_key(exp.0));
            let ft = &self.0.ft_entries[*n];
            assert(self.0.attached().ft_entries[*n as int] == ft@);
            if let Some(ix_def) = self.get_index_def(ft.ir) {
                if self.0.table == ix_def.what {
                    return Ok(self.matches_with_doc_id(thg, ft));
                }
            }
            return Ok(self.matches_with_value(ft, l, r));
        }
        // If no previous case were successful, we end up with a user error
        Err(Error::NoIndexFoundForMatch { value: exp.0 })
    }

    /// Whether the index `ir` is defined over the table of this executor, so
    /// that its documents are the records of the scan.
    pub open spec fn by_doc_id(&self, ir: IndexRef) -> bool {
        ir < self.0.index_definitions@.len() && self.0.index_definitions@[ir as int].what == self.0.table
    }

    fn matches_with_doc_id(&self, thg: &Thing, ft: &FtEntry) -> (r: bool)
        requires
            self.0.stores.ft@.contains_key(ft@.ir),
        ensures
            r == doc_matches(ft@.terms_docs, first_of(self.0.stores.ft@[ft@.ir].doc_ids@, *thg)),
    {
        let fti = match self.0.stores.ft.get(&ft.ir) {
            Some(fti) => fti,
            None => {
                return false;
            },
        };
        if let Some(doc_id) = fti.doc_ids.get_doc_id(thg) {
            let term_goals = ft.terms_docs.len();
            // If there is no terms, it can't be a match
            if term_goals == 0 {
                return false;
            }
            return doc_in_all(&ft.terms_docs, doc_id);
        }
        false
    }

    fn matches_with_value(&self, ft: &FtEntry, l: Value, r: Value) -> (res: bool)
        requires
            self.0.stores.ft@.contains_key(ft@.ir),
            ft.wf(),
        ensures
            res == value_matches(
                ft@.terms_list,
                terms_list_of(
                    dict_view(self.0.stores.ft@[ft@.ir].terms@),
                    value_text(
                        match ft@.id_pos {
                            IdiomPosition::Left => r,
                            IdiomPosition::Right => l,
                        },
                    ),
                ),
            ),
    {
        let fti = match self.0.stores.ft.get(&ft.ir) {
            Some(fti) => fti,
            None => {
                return false;
            },
        };
        // If the query terms contains terms that are unknown in the index
        // of if there is not terms in the query
        // we are sure that it does not match any document
        let matchable = ft.query_terms_set.is_matchable();
        proof {
            let q = ft@.terms_list;
            if exists|t: TermId| q.contains(Some(t)) {
                let t = choose|t: TermId| q.contains(Some(t));
                assert(ft.query_terms_set.terms().contains(t));
            }
            if ft.query_terms_set.terms() != Set::<TermId>::empty() {
                assert(!(ft.query_terms_set.terms() =~= Set::<TermId>::empty()));
                let t = choose|t: TermId| ft.query_terms_set.terms().contains(t);
                assert(q.contains(Some(t)));
            }
        }
        if !matchable {
            return false;
        }
        let v = match ft.id_pos {
            IdiomPosition::Left => r,
            IdiomPosition::Right => l,
        };
        let text = value_bytes(&v);
        // Extract the terms set from the record
        let (list, t) = fti.extract_querying_terms(text.as_slice());
        let res = ft.query_terms_set.is_subset(&t);
        proof {
            let q = ft@.terms_list;
            assert(text@ == value_text(v));
            if res {
                assert forall|x: TermId| q.contains(Some(x)) implies list@.contains(Some(x)) by {
                    assert(ft.query_terms_set.terms().contains(x));
                    assert(t.terms().contains(x));
                }
            } else {
                let x = choose|x: TermId| ft.query_terms_set.terms().contains(x) && !t.terms().contains(x);
                assert(q.contains(Some(x)) && !list@.contains(Some(x)));
            }
        }
        res
    }

    /// The full-text entry of the match reference that `match_ref` names,
    /// with the session of its index.
    pub open spec fn entry_and_index(&self, match_ref: Value) -> Option<(FtEntryView, FtIndex)> {
        match self.ft_entry_of(Self::match_ref_of(match_ref)) {
            Some(e) => Some((e@, self.0.stores.ft@[e@.ir])),
            None => None,
        }
    }

    /// The text `doc` with `prefix` and `suffix` around the places where the
    /// terms of the match `match_ref` stand in the record `thg`. Without an
    /// entry for the reference, and for a record that is no document of the
    /// index, there is no value. This session holds the places of whole
    /// terms only, so `partial` changes nothing.
    pub fn highlight(
        &self,
        thg: &Thing,
        prefix: Value,
        suffix: Value,
        match_ref: Value,
        partial: bool,
        doc: &Value,
    ) -> (r: Value)
        requires
            self.0.wf(),
        ensures
            match self.entry_and_index(match_ref) {
                Some((e, ft)) => match first_of(ft.doc_ids@, *thg) {
                    Some(d) => r matches Value::Bytes(b) && b@ == highlighted(
                        value_text(*doc),
                        doc_offsets(ft.offsets@, d, e.terms_list),
                        value_text(prefix),
                        value_text(suffix),
                        value_text(*doc).len(),
                    ),
                    None => r is Null,
                },
                None => r is Null,
            },
    {
        let _ = partial;
        if let Some((e, ft)) = self.get_ft_entry_and_index(&match_ref) {
            let text = value_bytes(doc);
            let p = value_bytes(&prefix);
            let s = value_bytes(&suffix);
            return match ft.highlight(thg, &e.query_terms_list, p.as_slice(), s.as_slice(), text.as_slice()) {
                Some(b) => Value::Bytes(b),
                None => Value::Null,
            };
        }
        Value::Null
    }

    /// The places where the terms of the match `match_ref` stand in the
    /// record `thg`. Without an entry for the reference, and for a record
    /// that is no document of the index, there is no value. This session
    /// holds the places of whole terms only, so `partial` changes nothing.
    pub fn offsets(&self, thg: &Thing, match_ref: Value, partial: bool) -> (r: Value)
        requires
            self.0.wf(),
        ensures
            match self.entry_and_index(match_ref) {
                Some((e, ft)) => match first_of(ft.doc_ids@, *thg) {
                    Some(d) => r matches Value::Offsets(o) && o@ == doc_offsets(ft.offsets@, d, e.terms_list),
                    None => r is Null,
                },
                None => r is Null,
            },
    {
        let _ = partial;
        if let Some((e, ft)) = self.get_ft_entry_and_index(&match_ref) {
            return match ft.extract_offsets(thg, &e.query_terms_list) {
                Some(o) => Value::Offsets(o),
                None => Value::Null,
            };
        }
        Value::Null
    }

    /// The document whose rank is asked for: the one given, or else the one
    /// that the record `rid` is.
    pub open spec fn scored_doc(ft: FtIndex, rid: Thing, doc_id: Option<DocId>) -> Option<DocId> {
        match doc_id {
            Some(d) => Some(d),
            None => first_of(ft.doc_ids@, rid),
        }
    }

    /// What the rank of the record `rid` for the match `match_ref` is
    /// computed from. There is nothing to rank without an entry for the
    /// reference, where the index does not rank, for a record that is no
    /// document, and for a document that holds none of the query's terms.
    pub fn score(
        &self,
        match_ref: &Value,
        rid: &Thing,
        doc_id: Option<DocId>,
    ) -> (r: Option<ScoreInput>)
        requires
            self.0.wf(),
        ensures
            match self.entry_and_index(*match_ref) {
                Some((e, ft)) => match Self::scored_doc(ft, *rid, doc_id) {
                    Some(d) => if e.scoring && score_terms(ft.postings@, e.terms_docs, d).len() > 0 {
                        &&& r is Some
                        &&& r->Some_0.terms@ == score_terms(ft.postings@, e.terms_docs, d)
                        &&& r->Some_0.doc_length == length_of(ft.doc_lengths@, d)
                        &&& r->Some_0.doc_count == ft.doc_ids@.len()
                        &&& r->Some_0.total_docs_lengths == total_length(ft.doc_lengths@)
                    } else {
                        r is None
                    },
                    None => r is None,
                },
                None => r is None,
            },
    {
        if let Some((e, ft)) = self.get_ft_entry_and_index(match_ref) {
            if e.scoring {
                let mut doc_id = doc_id;
                if doc_id.is_none() {
                    doc_id = ft.doc_ids.get_doc_id(rid);
                }
                if let Some(doc_id) = doc_id {
                    return ft.score_input(&e.terms_docs, doc_id);
                }
            }
        }
        None
    }
}

} // verus!
