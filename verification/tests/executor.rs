use std::collections::HashMap;
use surreal_executor::err::Error;
use surreal_executor::executor::{
    IndexStores, InnerQueryExecutor, KnnBruteForceExpression, QueryExecutor,
};
use surreal_executor::ft::{find_words, DocIds, FtIndex, ScoreInput};
use surreal_executor::idx::IndexKeyBase;
use surreal_executor::iterators::ThingIterator;
use surreal_executor::knn::{Distance, IterationStage};
use surreal_executor::plan::{
    DefineIndexStatement, ExplainDetail, IdiomPosition, Index, IndexOperator, IndexOption, IndexesMap,
    IteratorEntry, Operator, Options, RangeValue,
};
use surreal_executor::sql::{CursorDoc, Expression, Idiom, Thing, Value};
use surreal_executor::trees::{HnswIndex, MTreeIndex};

const TB: u32 = 1;

fn t(id: u64) -> Thing {
    Thing { tb: TB, id }
}

fn def(name: &str, id: u32, what: u32, index: Index) -> DefineIndexStatement {
    DefineIndexStatement { name: name.to_string(), id, what, index }
}

fn option(ir: u16, op: IndexOperator) -> IndexOption {
    IndexOption::new(ir, Idiom(0), IdiomPosition::Left, op)
}

fn no_stores() -> IndexStores {
    IndexStores { ft: HashMap::new(), mtree: HashMap::new(), hnsw: HashMap::new() }
}

fn text_index(texts: &[&str]) -> FtIndex {
    let mut terms: Vec<Vec<u8>> = vec![];
    let mut postings: Vec<Vec<(u64, u64)>> = vec![];
    let mut lengths = vec![];
    let mut offsets: Vec<(u64, u64, Vec<(u32, u32)>)> = vec![];
    for (d, text) in texts.iter().enumerate() {
        let d = d as u64;
        let bytes = text.as_bytes();
        let words = find_words(bytes);
        lengths.push(words.len() as u64);
        for (s, e) in words {
            let w = bytes[s..e].to_vec();
            let id = match terms.iter().position(|x| *x == w) {
                Some(id) => id,
                None => {
                    terms.push(w);
                    postings.push(vec![]);
                    terms.len() - 1
                }
            };
            match postings[id].iter_mut().find(|p| p.0 == d) {
                Some(p) => p.1 += 1,
                None => postings[id].push((d, 1)),
            }
            match offsets.iter_mut().find(|o| o.0 == d && o.1 == id as u64) {
                Some(o) => o.2.push((s as u32, e as u32)),
                None => offsets.push((d, id as u64, vec![(s as u32, e as u32)])),
            }
        }
    }
    let docs = DocIds::new((1..=texts.len() as u64).map(t).collect());
    FtIndex::new(docs, terms, postings, lengths, true, offsets)
}

fn text_executor(table: u32) -> QueryExecutor {
    let mut stores = no_stores();
    stores.ft.insert(0, text_index(&["the quick brown fox", "lazy dog", "quick dog"]));
    let im = IndexesMap {
        options: vec![(Expression(7), option(0, IndexOperator::Matches(b"quick dog".to_vec(), Some(1))))],
        definitions: vec![def("by_text", 20, TB, Index::Search)],
    };
    let mut inner = InnerQueryExecutor::new(table, im, stores, vec![], vec![]).unwrap();
    let ir = inner.add_iterator(IteratorEntry::Single(
        Expression(7),
        option(0, IndexOperator::Matches(b"quick dog".to_vec(), Some(1))),
    ));
    assert_eq!(ir, 0);
    QueryExecutor::from(inner)
}

fn drive(it: &mut ThingIterator, store: &[(Vec<u8>, Thing)], limit: u32) -> Vec<Thing> {
    let mut out = vec![];
    let mut steps = 0;
    while !it.is_done() {
        steps += 1;
        assert!(steps < 1000);
        let rows: Vec<(Vec<u8>, Thing)> = match it.range() {
            Some((beg, end)) => store
                .iter()
                .filter(|(k, _)| *k >= beg && *k < end)
                .take(limit as usize)
                .cloned()
                .collect(),
            None => vec![],
        };
        out.extend(it.next_batch(&rows, limit));
    }
    out
}

/// A rank computed from what the library hands out.
fn bm25(s: &ScoreInput) -> f64 {
    let k1 = 1.2;
    let b = 0.75;
    let avg = s.total_docs_lengths as f64 / s.doc_count as f64;
    s.terms
        .iter()
        .map(|(tf, df)| {
            let idf = (1.0 + (s.doc_count as f64 - *df as f64 + 0.5) / (*df as f64 + 0.5)).ln();
            let tf = *tf as f64;
            idf * tf * (k1 + 1.0) / (tf + k1 * (1.0 - b + b * s.doc_length as f64 / avg))
        })
        .sum()
}

#[test]
fn expression_of_a_search_is_made() {
    let e = KnnBruteForceExpression::new(2, Idiom(3), vec![0, 0], Distance::Euclidean);
    let inner =
        InnerQueryExecutor::new(TB, IndexesMap { options: vec![], definitions: vec![] }, no_stores(), vec![], vec![(Expression(1), e)])
            .unwrap();
    assert_eq!(inner.knn_bruteforce_entries.len(), 1);
    assert_eq!(inner.knn_bruteforce_entries[0].0, Expression(1));
    assert_eq!(inner.knn_bruteforce_entries[0].1 .0.knn(), 2);
    assert_eq!(inner.knn_bruteforce_entries[0].1 .0.len(), 0);
    assert_eq!(inner.knn_bruteforce_entries[0].1 .1, Idiom(3));
    assert_eq!(inner.knn_bruteforce_entries[0].1 .2, vec![0, 0]);
    assert_eq!(inner.knn_bruteforce_entries[0].1 .3, Distance::Euclidean);
}

#[test]
fn brute_force_search_collects_then_filters() {
    let e = Expression(1);
    let kbtes = vec![(e, KnnBruteForceExpression::new(2, Idiom(3), vec![0, 0], Distance::Euclidean))];
    let inner =
        InnerQueryExecutor::new(TB, IndexesMap { options: vec![], definitions: vec![] }, no_stores(), vec![e], kbtes)
            .unwrap();
    let mut exe = QueryExecutor::from(inner);
    assert!(exe.has_bruteforce_knn());
    let rows = [(t(1), vec![1, 0]), (t(2), vec![0, 2]), (t(3), vec![3, 4])];
    for (thg, v) in rows.iter() {
        let doc = CursorDoc { fields: vec![(Idiom(9), vec![7]), (Idiom(3), v.clone())] };
        let r = exe.knn(Some(&IterationStage::CollectKnn), thg, Some(&doc), &e).unwrap();
        assert!(matches!(r, Value::Bool(true)));
    }
    // An expression without a search of its own keeps every record
    let doc = CursorDoc { fields: vec![] };
    assert!(matches!(exe.knn(None, &t(9), Some(&doc), &Expression(2)), Ok(Value::Bool(true))));
    let results = exe.build_bruteforce_knn_result();
    assert_eq!(results.len(), 1);
    assert!(results.contains(&e, &t(1)));
    assert!(results.contains(&e, &t(2)));
    assert!(!results.contains(&e, &t(3)));
    assert_eq!(exe.0.knn_bruteforce_entries[0].1 .0.build(), vec![t(1), t(2)]);
    let stage = IterationStage::Iterate(Some(results));
    assert!(matches!(exe.knn(Some(&stage), &t(3), None, &e), Ok(Value::Bool(false))));
    assert!(matches!(exe.knn(Some(&stage), &t(1), None, &e), Ok(Value::Bool(true))));
    assert!(matches!(exe.knn(Some(&stage), &t(1), None, &Expression(2)), Ok(Value::Bool(false))));
    let stage = IterationStage::Iterate(None);
    assert!(matches!(exe.knn(Some(&stage), &t(1), None, &e), Ok(Value::Bool(false))));
}

#[test]
fn brute_force_search_needs_one_dimension() {
    let e = Expression(1);
    let kbtes = vec![(e, KnnBruteForceExpression::new(2, Idiom(3), vec![0, 0], Distance::Euclidean))];
    let inner =
        InnerQueryExecutor::new(TB, IndexesMap { options: vec![], definitions: vec![] }, no_stores(), vec![e], kbtes)
            .unwrap();
    let mut exe = QueryExecutor::from(inner);
    let doc = CursorDoc { fields: vec![(Idiom(3), vec![1, 2, 3])] };
    assert!(matches!(
        exe.knn(Some(&IterationStage::CollectKnn), &t(1), Some(&doc), &e),
        Err(Error::InvalidVectorDimension { current: 3, expected: 2 })
    ));
    assert!(matches!(
        exe.knn(Some(&IterationStage::CollectKnn), &t(1), None, &e),
        Err(Error::InvalidVectorDimension { current: 0, expected: 2 })
    ));
    assert_eq!(exe.0.knn_bruteforce_entries[0].1 .0.len(), 0);
}

#[test]
fn match_reference_used_twice_fails_the_plan() {
    let mut stores = no_stores();
    stores.ft.insert(0, text_index(&["quick dog"]));
    let im = IndexesMap {
        options: vec![
            (Expression(1), option(0, IndexOperator::Matches(b"quick".to_vec(), Some(1)))),
            (Expression(2), option(0, IndexOperator::Matches(b"dog".to_vec(), Some(1)))),
        ],
        definitions: vec![def("by_text", 20, TB, Index::Search)],
    };
    let r = InnerQueryExecutor::new(TB, im, stores, vec![], vec![]);
    assert!(matches!(r, Err(Error::DuplicatedMatchRef { mr: 1 })));
}

#[test]
fn match_references_that_differ_are_kept() {
    let mut stores = no_stores();
    stores.ft.insert(0, text_index(&["quick dog"]));
    let im = IndexesMap {
        options: vec![
            (Expression(1), option(0, IndexOperator::Matches(b"quick".to_vec(), Some(1)))),
            (Expression(2), option(0, IndexOperator::Matches(b"dog".to_vec(), Some(2)))),
            (Expression(3), option(0, IndexOperator::Matches(b"dog".to_vec(), None))),
            (Expression(4), option(5, IndexOperator::Matches(b"dog".to_vec(), Some(1)))),
            (Expression(5), option(0, IndexOperator::Equality(1))),
        ],
        definitions: vec![def("by_text", 20, TB, Index::Search)],
    };
    let x = InnerQueryExecutor::new(TB, im, stores, vec![], vec![]).unwrap();
    assert_eq!(x.ft_entries.len(), 3);
    assert_eq!(x.mr_entries.len(), 2);
    assert_eq!(x.exp_entries.len(), 3);
    assert_eq!(x.mr_entries[&2], 1);
    assert_eq!(x.exp_entries[&3], 2);
}

#[test]
fn matches_yields_the_records_with_every_term() {
    let exe = text_executor(TB);
    let mut it = exe.new_iterator(&Options::new(1, 2), 0).unwrap();
    assert!(matches!(it, ThingIterator::Matches(_)));
    assert_eq!(drive(&mut it, &[], 10), vec![t(3)]);
}

#[test]
fn matches_by_document() {
    let exe = text_executor(TB);
    let m = |id: u64| exe.matches(&t(id), &Expression(7), Value::Null, Value::Null).unwrap();
    assert!(!m(1));
    assert!(!m(2));
    assert!(m(3));
    assert!(!m(4));
}

#[test]
fn matches_by_value() {
    // The index is over another table than the one that is scanned
    let exe = text_executor(TB + 1);
    let m = |text: &str| {
        exe.matches(&t(1), &Expression(7), Value::Null, Value::Strand(text.to_string())).unwrap()
    };
    assert!(m("quick dog"));
    assert!(m("the dog is quick"));
    assert!(!m("quick"));
    assert!(!m("quick cat"));
    assert!(!m(""));
    // The value on the side of the indexed field is not looked at
    assert!(!exe.matches(&t(1), &Expression(7), Value::Strand("quick dog".to_string()), Value::Null).unwrap());
    assert!(exe.matches(&t(1), &Expression(7), Value::Null, Value::Bytes(b"dog quick".to_vec())).unwrap());
}

#[test]
fn matches_needs_an_entry() {
    let exe = text_executor(TB);
    assert!(matches!(
        exe.matches(&t(3), &Expression(8), Value::Null, Value::Null),
        Err(Error::NoIndexFoundForMatch { value: 8 })
    ));
}

#[test]
fn query_with_an_unknown_word_matches_nothing() {
    let mut stores = no_stores();
    stores.ft.insert(0, text_index(&["quick dog"]));
    let im = IndexesMap {
        options: vec![(Expression(1), option(0, IndexOperator::Matches(b"quick cat".to_vec(), None)))],
        definitions: vec![def("by_text", 20, TB, Index::Search)],
    };
    let mut inner = InnerQueryExecutor::new(TB, im, stores, vec![], vec![]).unwrap();
    inner.add_iterator(IteratorEntry::Single(
        Expression(1),
        option(0, IndexOperator::Matches(b"quick cat".to_vec(), None)),
    ));
    let exe = QueryExecutor::from(inner);
    assert!(!exe.matches(&t(1), &Expression(1), Value::Null, Value::Null).unwrap());
    let mut it = exe.new_iterator(&Options::new(1, 2), 0).unwrap();
    assert_eq!(drive(&mut it, &[], 10), vec![]);
}

#[test]
fn score_ranks_the_record_with_more_terms_higher() {
    let exe = text_executor(TB);
    let s3 = exe.score(&Value::Number(1), &t(3), None).unwrap();
    let s1 = exe.score(&Value::Number(1), &t(1), None).unwrap();
    assert_eq!(s3.terms, vec![(1, 2), (1, 2)]);
    assert_eq!(s3.doc_length, 2);
    assert_eq!(s1.terms, vec![(1, 2)]);
    assert_eq!(s1.doc_length, 4);
    assert_eq!(s1.doc_count, 3);
    assert_eq!(s1.total_docs_lengths, 8);
    assert!(bm25(&s3) > bm25(&s1));
    // A document given by its number is not looked up
    let s = exe.score(&Value::Number(1), &t(99), Some(2)).unwrap();
    assert_eq!(s.terms, vec![(1, 2), (1, 2)]);
    assert!(exe.score(&Value::Number(2), &t(3), None).is_none());
    assert!(exe.score(&Value::Null, &t(3), None).is_none());
    assert!(exe.score(&Value::Number(1), &t(99), None).is_none());
}

#[test]
fn rank_grows_with_the_frequency_of_a_term() {
    let mut last = 0.0;
    for tf in 1..50 {
        let s = ScoreInput { doc_length: 100, doc_count: 10, total_docs_lengths: 900, terms: vec![(tf, 3)] };
        let r = bm25(&s);
        assert!(r >= last);
        last = r;
    }
}

#[test]
fn highlight_and_offsets_mark_the_terms() {
    let exe = text_executor(TB);
    let h = exe.highlight(
        &t(3),
        Value::Strand("<em>".to_string()),
        Value::Strand("</em>".to_string()),
        Value::Number(1),
        false,
        &Value::Strand("quick dog".to_string()),
    );
    assert!(matches!(h, Value::Bytes(b) if b == b"<em>quick</em> <em>dog</em>".to_vec()));
    let o = exe.offsets(&t(1), Value::Number(1), false);
    assert!(matches!(o, Value::Offsets(o) if o == vec![(4, 9)]));
    assert!(matches!(exe.offsets(&t(9), Value::Number(1), false), Value::Null));
    assert!(matches!(exe.offsets(&t(1), Value::Number(3), false), Value::Null));
    assert!(matches!(
        exe.highlight(&t(3), Value::Null, Value::Null, Value::Bool(true), false, &Value::Null),
        Value::Null
    ));
}

#[test]
fn match_reference_is_read_from_a_number() {
    assert_eq!(QueryExecutor::get_match_ref(&Value::Number(1)), Some(1));
    assert_eq!(QueryExecutor::get_match_ref(&Value::Number(255)), Some(255));
    assert_eq!(QueryExecutor::get_match_ref(&Value::Number(257)), Some(1));
    assert_eq!(QueryExecutor::get_match_ref(&Value::Number(-1)), Some(255));
    assert_eq!(QueryExecutor::get_match_ref(&Value::Bool(true)), None);
    assert_eq!(QueryExecutor::get_match_ref(&Value::Null), None);
}

fn ordered_executor() -> QueryExecutor {
    let im = IndexesMap {
        options: vec![],
        definitions: vec![
            def("by_n", 30, TB, Index::Idx),
            def("by_u", 31, TB, Index::Uniq),
            def("by_text", 32, TB, Index::Search),
            def("by_v", 33, TB, Index::MTree),
            def("by_g", 34, TB, Index::Hnsw),
        ],
    };
    let mut stores = no_stores();
    stores.mtree.insert(
        3,
        MTreeIndex::new(
            DocIds::new(vec![t(10), t(11), t(12)]),
            vec![(0, vec![3, 4]), (1, vec![1, 0]), (2, vec![0, 2]), (7, vec![0, 0])],
            Distance::Euclidean,
        ),
    );
    stores.hnsw.insert(
        4,
        HnswIndex::new(vec![(t(1), vec![3, 4]), (t(2), vec![1, 0]), (t(3), vec![0, 2])], Distance::Euclidean),
    );
    let im = IndexesMap {
        options: vec![
            (Expression(50), option(3, IndexOperator::Knn(vec![0, 0], 3))),
            (Expression(51), option(4, IndexOperator::Ann(vec![0, 0], 2, 40))),
        ],
        ..im
    };
    let mut inner = InnerQueryExecutor::new(TB, im, stores, vec![], vec![]).unwrap();
    let entries = vec![
        IteratorEntry::Single(Expression(1), option(0, IndexOperator::Equality(5))),
        IteratorEntry::Single(Expression(2), option(0, IndexOperator::Exactness(5))),
        IteratorEntry::Single(Expression(3), option(0, IndexOperator::Union(vec![7, 5]))),
        IteratorEntry::Range(
            vec![Expression(4), Expression(5)],
            0,
            RangeValue { value: 5, inclusive: true },
            RangeValue { value: 7, inclusive: false },
        ),
        IteratorEntry::Single(Expression(6), option(1, IndexOperator::Equality(5))),
        IteratorEntry::Single(Expression(7), option(1, IndexOperator::Exactness(5))),
        IteratorEntry::Single(Expression(8), option(0, IndexOperator::Matches(b"x".to_vec(), None))),
        IteratorEntry::Single(Expression(9), option(9, IndexOperator::Equality(5))),
        IteratorEntry::Range(
            vec![],
            2,
            RangeValue { value: 5, inclusive: true },
            RangeValue { value: 7, inclusive: false },
        ),
        IteratorEntry::Single(Expression(50), option(3, IndexOperator::Knn(vec![0, 0], 3))),
        IteratorEntry::Single(Expression(51), option(4, IndexOperator::Ann(vec![0, 0], 2, 40))),
        IteratorEntry::Single(Expression(52), option(3, IndexOperator::Knn(vec![0, 0], 3))),
        IteratorEntry::Single(
            Expression(10),
            option(
                0,
                IndexOperator::Join(vec![
                    option(1, IndexOperator::Equality(5)),
                    option(1, IndexOperator::Matches(b"x".to_vec(), None)),
                    option(0, IndexOperator::Union(vec![7])),
                ]),
            ),
        ),
        IteratorEntry::Single(Expression(11), option(1, IndexOperator::Join(vec![]))),
        IteratorEntry::Range(
            vec![],
            1,
            RangeValue { value: 5, inclusive: false },
            RangeValue { value: 7, inclusive: true },
        ),
    ];
    for (i, e) in entries.into_iter().enumerate() {
        assert_eq!(inner.add_iterator(e), i as u16);
    }
    QueryExecutor::from(inner)
}

fn ordered_store() -> Vec<(Vec<u8>, Thing)> {
    let mut rows = vec![];
    for (ix, records) in [(30u32, vec![(1u64, 5i64), (2, 5), (3, 7)]), (31, vec![(1, 5), (3, 7)])] {
        let base = IndexKeyBase::new(1, 2, TB, ix);
        for (id, n) in records {
            rows.push((base.new_entry_key(n, id), t(id)));
        }
    }
    rows.sort();
    rows
}

#[test]
fn iterators_are_made_for_the_operators_that_go_with_the_index() {
    let exe = ordered_executor();
    let opt = Options::new(1, 2);
    let store = ordered_store();
    let run = |it_ref: u16| exe.new_iterator(&opt, it_ref).map(|mut it| drive(&mut it, &store, 2));
    assert_eq!(run(0), Some(vec![t(1), t(2)]));
    assert_eq!(run(1), Some(vec![t(1), t(2)]));
    assert_eq!(run(2), Some(vec![t(3), t(1), t(2)]));
    assert_eq!(run(3), Some(vec![t(1), t(2)]));
    assert_eq!(run(4), Some(vec![t(1)]));
    assert_eq!(run(5), Some(vec![t(1)]));
    assert_eq!(run(6), None);
    assert_eq!(run(7), None);
    assert_eq!(run(8), None);
    // The nearest of the three is a number that names no document
    assert_eq!(run(9), Some(vec![t(11), t(12)]));
    assert_eq!(run(10), Some(vec![t(2), t(3)]));
    assert_eq!(run(11), None);
    assert_eq!(run(13), Some(vec![]));
    assert_eq!(run(14), Some(vec![t(3)]));
    assert_eq!(run(99), None);
    assert!(matches!(exe.new_iterator(&opt, 0), Some(ThingIterator::IndexEqual(_))));
    assert!(matches!(exe.new_iterator(&opt, 2), Some(ThingIterator::IndexUnion(_))));
    assert!(matches!(exe.new_iterator(&opt, 3), Some(ThingIterator::IndexRange(_))));
    assert!(matches!(exe.new_iterator(&opt, 4), Some(ThingIterator::UniqueEqual(_))));
    assert!(matches!(exe.new_iterator(&opt, 9), Some(ThingIterator::Knn(_))));
    assert!(matches!(exe.new_iterator(&opt, 10), Some(ThingIterator::Things(_))));
    assert!(matches!(exe.new_iterator(&opt, 12), Some(ThingIterator::IndexJoin(_))));
    assert!(matches!(exe.new_iterator(&opt, 13), Some(ThingIterator::UniqueJoin(_))));
    assert!(matches!(exe.new_iterator(&opt, 14), Some(ThingIterator::UniqueRange(_))));
}

#[test]
fn join_is_built_from_the_options_that_resolve() {
    let exe = ordered_executor();
    let it = exe.new_iterator(&Options::new(1, 2), 12).unwrap();
    match it {
        ThingIterator::IndexJoin(j) => {
            assert_eq!(j.base, IndexKeyBase::new(1, 2, TB, 30));
            assert_eq!(j.join.remote_iterators.len(), 2);
            assert!(matches!(j.join.remote_iterators[0], ThingIterator::UniqueEqual(_)));
            assert!(matches!(j.join.remote_iterators[1], ThingIterator::IndexUnion(_)));
        }
        _ => panic!("not a join"),
    }
}

#[test]
fn entries_know_their_expressions() {
    let exe = ordered_executor();
    assert!(exe.is_iterator_expression(0, &Expression(1)));
    assert!(!exe.is_iterator_expression(0, &Expression(2)));
    assert!(exe.is_iterator_expression(3, &Expression(4)));
    assert!(exe.is_iterator_expression(3, &Expression(5)));
    assert!(!exe.is_iterator_expression(3, &Expression(6)));
    assert!(!exe.is_iterator_expression(8, &Expression(4)));
    assert!(!exe.is_iterator_expression(99, &Expression(1)));
    assert!(exe.is_table(TB));
    assert!(!exe.is_table(TB + 1));
    assert!(!exe.has_bruteforce_knn());
}

#[test]
fn entries_are_explained() {
    let exe = ordered_executor();
    let e = exe.explain(0).unwrap();
    assert_eq!(e.index.as_deref(), Some("by_n"));
    assert_eq!(e.detail, ExplainDetail::Operator(Operator::Equality));
    let e = exe.explain(3).unwrap();
    assert_eq!(e.index.as_deref(), Some("by_n"));
    assert_eq!(
        e.detail,
        ExplainDetail::Range {
            from: RangeValue { value: 5, inclusive: true },
            to: RangeValue { value: 7, inclusive: false }
        }
    );
    let e = exe.explain(7).unwrap();
    assert_eq!(e.index, None);
    assert_eq!(e.detail, ExplainDetail::Operator(Operator::Equality));
    let e = exe.explain(12).unwrap();
    assert_eq!(e.detail, ExplainDetail::Operator(Operator::Join));
    assert!(exe.explain(99).is_none());
    let entry = IteratorEntry::Single(Expression(1), option(1, IndexOperator::Union(vec![])));
    let e = entry.explain(&vec![def("a", 1, 1, Index::Idx), def("b", 2, 1, Index::Idx)]);
    assert_eq!(e.index.as_deref(), Some("b"));
    assert_eq!(e.detail, ExplainDetail::Operator(Operator::Union));
}

#[test]
fn search_that_fails_fails_the_plan() {
    let mut stores = no_stores();
    stores.hnsw.insert(0, HnswIndex::new(vec![(t(1), vec![3, 4, 5])], Distance::Euclidean));
    let im = IndexesMap {
        options: vec![(Expression(51), option(0, IndexOperator::Ann(vec![0, 0], 2, 40)))],
        definitions: vec![def("by_g", 34, TB, Index::Hnsw)],
    };
    assert!(matches!(
        InnerQueryExecutor::new(TB, im, stores, vec![], vec![]),
        Err(Error::InvalidVectorDimension { current: 3, expected: 2 })
    ));
}

#[test]
fn option_keeps_what_it_was_bound_with() {
    let io = IndexOption::new(3, Idiom(8), IdiomPosition::Right, IndexOperator::Union(vec![1, 2]));
    assert_eq!(io.ix_ref(), 3);
    assert_eq!(*io.id_ref(), Idiom(8));
    assert_eq!(io.id_pos(), IdiomPosition::Right);
    assert!(matches!(io.op(), IndexOperator::Union(v) if *v == vec![1, 2]));
    let opt = Options::new(4, 5);
    assert_eq!(opt.ns(), 4);
    assert_eq!(opt.db(), 5);
    assert_eq!(Idiom(8).compute(None), Vec::<i32>::new());
    let doc = CursorDoc { fields: vec![(Idiom(8), vec![1]), (Idiom(8), vec![2])] };
    assert_eq!(Idiom(8).compute(Some(&doc)), vec![1]);
    assert_eq!(Idiom(9).compute(Some(&doc)), Vec::<i32>::new());
}
