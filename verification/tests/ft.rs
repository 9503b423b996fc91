use surreal_executor::ft::{docs_contain, find_words, highlight_text, DocIds, FtIndex, TermsSet};
use surreal_executor::sql::Thing;

fn t(id: u64) -> Thing {
    Thing { tb: 1, id }
}

/// Indexes the texts of the records `1..` as a full-text index would.
pub fn index(texts: &[&str]) -> FtIndex {
    let mut terms: Vec<Vec<u8>> = vec![];
    let mut postings: Vec<Vec<(u64, u64)>> = vec![];
    let mut lengths = vec![];
    let mut offsets = vec![];
    for (d, text) in texts.iter().enumerate() {
        let bytes = text.as_bytes();
        let words = find_words(bytes);
        lengths.push(words.len() as u64);
        for (s, e) in words {
            let w = bytes[s..e].to_vec();
            let id = match terms.iter().position(|x| *x == w) {
                Some(id) => id,
                None => {
                    terms.push(w);
                    postings.push(vec![]);
                    terms.len() - 1
                }
            };
            match postings[id].iter_mut().find(|p| p.0 == d as u64) {
                Some(p) => p.1 += 1,
                None => postings[id].push((d as u64, 1)),
            }
            match offsets.iter_mut().find(|o: &&mut (u64, u64, Vec<(u32, u32)>)| o.0 == d as u64 && o.1 == id as u64) {
                Some(o) => o.2.push((s as u32, e as u32)),
                None => offsets.push((d as u64, id as u64, vec![(s as u32, e as u32)])),
            }
        }
    }
    let docs = DocIds::new((1..=texts.len() as u64).map(t).collect());
    FtIndex::new(docs, terms, postings, lengths, true, offsets)
}

#[test]
fn words_are_runs_between_blanks() {
    assert_eq!(find_words(b"the quick  brown\tfox"), vec![(0, 3), (4, 9), (11, 16), (17, 20)]);
    assert_eq!(find_words(b"  lazy dog \n"), vec![(2, 6), (7, 10)]);
    assert_eq!(find_words(b""), vec![]);
    assert_eq!(find_words(b" \t\n"), vec![]);
    assert_eq!(find_words(b"fox"), vec![(0, 3)]);
}

#[test]
fn documents_have_numbers() {
    let docs = DocIds::new(vec![t(7), t(8), t(7)]);
    assert_eq!(docs.len(), 3);
    assert_eq!(docs.get_doc_id(&t(7)), Some(0));
    assert_eq!(docs.get_doc_id(&t(8)), Some(1));
    assert_eq!(docs.get_doc_id(&t(9)), None);
    assert_eq!(docs.get_thing(1), Some(t(8)));
    assert_eq!(docs.get_thing(3), None);
}

#[test]
fn query_terms_are_looked_up_in_the_dictionary() {
    let ft = index(&["the quick brown fox", "lazy dog", "quick dog"]);
    let (list, set) = ft.extract_querying_terms(b"quick dog");
    assert_eq!(list, vec![Some(1), Some(5)]);
    assert!(set.is_matchable());
    let (list, set) = ft.extract_querying_terms(b"quick cat quick");
    assert_eq!(list, vec![Some(1), None, Some(1)]);
    assert!(!set.is_matchable());
    let (list, set) = ft.extract_querying_terms(b"  ");
    assert_eq!(list, vec![]);
    assert!(!set.is_matchable());
}

#[test]
fn term_sets_are_compared() {
    let a = TermsSet::from_list(&vec![Some(1), Some(2), Some(1)]);
    let b = TermsSet::from_list(&vec![Some(2), None, Some(1), Some(3)]);
    let none = TermsSet::from_list(&vec![]);
    assert!(a.is_subset(&b));
    assert!(!b.is_subset(&a));
    assert!(a.is_subset(&a));
    assert!(none.is_subset(&a));
    assert!(a.is_matchable());
    assert!(!b.is_matchable());
    assert!(!none.is_matchable());
}

#[test]
fn terms_have_their_documents() {
    let ft = index(&["the quick brown fox", "lazy dog", "quick dog"]);
    let tds = ft.get_terms_docs(&vec![Some(1), None, Some(5), Some(99)]);
    assert_eq!(tds, vec![Some((1, vec![0, 2])), None, Some((5, vec![1, 2])), None]);
    assert!(docs_contain(&vec![0, 2], 2));
    assert!(!docs_contain(&vec![0, 2], 1));
}

#[test]
fn frequencies_and_lengths_are_counted() {
    let ft = index(&["dog eat dog", "lazy dog"]);
    assert_eq!(ft.get_term_frequency(0, 0), 2);
    assert_eq!(ft.get_term_frequency(0, 1), 1);
    assert_eq!(ft.get_term_frequency(1, 1), 0);
    assert_eq!(ft.get_term_frequency(9, 0), 0);
    assert_eq!(ft.total_docs_lengths(), 5);
    let tds = ft.get_terms_docs(&vec![Some(0), Some(1), Some(2)]);
    let s = ft.score_input(&tds, 0).unwrap();
    assert_eq!(s.terms, vec![(2, 2), (1, 1)]);
    assert_eq!(s.doc_length, 3);
    assert_eq!(s.doc_count, 2);
    assert_eq!(s.total_docs_lengths, 5);
    let tds = ft.get_terms_docs(&vec![Some(1)]);
    assert!(ft.score_input(&tds, 1).is_none());
}

#[test]
fn places_are_marked() {
    assert_eq!(highlight_text(b"quick dog", &vec![(0, 5)], b"<b>", b"</b>"), b"<b>quick</b> dog".to_vec());
    assert_eq!(
        highlight_text(b"quick dog", &vec![(6, 9), (0, 5)], b"[", b"]"),
        b"[quick] [dog]".to_vec()
    );
    assert_eq!(highlight_text(b"quick dog", &vec![], b"[", b"]"), b"quick dog".to_vec());
    assert_eq!(highlight_text(b"", &vec![(0, 0)], b"[", b"]"), b"".to_vec());
    assert_eq!(highlight_text(b"ab", &vec![(0, 1), (0, 2)], b"[", b"]"), b"[a]b]".to_vec());
}

#[test]
fn offsets_follow_the_terms_of_the_query() {
    let ft = index(&["dog eat dog", "lazy dog"]);
    let (list, _) = ft.extract_querying_terms(b"eat dog cat");
    assert_eq!(ft.extract_offsets(&t(1), &list), Some(vec![(4, 7), (0, 3), (8, 11)]));
    assert_eq!(ft.extract_offsets(&t(2), &list), Some(vec![(5, 8)]));
    assert_eq!(ft.extract_offsets(&t(3), &list), None);
    assert_eq!(
        ft.highlight(&t(1), &list, b"*", b"*", b"dog eat dog"),
        Some(b"*dog* *eat* *dog*".to_vec())
    );
    assert_eq!(ft.highlight(&t(9), &list, b"*", b"*", b"dog eat dog"), None);
}
