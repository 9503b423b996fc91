//! The full-text session: the documents of an index, its dictionary of
//! terms, and which documents hold which term.

use vstd::prelude::*;
use crate::sql::Thing;

verus! {

/// The number of a document within one index.
pub type DocId = u64;

/// The number of a term within the dictionary of one index.
pub type TermId = u64;

/// The place of the first `t` in `s` at or after `from`.
pub open spec fn first_from<T>(s: Seq<T>, t: T, from: int) -> Option<u64>
    decreases s.len() - from,
{
    if from < 0 || from >= s.len() {
        None
    } else if s[from] == t {
        Some(from as u64)
    } else {
        first_from(s, t, from + 1)
    }
}

/// The place of the first `t` in `s`.
pub open spec fn first_of<T>(s: Seq<T>, t: T) -> Option<u64> {
    first_from(s, t, 0)
}

/// Where there is a first place, `t` stands there; where there is none, `t`
/// stands nowhere at or after `from`.
pub proof fn lemma_first_from<T>(s: Seq<T>, t: T, from: int)
    requires
        0 <= from,
        s.len() <= u64::MAX,
    ensures
        match first_from(s, t, from) {
            Some(d) => from <= d < s.len() && s[d as int] == t && forall|j: int|
                from <= j < d ==> s[j] != t,
            None => forall|j: int| from <= j < s.len() ==> s[j] != t,
        },
    decreases s.len() - from,
{
    if from < s.len() && s[from] != t {
        lemma_first_from(s, t, from + 1);
    }
}

/// The documents of an index: the document with number `d` is the record at
/// place `d`.
#[derive(Debug)]
pub struct DocIds {
    things: Vec<Thing>,
}

impl View for DocIds {
    type V = Seq<Thing>;

    closed spec fn view(&self) -> Seq<Thing> {
        self.things@
    }
}

impl DocIds {
    /// The documents that the records `things` are, numbered by their place.
    pub fn new(things: Vec<Thing>) -> (d: DocIds)
        ensures
            d@ == things@,
    {
        DocIds { things }
    }

    /// The number of documents.
    pub fn len(&self) -> (n: usize)
        ensures
            n == self@.len(),
    {
        self.things.len()
    }

    /// The number of the document that the record `thg` is, if it is one.
    pub fn get_doc_id(&self, thg: &Thing) -> (r: Option<DocId>)
        ensures
            r == first_of(self@, *thg),
    {
        let mut i: usize = 0;
        while i < self.things.len()
            invariant
                i <= self.things.len(),
                first_of(self.things@, *thg) == first_from(self.things@, *thg, i as int),
            decreases self.things.len() - i,
        {
            if self.things[i].tb == thg.tb && self.things[i].id == thg.id {
                return Some(i as u64);
            }
            i += 1;
        }
        None
    }

    /// The record that the document `doc_id` is, if there is such a document.
    pub fn get_thing(&self, doc_id: DocId) -> (r: Option<Thing>)
        ensures
            r == thing_of(self@, doc_id),
    {
        if doc_id < self.things.len() as u64 {
            Some(self.things[doc_id as usize])
        } else {
            None
        }
    }
}

/// The record that the document `d` is among `docs`.
pub open spec fn thing_of(docs: Seq<Thing>, d: DocId) -> Option<Thing> {
    if d < docs.len() {
        Some(docs[d as int])
    } else {
        None
    }
}

/// Whether a byte parts two words: a blank or a control character of the
/// ASCII white space.
pub open spec fn is_sep(b: u8) -> bool {
    b == 0x20 || (0x09 <= b && b <= 0x0d)
}

/// What a reader knows after the first `i` bytes of `text`: the words that
/// have ended, each by the place where it starts and the place behind its
/// end, and where the word that it is in started, if it is in one.
pub open spec fn read_words(text: Seq<u8>, i: nat) -> (Seq<(usize, usize)>, Option<usize>)
    decreases i,
{
    if i == 0 {
        (Seq::empty(), None)
    } else {
        let (done, open) = read_words(text, (i - 1) as nat);
        if is_sep(text[i - 1]) {
            match open {
                Some(s) => (done.push((s, (i - 1) as usize)), None),
                None => (done, None),
            }
        } else {
            match open {
                Some(s) => (done, open),
                None => (done, Some((i - 1) as usize)),
            }
        }
    }
}

/// The words of `text`: its longest runs of bytes that part no words, each
/// by the place where it starts and the place behind its end.
pub open spec fn word_spans(text: Seq<u8>) -> Seq<(usize, usize)> {
    let (done, open) = read_words(text, text.len());
    match open {
        Some(s) => done.push((s, text.len() as usize)),
        None => done,
    }
}

/// The words of `text`, as bytes.
pub open spec fn words(text: Seq<u8>) -> Seq<Seq<u8>> {
    Seq::new(
        word_spans(text).len(),
        |i: int| text.subrange(word_spans(text)[i].0 as int, word_spans(text)[i].1 as int),
    )
}

/// Every word lies within the text and is not empty.
pub proof fn lemma_read_words(text: Seq<u8>, i: nat)
    requires
        i <= text.len(),
        text.len() <= usize::MAX,
    ensures
        forall|j: int|
            0 <= j < read_words(text, i).0.len() ==> (#[trigger] read_words(text, i).0[j]).0
                < read_words(text, i).0[j].1 <= i,
        read_words(text, i).1 is Some ==> read_words(text, i).1->Some_0 < i,
    decreases i,
{
    if i > 0 {
        lemma_read_words(text, (i - 1) as nat);
    }
}

/// Every word lies within the text and is not empty.
pub proof fn lemma_word_spans(text: Seq<u8>)
    requires
        text.len() <= usize::MAX,
    ensures
        forall|j: int|
            0 <= j < word_spans(text).len() ==> (#[trigger] word_spans(text)[j]).0 < word_spans(
                text,
            )[j].1 <= text.len(),
{
    lemma_read_words(text, text.len());
}

/// Finds the words of `text`.
pub fn find_words(text: &[u8]) -> (r: Vec<(usize, usize)>)
    ensures
        r@ == word_spans(text@),
{
    let mut done: Vec<(usize, usize)> = Vec::new();
    let mut open: Option<usize> = None;
    let mut i: usize = 0;
    while i < text.len()
        invariant
            i <= text.len(),
            (done@, open) == read_words(text@, i as nat),
        decreases text.len() - i,
    {
        let b = text[i];
        if b == 0x20 || (0x09 <= b && b <= 0x0d) {
            if let Some(s) = open {
                done.push((s, i));
                open = None;
            }
        } else {
            if open.is_none() {
                open = Some(i);
            }
        }
        i += 1;
    }
    if let Some(s) = open {
        done.push((s, text.len()));
    }
    done
}

/// Decides whether the bytes of `text` from `s` up to `e` are the bytes of `term`.
fn span_is(text: &[u8], s: usize, e: usize, term: &Vec<u8>) -> (r: bool)
    requires
        s <= e <= text@.len(),
    ensures
        r == (text@.subrange(s as int, e as int) == term@),
{
    let n = e - s;
    if term.len() != n {
        return false;
    }
    let ghost w = text@.subrange(s as int, e as int);
    let mut i: usize = 0;
    while i < n
        invariant
            i <= n,
            n == e - s,
            e <= text@.len(),
            term.len() == n,
            w == text@.subrange(s as int, e as int),
            forall|j: int| 0 <= j < i ==> w[j] == term@[j],
        decreases n - i,
    {
        if text[s + i] != term[i] {
            assert(w[i as int] != term@[i as int]);
            return false;
        }
        i += 1;
    }
    assert(w =~= term@);
    true
}

/// The dictionary as a sequence of byte strings.
pub open spec fn dict_view(terms: Seq<Vec<u8>>) -> Seq<Seq<u8>> {
    Seq::new(terms.len(), |i: int| terms[i]@)
}

/// For each word of `text` its number in the dictionary, if it has one.
pub open spec fn terms_list_of(dict: Seq<Seq<u8>>, text: Seq<u8>) -> Seq<Option<TermId>> {
    Seq::new(words(text).len(), |i: int| first_of(dict, words(text)[i]))
}

/// The terms of a text: the numbers of its words that the dictionary knows,
/// and whether it has a word that the dictionary does not know.
#[derive(Debug)]
pub struct TermsSet {
    set: Vec<TermId>,
    has_unknown_terms: bool,
}

impl TermsSet {
    /// The terms held.
    pub closed spec fn terms(&self) -> Set<TermId> {
        self.set@.to_set()
    }

    /// Whether some word had no number.
    pub closed spec fn has_unknown(&self) -> bool {
        self.has_unknown_terms
    }

    /// The set was made from `list`: it holds the numbers that occur in the
    /// list, and it has an unknown term exactly if the list has a gap.
    pub open spec fn is_of(&self, list: Seq<Option<TermId>>) -> bool {
        &&& forall|t: TermId| self.terms().contains(t) <==> list.contains(Some(t))
        &&& self.has_unknown() <==> list.contains(None::<TermId>)
    }

    /// Makes the set of the terms in `list`.
    pub fn from_list(list: &Vec<Option<TermId>>) -> (r: TermsSet)
        ensures
            r.is_of(list@),
    {
        let mut set: Vec<TermId> = Vec::new();
        let mut has_unknown_terms = false;
        let mut i: usize = 0;
        while i < list.len()
            invariant
                i <= list.len(),
                forall|t: TermId| set@.contains(t) <==> list@.subrange(0, i as int).contains(Some(t)),
                has_unknown_terms <==> list@.subrange(0, i as int).contains(None::<TermId>),
            decreases list.len() - i,
        {
            let ghost before = list@.subrange(0, i as int);
            let ghost after = list@.subrange(0, i + 1);
            let ghost old_set = set@;
            assert(after =~= before.push(list@[i as int]));
            match list[i] {
                Some(t) => {
                    set.push(t);
                },
                None => {
                    has_unknown_terms = true;
                },
            }
            proof {
                assert forall|t: TermId| set@.contains(t) <==> after.contains(Some(t)) by {
                    if after.contains(Some(t)) {
                        let j = choose|j: int| 0 <= j < after.len() && after[j] == Some(t);
                        if j < i {
                            assert(before[j] == Some(t));
                            assert(old_set.contains(t));
                            let a = choose|a: int| 0 <= a < old_set.len() && old_set[a] == t;
                            assert(set@[a] == t);
                        } else {
                            assert(set@[set@.len() - 1] == t);
                        }
                    }
                    if set@.contains(t) {
                        let a = choose|a: int| 0 <= a < set@.len() && set@[a] == t;
                        if a < old_set.len() {
                            assert(old_set[a] == t);
                            assert(old_set.contains(t));
                            assert(before.contains(Some(t)));
                            let j = choose|j: int| 0 <= j < before.len() && before[j] == Some(t);
                            assert(after[j] == Some(t));
                        } else {
                            assert(after[i as int] == Some(t));
                        }
                    }
                }
                if after.contains(None::<TermId>) {
                    let j = choose|j: int| 0 <= j < after.len() && after[j] == None::<TermId>;
                    if j < i {
                        assert(before[j] == None::<TermId>);
                    }
                }
                if before.contains(None::<TermId>) {
                    let j = choose|j: int| 0 <= j < before.len() && before[j] == None::<TermId>;
                    assert(after[j] == None::<TermId>);
                }
                if list@[i as int] is None {
                    assert(after[i as int] == None::<TermId>);
                }
            }
            i += 1;
        }
        assert(list@.subrange(0, i as int) =~= list@);
        let r = TermsSet { set, has_unknown_terms };
        assert forall|t: TermId| r.terms().contains(t) <==> list@.contains(Some(t)) by {
            assert(r.terms().contains(t) <==> set@.contains(t));
        }
        r
    }

    /// Whether a document can match at all: there is a term, and every word
    /// is known to the dictionary.
    pub fn is_matchable(&self) -> (b: bool)
        ensures
            b == (self.terms() != Set::<TermId>::empty() && !self.has_unknown()),
    {
        proof {
            if self.set@.len() > 0 {
                assert(self.set@.contains(self.set@[0]));
                assert(self.terms().contains(self.set@[0]));
            } else {
                assert(self.terms() =~= Set::<TermId>::empty());
            }
        }
        self.set.len() > 0 && !self.has_unknown_terms
    }

    /// Whether every term of this set is a term of `other`.
    pub fn is_subset(&self, other: &TermsSet) -> (b: bool)
        ensures
            b == self.terms().subset_of(other.terms()),
    {
        let mut i: usize = 0;
        while i < self.set.len()
            invariant
                i <= self.set.len(),
                forall|a: int| 0 <= a < i ==> other.set@.contains(#[trigger] self.set@[a]),
            decreases self.set.len() - i,
        {
            let t = self.set[i];
            let mut j: usize = 0;
            let mut found = false;
            while j < other.set.len()
                invariant
                    j <= other.set.len(),
                    found ==> other.set@.contains(t),
                    !found ==> forall|b: int| 0 <= b < j ==> other.set@[b] != t,
                decreases other.set.len() - j,
            {
                if other.set[j] == t {
                    found = true;
                }
                j += 1;
            }
            if !found {
                assert(!other.set@.contains(t));
                assert(self.terms().contains(t)) by {
                    assert(self.set@.contains(self.set@[i as int]));
                }
                assert(!other.terms().contains(t));
                return false;
            }
            i += 1;
        }
        assert forall|t: TermId| self.terms().contains(t) implies other.terms().contains(t) by {
            assert(self.set@.contains(t));
            let a = choose|a: int| 0 <= a < self.set@.len() && self.set@[a] == t;
            assert(other.set@.contains(self.set@[a]));
        }
        true
    }
}

/// What one document holds of one term: the document, and how often the term
/// occurs in it.
pub type Posting = (DocId, u64);

/// For each term of a query, in the query's order, its number and the
/// documents that hold it; nothing for a word without a number and for a
/// term that no document holds.
pub type TermsDocs = Vec<Option<(TermId, Vec<DocId>)>>;

/// The documents of a list of postings.
pub open spec fn docs_of(postings: Seq<Posting>) -> Seq<DocId> {
    Seq::new(postings.len(), |i: int| postings[i].0)
}

/// What the index holds for the term `t`: its number and the documents that
/// hold it, or nothing if it has no number or no document holds it.
pub open spec fn term_docs_of(
    postings: Seq<Vec<Posting>>,
    t: Option<TermId>,
) -> Option<(TermId, Seq<DocId>)> {
    match t {
        Some(id) => if id < postings.len() && postings[id as int]@.len() > 0 {
            Some((id, docs_of(postings[id as int]@)))
        } else {
            None
        },
        None => None,
    }
}

/// The view of what was found for one term.
pub open spec fn term_docs_view(td: Option<(TermId, Vec<DocId>)>) -> Option<(TermId, Seq<DocId>)> {
    match td {
        Some((id, docs)) => Some((id, docs@)),
        None => None,
    }
}

/// The view of what was found for the terms of a query.
pub open spec fn terms_docs_view(
    tds: Seq<Option<(TermId, Vec<DocId>)>>,
) -> Seq<Option<(TermId, Seq<DocId>)>> {
    Seq::new(tds.len(), |i: int| term_docs_view(tds[i]))
}

/// What the index holds for each term of `list`.
pub open spec fn terms_docs_of(
    postings: Seq<Vec<Posting>>,
    list: Seq<Option<TermId>>,
) -> Seq<Option<(TermId, Seq<DocId>)>> {
    Seq::new(list.len(), |i: int| term_docs_of(postings, list[i]))
}

/// A place in a text: the byte where it starts and the byte behind its end.
pub type Offset = (u32, u32);

/// Where one term stands in one document.
pub type TermOffsets = (DocId, TermId, Vec<Offset>);

/// The places that the first entry for the document `d` and the term `t` at
/// or after `from` holds, or none if there is no such entry.
pub open spec fn offsets_from(all: Seq<TermOffsets>, d: DocId, t: TermId, from: int) -> Seq<Offset>
    decreases all.len() - from,
{
    if from < 0 || from >= all.len() {
        Seq::empty()
    } else if all[from].0 == d && all[from].1 == t {
        all[from].2@
    } else {
        offsets_from(all, d, t, from + 1)
    }
}

/// The places where the terms of `list` stand in the document `d`: term
/// after term in the order of the list, and for each term in the order in
/// which the index holds them.
pub open spec fn doc_offsets(
    all: Seq<TermOffsets>,
    d: DocId,
    list: Seq<Option<TermId>>,
) -> Seq<Offset>
    decreases list.len(),
{
    if list.len() == 0 {
        Seq::empty()
    } else {
        let rest = doc_offsets(all, d, list.drop_last());
        match list.last() {
            Some(t) => rest + offsets_from(all, d, t, 0),
            None => rest,
        }
    }
}

/// Whether one of `offs` starts at the byte `i`.
pub open spec fn starts_at(offs: Seq<Offset>, i: int) -> bool {
    exists|j: int| 0 <= j < offs.len() && (#[trigger] offs[j]).0 == i
}

/// Whether one of `offs` ends before the byte `i`.
pub open spec fn ends_at(offs: Seq<Offset>, i: int) -> bool {
    exists|j: int| 0 <= j < offs.len() && (#[trigger] offs[j]).1 == i
}

/// The first `n` bytes of `text` with the places `offs` marked: `prefix`
/// stands before the byte where a place starts, `suffix` behind the byte
/// before which a place ends.
pub open spec fn highlighted(
    text: Seq<u8>,
    offs: Seq<Offset>,
    prefix: Seq<u8>,
    suffix: Seq<u8>,
    n: nat,
) -> Seq<u8>
    decreases n,
{
    if n == 0 {
        Seq::empty()
    } else {
        highlighted(text, offs, prefix, suffix, (n - 1) as nat) + (if starts_at(offs, n - 1) {
            prefix
        } else {
            Seq::empty()
        }) + seq![text[n - 1]] + (if ends_at(offs, n as int) {
            suffix
        } else {
            Seq::empty()
        })
    }
}

/// How often the first posting for the document `d` at or after `from` says
/// that its term occurs, or 0 if there is no such posting.
pub open spec fn frequency_from(postings: Seq<Posting>, d: DocId, from: int) -> u64
    decreases postings.len() - from,
{
    if from < 0 || from >= postings.len() {
        0
    } else if postings[from].0 == d {
        postings[from].1
    } else {
        frequency_from(postings, d, from + 1)
    }
}

/// How often the term `t` occurs in the document `d`.
pub open spec fn term_frequency(postings: Seq<Vec<Posting>>, t: TermId, d: DocId) -> u64 {
    if t < postings.len() {
        frequency_from(postings[t as int]@, d, 0)
    } else {
        0
    }
}

/// For each term of the query that occurs in the document `d`, in the
/// query's order: how often it occurs there, and how many documents hold it.
pub open spec fn score_terms(
    postings: Seq<Vec<Posting>>,
    tds: Seq<Option<(TermId, Seq<DocId>)>>,
    d: DocId,
) -> Seq<(u64, u64)>
    decreases tds.len(),
{
    if tds.len() == 0 {
        Seq::empty()
    } else {
        let rest = score_terms(postings, tds.drop_last(), d);
        match tds.last() {
            Some((t, docs)) => if term_frequency(postings, t, d) > 0 {
                rest.push((term_frequency(postings, t, d), docs.len() as u64))
            } else {
                rest
            },
            None => rest,
        }
    }
}

/// The sum of the lengths of the documents.
pub open spec fn total_length(lengths: Seq<u64>) -> nat
    decreases lengths.len(),
{
    if lengths.len() == 0 {
        0
    } else {
        total_length(lengths.drop_last()) + lengths.last() as nat
    }
}

/// The length of the document `d`, or 0 if the index has none for it.
pub open spec fn length_of(lengths: Seq<u64>, d: DocId) -> u64 {
    if d < lengths.len() {
        lengths[d as int]
    } else {
        0
    }
}

/// What the rank of a document for a query is computed from.
#[derive(Debug)]
pub struct ScoreInput {
    /// The number of words of the document.
    pub doc_length: u64,
    /// The number of documents of the index.
    pub doc_count: u64,
    /// The number of words of all documents of the index.
    pub total_docs_lengths: u128,
    /// For each term of the query that occurs in the document: how often it
    /// occurs there, and how many documents hold it.
    pub terms: Vec<(u64, u64)>,
}

/// Appends the bytes of `src` to `out`.
fn append_bytes(out: &mut Vec<u8>, src: &[u8])
    ensures
        final(out)@ == old(out)@ + src@,
{
    let mut i: usize = 0;
    while i < src.len()
        invariant
            i <= src.len(),
            out@ == old(out)@ + src@.subrange(0, i as int),
        decreases src.len() - i,
    {
        out.push(src[i]);
        assert(out@ =~= old(out)@ + src@.subrange(0, i + 1));
        i += 1;
    }
    assert(src@.subrange(0, i as int) =~= src@);
}

/// Marks the places `offs` in `text`.
pub fn highlight_text(text: &[u8], offs: &Vec<Offset>, prefix: &[u8], suffix: &[u8]) -> (r: Vec<u8>)
    ensures
        r@ == highlighted(text@, offs@, prefix@, suffix@, text@.len()),
{
    let mut out: Vec<u8> = Vec::new();
    let mut i: usize = 0;
    while i < text.len()
        invariant
            i <= text.len(),
            out@ == highlighted(text@, offs@, prefix@, suffix@, i as nat),
        decreases text.len() - i,
    {
        let mut starts = false;
        let mut ends = false;
        let mut j: usize = 0;
        while j < offs.len()
            invariant
                j <= offs.len(),
                i < text.len(),
                starts <==> starts_at(offs@.subrange(0, j as int), i as int),
                ends <==> ends_at(offs@.subrange(0, j as int), i + 1),
            decreases offs.len() - j,
        {
            let ghost before = offs@.subrange(0, j as int);
            let ghost after = offs@.subrange(0, j + 1);
            proof {
                assert(after =~= before.push(offs@[j as int]));
                if starts_at(before, i as int) {
                    let a = choose|a: int| 0 <= a < before.len() && (#[trigger] before[a]).0 == i;
                    assert(after[a].0 == i);
                }
                if ends_at(before, i + 1) {
                    let a = choose|a: int| 0 <= a < before.len() && (#[trigger] before[a]).1 == i + 1;
                    assert(after[a].1 == i + 1);
                }
                if starts_at(after, i as int) && !starts_at(before, i as int) {
                    let a = choose|a: int| 0 <= a < after.len() && (#[trigger] after[a]).0 == i;
                    if a < j {
                        assert(before[a].0 == i);
                    }
                }
                if ends_at(after, i + 1) && !ends_at(before, i + 1) {
                    let a = choose|a: int| 0 <= a < after.len() && (#[trigger] after[a]).1 == i + 1;
                    if a < j {
                        assert(before[a].1 == i + 1);
                    }
                }
            }
            if offs[j].0 as usize == i {
                starts = true;
                assert(after[j as int].0 == i);
            }
            if i < usize::MAX && offs[j].1 as usize == i + 1 {
                ends = true;
                assert(after[j as int].1 == i + 1);
            }
            j += 1;
        }
        assert(offs@.subrange(0, j as int) =~= offs@);
        let ghost head = out@;
        if starts {
            append_bytes(&mut out, prefix);
        }
        out.push(text[i]);
        if ends {
            append_bytes(&mut out, suffix);
        }
        proof {
            let p = if starts { prefix@ } else { Seq::<u8>::empty() };
            let s = if ends { suffix@ } else { Seq::<u8>::empty() };
            assert(out@ =~= head + p + seq![text@[i as int]] + s);
        }
        i += 1;
    }
    out
}

/// A session over one full-text index.
#[derive(Debug)]
pub struct FtIndex {
    /// The documents of the index.
    pub doc_ids: DocIds,
    /// The dictionary: the term with number `t` is the byte string at place `t`.
    pub terms: Vec<Vec<u8>>,
    /// For the term with number `t`, at place `t`, the documents that hold it.
    pub postings: Vec<Vec<Posting>>,
    /// For the document with number `d`, at place `d`, the number of its words.
    pub doc_lengths: Vec<u64>,
    /// Whether the index ranks its matches.
    pub scoring: bool,
    /// Where each term stands in each document.
    pub offsets: Vec<TermOffsets>,
}

impl FtIndex {
    /// A session over what an index holds.
    pub fn new(
        doc_ids: DocIds,
        terms: Vec<Vec<u8>>,
        postings: Vec<Vec<Posting>>,
        doc_lengths: Vec<u64>,
        scoring: bool,
        offsets: Vec<TermOffsets>,
    ) -> (ft: FtIndex)
        ensures
            ft == (FtIndex { doc_ids, terms, postings, doc_lengths, scoring, offsets }),
    {
        FtIndex { doc_ids, terms, postings, doc_lengths, scoring, offsets }
    }

    /// How often the term `t` occurs in the document `d`.
    pub fn get_term_frequency(&self, t: TermId, d: DocId) -> (r: u64)
        ensures
            r == term_frequency(self.postings@, t, d),
    {
        if t < self.postings.len() as u64 {
            let p = &self.postings[t as usize];
            let mut i: usize = 0;
            while i < p.len()
                invariant
                    i <= p.len(),
                    t < self.postings.len(),
                    p@ == self.postings@[t as int]@,
                    frequency_from(p@, d, 0) == frequency_from(p@, d, i as int),
                decreases p.len() - i,
            {
                if p[i].0 == d {
                    return p[i].1;
                }
                i += 1;
            }
        }
        0
    }

    /// The sum of the lengths of the documents.
    pub fn total_docs_lengths(&self) -> (r: u128)
        ensures
            r == total_length(self.doc_lengths@),
    {
        let mut sum: u128 = 0;
        let mut i: usize = 0;
        while i < self.doc_lengths.len()
            invariant
                i <= self.doc_lengths.len(),
                sum == total_length(self.doc_lengths@.subrange(0, i as int)),
                sum <= i * 0xffff_ffff_ffff_ffff,
            decreases self.doc_lengths.len() - i,
        {
            assert(self.doc_lengths@.subrange(0, i + 1).drop_last() =~= self.doc_lengths@.subrange(
                0,
                i as int,
            ));
            sum = sum + self.doc_lengths[i] as u128;
            i += 1;
        }
        assert(self.doc_lengths@.subrange(0, i as int) =~= self.doc_lengths@);
        sum
    }

    /// What the rank of the document `d` for a query is computed from, given
    /// what was found for the terms of the query; or nothing if the document
    /// holds none of the terms.
    pub fn score_input(&self, terms_docs: &TermsDocs, d: DocId) -> (r: Option<ScoreInput>)
        ensures
            score_terms(self.postings@, terms_docs_view(terms_docs@), d).len() == 0 <==> r is None,
            r is Some ==> {
                &&& r->Some_0.terms@ == score_terms(self.postings@, terms_docs_view(terms_docs@), d)
                &&& r->Some_0.doc_length == length_of(self.doc_lengths@, d)
                &&& r->Some_0.doc_count == self.doc_ids@.len()
                &&& r->Some_0.total_docs_lengths == total_length(self.doc_lengths@)
            },
    {
        let ghost tds = terms_docs_view(terms_docs@);
        let mut terms: Vec<(u64, u64)> = Vec::new();
        let mut i: usize = 0;
        while i < terms_docs.len()
            invariant
                i <= terms_docs.len(),
                tds == terms_docs_view(terms_docs@),
                terms@ == score_terms(self.postings@, tds.subrange(0, i as int), d),
            decreases terms_docs.len() - i,
        {
            assert(tds.subrange(0, i + 1).drop_last() =~= tds.subrange(0, i as int));
            assert(tds.subrange(0, i + 1).last() == term_docs_view(terms_docs@[i as int]));
            if let Some((t, docs)) = &terms_docs[i] {
                let tf = self.get_term_frequency(*t, d);
                if tf > 0 {
                    terms.push((tf, docs.len() as u64));
                }
            }
            i += 1;
        }
        assert(tds.subrange(0, i as int) =~= tds);
        if terms.len() == 0 {
            return None;
        }
        let doc_length = if d < self.doc_lengths.len() as u64 {
            self.doc_lengths[d as usize]
        } else {
            0
        };
        Some(
            ScoreInput {
                doc_length,
                doc_count: self.doc_ids.len() as u64,
                total_docs_lengths: self.total_docs_lengths(),
                terms,
            },
        )
    }

    /// The places where the terms of `list` stand in the document that the
    /// record `thg` is, or nothing if the record is no document.
    pub fn extract_offsets(
        &self,
        thg: &Thing,
        list: &Vec<Option<TermId>>,
    ) -> (r: Option<Vec<Offset>>)
        ensures
            match first_of(self.doc_ids@, *thg) {
                Some(d) => r is Some && r->Some_0@ == doc_offsets(self.offsets@, d, list@),
                None => r is None,
            },
    {
        let d = match self.doc_ids.get_doc_id(thg) {
            Some(d) => d,
            None => {
                return None;
            },
        };
        let mut out: Vec<Offset> = Vec::new();
        let mut i: usize = 0;
        while i < list.len()
            invariant
                i <= list.len(),
                out@ == doc_offsets(self.offsets@, d, list@.subrange(0, i as int)),
            decreases list.len() - i,
        {
            assert(list@.subrange(0, i + 1).drop_last() =~= list@.subrange(0, i as int));
            if let Some(t) = list[i] {
                let ghost head = out@;
                let mut j: usize = 0;
                let mut found = false;
                while j < self.offsets.len() && !found
                    invariant
                        j <= self.offsets.len(),
                        !found ==> out@ == head && offsets_from(self.offsets@, d, t, 0) == offsets_from(
                            self.offsets@,
                            d,
                            t,
                            j as int,
                        ),
                        found ==> out@ == head + offsets_from(self.offsets@, d, t, 0),
                    decreases self.offsets.len() - j + if found { 0int } else { 1int },
                {
                    if self.offsets[j].0 == d && self.offsets[j].1 == t {
                        let src = &self.offsets[j].2;
                        let mut k: usize = 0;
                        while k < src.len()
                            invariant
                                k <= src.len(),
                                out@ == head + src@.subrange(0, k as int),
                            decreases src.len() - k,
                        {
                            out.push(src[k]);
                            assert(out@ =~= head + src@.subrange(0, k + 1));
                            k += 1;
                        }
                        assert(src@.subrange(0, k as int) =~= src@);
                        found = true;
                    } else {
                        j += 1;
                    }
                }
                assert(!found ==> out@ =~= head + offsets_from(self.offsets@, d, t, 0));
            }
            i += 1;
        }
        assert(list@.subrange(0, i as int) =~= list@);
        Some(out)
    }

    /// The text of `doc` with the places marked where the terms of `list`
    /// stand in the document that the record `thg` is; or nothing if the
    /// record is no document.
    pub fn highlight(
        &self,
        thg: &Thing,
        list: &Vec<Option<TermId>>,
        prefix: &[u8],
        suffix: &[u8],
        doc: &[u8],
    ) -> (r: Option<Vec<u8>>)
        ensures
            match first_of(self.doc_ids@, *thg) {
                Some(d) => r is Some && r->Some_0@ == highlighted(
                    doc@,
                    doc_offsets(self.offsets@, d, list@),
                    prefix@,
                    suffix@,
                    doc@.len(),
                ),
                None => r is None,
            },
    {
        match self.extract_offsets(thg, list) {
            Some(offs) => Some(highlight_text(doc, &offs, prefix, suffix)),
            None => None,
        }
    }

    /// The number of the word that `text` has from `s` up to `e`.
    fn term_id(&self, text: &[u8], s: usize, e: usize) -> (r: Option<TermId>)
        requires
            s <= e <= text@.len(),
        ensures
            r == first_of(dict_view(self.terms@), text@.subrange(s as int, e as int)),
    {
        let ghost dict = dict_view(self.terms@);
        let ghost w = text@.subrange(s as int, e as int);
        let mut i: usize = 0;
        while i < self.terms.len()
            invariant
                i <= self.terms.len(),
                s <= e <= text@.len(),
                dict == dict_view(self.terms@),
                w == text@.subrange(s as int, e as int),
                first_of(dict, w) == first_from(dict, w, i as int),
            decreases self.terms.len() - i,
        {
            if span_is(text, s, e, &self.terms[i]) {
                return Some(i as u64);
            }
            i += 1;
        }
        None
    }

    /// The terms of a text, in the order of its words, and as a set.
    pub fn extract_querying_terms(&self, query: &[u8]) -> (r: (Vec<Option<TermId>>, TermsSet))
        ensures
            r.0@ == terms_list_of(dict_view(self.terms@), query@),
            r.1.is_of(r.0@),
    {
        let spans = find_words(query);
        let bytes = query.len();
        proof {
            assert(query@.len() == bytes);
            lemma_word_spans(query@);
        }
        let mut list: Vec<Option<TermId>> = Vec::new();
        let mut i: usize = 0;
        while i < spans.len()
            invariant
                i <= spans.len(),
                spans@ == word_spans(query@),
                forall|j: int|
                    0 <= j < spans@.len() ==> (#[trigger] spans@[j]).0 < spans@[j].1 <= query@.len(),
                list@ == terms_list_of(dict_view(self.terms@), query@).subrange(0, i as int),
            decreases spans.len() - i,
        {
            let (s, e) = spans[i];
            let t = self.term_id(query, s, e);
            list.push(t);
            assert(list@ =~= terms_list_of(dict_view(self.terms@), query@).subrange(0, i + 1));
            i += 1;
        }
        assert(list@ =~= terms_list_of(dict_view(self.terms@), query@));
        let set = TermsSet::from_list(&list);
        (list, set)
    }

    /// For each term of `list` the documents that hold it.
    pub fn get_terms_docs(&self, list: &Vec<Option<TermId>>) -> (r: TermsDocs)
        ensures
            terms_docs_view(r@) == terms_docs_of(self.postings@, list@),
    {
        let mut r: TermsDocs = Vec::new();
        let mut i: usize = 0;
        while i < list.len()
            invariant
                i <= list.len(),
                terms_docs_view(r@) == terms_docs_of(self.postings@, list@).subrange(0, i as int),
            decreases list.len() - i,
        {
            let td = match list[i] {
                Some(id) => {
                    if id < self.postings.len() as u64 && self.postings[id as usize].len() > 0 {
                        let p = &self.postings[id as usize];
                        let mut docs: Vec<DocId> = Vec::new();
                        let mut j: usize = 0;
                        while j < p.len()
                            invariant
                                j <= p.len(),
                                docs@ == docs_of(p@).subrange(0, j as int),
                            decreases p.len() - j,
                        {
                            docs.push(p[j].0);
                            assert(docs@ =~= docs_of(p@).subrange(0, j + 1));
                            j += 1;
                        }
                        assert(docs@ =~= docs_of(p@));
                        Some((id, docs))
                    } else {
                        None
                    }
                },
                None => None,
            };
            assert(term_docs_view(td) == term_docs_of(self.postings@, list@[i as int]));
            let ghost before = terms_docs_view(r@);
            let ghost found = term_docs_view(td);
            r.push(td);
            assert(terms_docs_view(r@) =~= before.push(found));
            assert(before.push(found) =~= terms_docs_of(self.postings@, list@).subrange(0, i + 1));
            i += 1;
        }
        assert(terms_docs_view(r@) =~= terms_docs_of(self.postings@, list@));
        r
    }
}

/// Decides whether `d` is among `docs`.
pub fn docs_contain(docs: &Vec<DocId>, d: DocId) -> (r: bool)
    ensures
        r == docs@.contains(d),
{
    let mut i: usize = 0;
    while i < docs.len()
        invariant
            i <= docs.len(),
            forall|j: int| 0 <= j < i ==> docs@[j] != d,
        decreases docs.len() - i,
    {
        if docs[i] == d {
            return true;
        }
        i += 1;
    }
    false
}

} // verus!
