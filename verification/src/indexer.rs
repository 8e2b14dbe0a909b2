//! The index engine: a document store and the posting lists derived from it.
//!
//! An engine is described by what it stores, in the order of ingestion, and by
//! its posting lists: for each term the ids of the documents that were
//! ingested under it, one entry per occurrence. Ingesting never removes or
//! overwrites anything; a lookup is a union over the terms of the query.

use vstd::prelude::*;
use vstd::hash_map::StringHashMap;
use std::collections::HashMap;
use crate::text::texts;
use crate::tokenizer::{terms_of, tokenize};

verus! {

broadcast use vstd::std_specs::hash::group_hash_axioms;

/// A document as its caller hands it in.
pub struct Document {
    pub id: usize,
    pub title: String,
    pub url: String,
    pub content: String,
}

/// What a document holds.
pub struct DocumentView {
    pub id: usize,
    pub title: Seq<char>,
    pub url: Seq<char>,
    pub content: Seq<char>,
}

impl View for Document {
    type V = DocumentView;

    open spec fn view(&self) -> DocumentView {
        DocumentView { id: self.id, title: self.title@, url: self.url@, content: self.content@ }
    }
}

impl Clone for Document {
    fn clone(&self) -> (copy: Self)
        ensures
            copy@ == self@,
    {
        Document {
            id: self.id,
            title: self.title.clone(),
            url: self.url.clone(),
            content: self.content.clone(),
        }
    }
}

/// What each document of `docs` holds.
pub open spec fn document_views(docs: Seq<Document>) -> Seq<DocumentView> {
    Seq::new(docs.len(), |i: int| docs[i]@)
}

/// How often `term` occurs in `terms`.
pub open spec fn occurrences(terms: Seq<Seq<char>>, term: Seq<char>) -> nat
    decreases terms.len(),
{
    if terms.len() == 0 {
        0
    } else if terms.last() == term {
        occurrences(terms.drop_last(), term) + 1
    } else {
        occurrences(terms.drop_last(), term)
    }
}

/// Whether the document at `position` is the earliest of `docs` with `id`.
pub open spec fn is_first_at(docs: Seq<DocumentView>, position: int, id: usize) -> bool {
    &&& 0 <= position < docs.len()
    &&& docs[position].id == id
    &&& forall|j: int| 0 <= j < position ==> (#[trigger] docs[j]).id != id
}

/// Whether some document of `docs` carries `id`.
pub open spec fn carries(docs: Seq<DocumentView>, id: usize) -> bool {
    exists|i: int| 0 <= i < docs.len() && (#[trigger] docs[i]).id == id
}

/// Whether the ids of `docs` ascend without a repeat.
pub open spec fn ids_ascend(docs: Seq<DocumentView>) -> bool {
    forall|i: int, j: int|
        0 <= i < j < docs.len() ==> (#[trigger] docs[i]).id < (#[trigger] docs[j]).id
}

/// The posting list of `term` in `index`; empty for a term without one.
pub open spec fn postings_in(index: Map<Seq<char>, Seq<usize>>, term: Seq<char>) -> Seq<usize> {
    if index.contains_key(term) {
        index[term]
    } else {
        Seq::empty()
    }
}

/// `index` after `id` was posted under each of `terms`: every posting list
/// grows by one `id` for each occurrence of its term.
pub open spec fn posted(index: Map<Seq<char>, Seq<usize>>, terms: Seq<Seq<char>>, id: usize) -> Map<
    Seq<char>,
    Seq<usize>,
> {
    Map::new(
        |t: Seq<char>| index.contains_key(t) || terms.contains(t),
        |t: Seq<char>| postings_in(index, t) + Seq::new(occurrences(terms, t), |k: int| id),
    )
}

/// What an engine holds: the stored documents in the order of ingestion, and
/// the posting list of each term that was ever ingested.
#[verifier::ext_equal]
pub struct EngineView {
    pub documents: Seq<DocumentView>,
    pub index: Map<Seq<char>, Seq<usize>>,
}

impl EngineView {
    /// The engine that holds nothing.
    pub open spec fn empty() -> EngineView {
        EngineView { documents: Seq::empty(), index: Map::empty() }
    }

    /// The posting list of `term`; empty for a term that was never ingested.
    pub open spec fn postings(self, term: Seq<char>) -> Seq<usize> {
        postings_in(self.index, term)
    }

    /// After ingesting `doc` under `terms`: the document is stored last, and
    /// its id is appended to the posting list of each term, once per
    /// occurrence of the term.
    pub open spec fn ingest(self, doc: DocumentView, terms: Seq<Seq<char>>) -> EngineView {
        EngineView {
            documents: self.documents.push(doc),
            index: posted(self.index, terms, doc.id),
        }
    }

    /// Whether some stored document carries `id`.
    pub open spec fn holds_id(self, id: usize) -> bool {
        carries(self.documents, id)
    }

    /// Whether the document at `position` is the earliest stored one with `id`.
    pub open spec fn is_first_at(self, position: int, id: usize) -> bool {
        is_first_at(self.documents, position, id)
    }

    /// Whether `doc` is the earliest stored document with its id.
    pub open spec fn is_earliest(self, doc: DocumentView) -> bool {
        exists|p: int| #[trigger] self.is_first_at(p, doc.id) && self.documents[p] == doc
    }

    /// Whether `id` stands in the posting list of one of `terms`.
    pub open spec fn is_hit(self, terms: Seq<Seq<char>>, id: usize) -> bool {
        exists|k: int| 0 <= k < terms.len() && self.postings(#[trigger] terms[k]).contains(id)
    }

    /// Whether every posted id is the id of a stored document.
    pub open spec fn consistent(self) -> bool {
        forall|t: Seq<char>, id: usize| #[trigger]
            self.postings(t).contains(id) ==> self.holds_id(id)
    }

    /// Whether `found` is the answer to a lookup of `terms`: ordered strictly
    /// ascending by id; holding an id exactly if it is posted under one of
    /// the terms and some stored document carries it; and giving for each id
    /// the earliest stored document that carries it.
    pub open spec fn is_result(self, terms: Seq<Seq<char>>, found: Seq<DocumentView>) -> bool {
        &&& ids_ascend(found)
        &&& forall|id: usize| #[trigger]
            carries(found, id) <==> self.is_hit(terms, id) && self.holds_id(id)
        &&& forall|i: int| 0 <= i < found.len() ==> self.is_earliest(#[trigger] found[i])
    }
}

/// What `terms` holds up to and including position `i`, against what it
/// holds before it.
proof fn lemma_terms_step(terms: Seq<Seq<char>>, i: int, t: Seq<char>)
    requires
        0 <= i < terms.len(),
    ensures
        occurrences(terms.take(i + 1), t) == occurrences(terms.take(i), t) + if terms[i] == t {
            1nat
        } else {
            0nat
        },
        terms.take(i + 1).contains(t) <==> terms.take(i).contains(t) || terms[i] == t,
{
    let longer = terms.take(i + 1);
    assert(longer.drop_last() == terms.take(i));
    assert(longer.last() == terms[i]);
    if terms.take(i).contains(t) {
        let k = choose|k: int| 0 <= k < terms.take(i).len() && terms.take(i)[k] == t;
        assert(longer[k] == t);
    }
    if terms[i] == t {
        assert(longer[i] == t);
    }
}

/// A term that does not occur has no occurrences.
proof fn lemma_occurrences_absent(terms: Seq<Seq<char>>, t: Seq<char>)
    requires
        !terms.contains(t),
    ensures
        occurrences(terms, t) == 0,
    decreases terms.len(),
{
    if terms.len() > 0 {
        assert(terms.last() == terms[terms.len() - 1]);
        assert forall|k: int| 0 <= k < terms.drop_last().len() implies terms.drop_last()[k]
            != t by {
            assert(terms.drop_last()[k] == terms[k]);
        }
        lemma_occurrences_absent(terms.drop_last(), t);
    }
}

/// A term that occurs has at least one occurrence.
proof fn lemma_occurrences_present(terms: Seq<Seq<char>>, t: Seq<char>)
    requires
        terms.contains(t),
    ensures
        occurrences(terms, t) > 0,
    decreases terms.len(),
{
    if terms.last() != t {
        let k = choose|k: int| 0 <= k < terms.len() && terms[k] == t;
        assert(terms.drop_last()[k] == t);
        lemma_occurrences_present(terms.drop_last(), t);
    }
}

/// An id is posted under a term after an ingestion exactly if it was posted
/// there before, or is the ingested id and the term is one of the new terms.
pub proof fn lemma_posted_contains(
    index: Map<Seq<char>, Seq<usize>>,
    terms: Seq<Seq<char>>,
    id: usize,
    t: Seq<char>,
    x: usize,
)
    ensures
        postings_in(posted(index, terms, id), t).contains(x) <==> postings_in(index, t).contains(x)
            || (x == id && terms.contains(t)),
{
    let old_list = postings_in(index, t);
    let added = Seq::new(occurrences(terms, t), |k: int| id);
    let new_list = postings_in(posted(index, terms, id), t);
    if terms.contains(t) {
        lemma_occurrences_present(terms, t);
        assert(new_list == old_list + added);
        assert((old_list + added)[old_list.len() as int] == id);
    } else {
        lemma_occurrences_absent(terms, t);
        assert(old_list + added == old_list);
    }
    if new_list.contains(x) {
        let k = choose|k: int| 0 <= k < new_list.len() && new_list[k] == x;
        if k < old_list.len() {
            assert(old_list[k] == x);
        }
    }
    if old_list.contains(x) {
        let k = choose|k: int| 0 <= k < old_list.len() && old_list[k] == x;
        assert(index.contains_key(t));
        assert(new_list[k] == x);
    }
}

/// Ingesting keeps every posted id among the ids of the stored documents.
pub proof fn lemma_ingest_consistent(before: EngineView, doc: DocumentView, terms: Seq<Seq<char>>)
    requires
        before.consistent(),
    ensures
        before.ingest(doc, terms).consistent(),
{
    let after = before.ingest(doc, terms);
    assert(after.documents[before.documents.len() as int] == doc);
    assert forall|t: Seq<char>, id: usize| #[trigger]
        after.postings(t).contains(id) implies after.holds_id(id) by {
        lemma_posted_contains(before.index, terms, doc.id, t, id);
        if before.postings(t).contains(id) {
            let i = choose|i: int|
                0 <= i < before.documents.len() && (#[trigger] before.documents[i]).id == id;
            assert(after.documents[i].id == id);
        }
    }
}

/// A sequence with one more document carries what it carried, and the id of
/// that document.
proof fn lemma_carries_push(docs: Seq<DocumentView>, doc: DocumentView)
    ensures
        forall|id: usize| #[trigger]
            carries(docs.push(doc), id) <==> carries(docs, id) || doc.id == id,
{
    let longer = docs.push(doc);
    assert forall|id: usize| #[trigger] carries(longer, id) <==> carries(docs, id) || doc.id
        == id by {
        if carries(longer, id) {
            let i = choose|i: int| 0 <= i < longer.len() && (#[trigger] longer[i]).id == id;
            if i < docs.len() {
                assert(docs[i].id == id);
            }
        }
        if carries(docs, id) {
            let i = choose|i: int| 0 <= i < docs.len() && (#[trigger] docs[i]).id == id;
            assert(longer[i].id == id);
        }
        if doc.id == id {
            assert(longer[docs.len() as int].id == id);
        }
    }
}

/// A lookup is a union over its terms: an id is posted under one of the terms
/// of two queries put together exactly if it is posted under a term of the
/// one or of the other.
pub proof fn lemma_hits_of_union(
    engine: EngineView,
    first: Seq<Seq<char>>,
    second: Seq<Seq<char>>,
    id: usize,
)
    ensures
        engine.is_hit(first + second, id) <==> engine.is_hit(first, id) || engine.is_hit(
            second,
            id,
        ),
{
    let both = first + second;
    if engine.is_hit(both, id) {
        let k = choose|k: int|
            0 <= k < both.len() && engine.postings(#[trigger] both[k]).contains(id);
        if k < first.len() {
            assert(engine.postings(first[k]).contains(id));
        } else {
            assert(engine.postings(second[k - first.len()]).contains(id));
        }
    }
    if engine.is_hit(first, id) {
        let k = choose|k: int|
            0 <= k < first.len() && engine.postings(#[trigger] first[k]).contains(id);
        assert(engine.postings(both[k]).contains(id));
    }
    if engine.is_hit(second, id) {
        let k = choose|k: int|
            0 <= k < second.len() && engine.postings(#[trigger] second[k]).contains(id);
        assert(engine.postings(both[k + first.len()]).contains(id));
    }
}

/// The answer to two queries put together holds an id exactly if the answer to
/// the one or to the other holds it: a lookup is a disjunction over its
/// terms, never a conjunction.
pub proof fn lemma_search_is_union(
    engine: EngineView,
    first: Seq<Seq<char>>,
    second: Seq<Seq<char>>,
    found_first: Seq<DocumentView>,
    found_second: Seq<DocumentView>,
    found_both: Seq<DocumentView>,
    id: usize,
)
    requires
        engine.is_result(first, found_first),
        engine.is_result(second, found_second),
        engine.is_result(first + second, found_both),
    ensures
        carries(found_both, id) <==> carries(found_first, id) || carries(found_second, id),
{
    lemma_hits_of_union(engine, first, second, id);
}

/// The empty query has the empty answer, whatever the engine holds.
pub proof fn lemma_no_terms_no_result(engine: EngineView, found: Seq<DocumentView>)
    requires
        engine.is_result(Seq::empty(), found),
    ensures
        found.len() == 0,
{
    if found.len() > 0 {
        assert(carries(found, found[0].id));
    }
}

/// An answer never holds the same id at two places.
pub proof fn lemma_result_ids_distinct(
    engine: EngineView,
    terms: Seq<Seq<char>>,
    found: Seq<DocumentView>,
    i: int,
    j: int,
)
    requires
        engine.is_result(terms, found),
        0 <= i < found.len(),
        0 <= j < found.len(),
        i != j,
    ensures
        found[i].id != found[j].id,
{
    if i < j {
        assert(found[i].id < found[j].id);
    } else {
        assert(found[j].id < found[i].id);
    }
}

/// A document that was ingested under a term is in the answer to every query
/// that holds the term.
pub proof fn lemma_ingested_is_found(
    before: EngineView,
    doc: DocumentView,
    doc_terms: Seq<Seq<char>>,
    query_terms: Seq<Seq<char>>,
    term: Seq<char>,
    found: Seq<DocumentView>,
)
    requires
        doc_terms.contains(term),
        query_terms.contains(term),
        before.ingest(doc, doc_terms).is_result(query_terms, found),
    ensures
        carries(found, doc.id),
{
    let after = before.ingest(doc, doc_terms);
    lemma_posted_contains(before.index, doc_terms, doc.id, term, doc.id);
    let k = choose|k: int| 0 <= k < query_terms.len() && query_terms[k] == term;
    assert(after.postings(query_terms[k]).contains(doc.id));
    assert(after.documents[before.documents.len() as int].id == doc.id);
    assert(after.is_hit(query_terms, doc.id) && after.holds_id(doc.id));
}

/// A document that was ingested twice is still found, and its id stands at
/// one place of the answer only.
pub proof fn lemma_reingested_is_found_once(
    before: EngineView,
    doc: DocumentView,
    doc_terms: Seq<Seq<char>>,
    query_terms: Seq<Seq<char>>,
    term: Seq<char>,
    found: Seq<DocumentView>,
)
    requires
        doc_terms.contains(term),
        query_terms.contains(term),
        before.ingest(doc, doc_terms).ingest(doc, doc_terms).is_result(query_terms, found),
    ensures
        exists|i: int|
            0 <= i < found.len() && (#[trigger] found[i]).id == doc.id && forall|j: int|
                0 <= j < found.len() && (#[trigger] found[j]).id == doc.id ==> j == i,
{
    lemma_ingested_is_found(before.ingest(doc, doc_terms), doc, doc_terms, query_terms, term, found);
    let i = choose|i: int| 0 <= i < found.len() && (#[trigger] found[i]).id == doc.id;
    assert forall|j: int| 0 <= j < found.len() && (#[trigger] found[j]).id == doc.id implies j
        == i by {
        if j != i {
            lemma_result_ids_distinct(
                before.ingest(doc, doc_terms).ingest(doc, doc_terms),
                query_terms,
                found,
                i,
                j,
            );
        }
    }
}

/// Two sequences that ascend by id and carry the same ids hold the same ids
/// at the same places.
proof fn lemma_same_ids(a: Seq<DocumentView>, b: Seq<DocumentView>)
    requires
        ids_ascend(a),
        ids_ascend(b),
        forall|id: usize| #[trigger] carries(a, id) <==> carries(b, id),
    ensures
        a.len() == b.len(),
        forall|i: int| 0 <= i < a.len() ==> (#[trigger] a[i]).id == b[i].id,
    decreases a.len() + b.len(),
{
    if a.len() == 0 {
        if b.len() > 0 {
            assert(carries(b, b[0].id));
            assert(carries(a, b[0].id));
        }
    } else if b.len() == 0 {
        assert(carries(a, a[0].id));
        assert(carries(b, a[0].id));
    } else {
        let top = a.last().id;
        assert(carries(a, top));
        assert(carries(b, top));
        assert(carries(b, b.last().id));
        assert(carries(a, b.last().id));
        let ib = choose|i: int| 0 <= i < b.len() && (#[trigger] b[i]).id == top;
        let ia = choose|i: int| 0 <= i < a.len() && (#[trigger] a[i]).id == b.last().id;
        assert(b.last().id == top) by {
            if ib < b.len() - 1 {
                assert(b[ib].id < b[b.len() - 1].id);
            }
            if ia < a.len() - 1 {
                assert(a[ia].id < a[a.len() - 1].id);
            }
        }
        let a0 = a.drop_last();
        let b0 = b.drop_last();
        assert forall|id: usize| #[trigger] carries(a0, id) <==> carries(b0, id) by {
            if carries(a0, id) {
                let i = choose|i: int| 0 <= i < a0.len() && (#[trigger] a0[i]).id == id;
                assert(a[i].id < a[a.len() - 1].id);
                assert(a[i].id == id);
                assert(carries(a, id));
                assert(carries(b, id));
                let j = choose|j: int| 0 <= j < b.len() && (#[trigger] b[j]).id == id;
                assert(b0[j].id == id);
            }
            if carries(b0, id) {
                let i = choose|i: int| 0 <= i < b0.len() && (#[trigger] b0[i]).id == id;
                assert(b[i].id < b[b.len() - 1].id);
                assert(b[i].id == id);
                assert(carries(b, id));
                assert(carries(a, id));
                let j = choose|j: int| 0 <= j < a.len() && (#[trigger] a[j]).id == id;
                assert(a0[j].id == id);
            }
        }
        assert(ids_ascend(a0)) by {
            assert forall|i: int, j: int| 0 <= i < j < a0.len() implies (#[trigger] a0[i]).id < (
            #[trigger] a0[j]).id by {
                assert(a[i].id < a[j].id);
            }
        }
        assert(ids_ascend(b0)) by {
            assert forall|i: int, j: int| 0 <= i < j < b0.len() implies (#[trigger] b0[i]).id < (
            #[trigger] b0[j]).id by {
                assert(b[i].id < b[j].id);
            }
        }
        lemma_same_ids(a0, b0);
        assert forall|i: int| 0 <= i < a.len() implies (#[trigger] a[i]).id == b[i].id by {
            if i < a0.len() {
                assert(a0[i].id == b0[i].id);
            }
        }
    }
}

/// A lookup has one answer only.
pub proof fn lemma_result_unique(
    engine: EngineView,
    terms: Seq<Seq<char>>,
    found: Seq<DocumentView>,
    other: Seq<DocumentView>,
)
    requires
        engine.is_result(terms, found),
        engine.is_result(terms, other),
    ensures
        found == other,
{
    lemma_same_ids(found, other);
    assert forall|i: int| 0 <= i < found.len() implies found[i] == other[i] by {
        assert(engine.is_earliest(found[i]));
        assert(engine.is_earliest(other[i]));
        let p = choose|p: int| #[trigger]
            engine.is_first_at(p, found[i].id) && engine.documents[p] == found[i];
        let q = choose|q: int| #[trigger]
            engine.is_first_at(q, other[i].id) && engine.documents[q] == other[i];
        assert(found[i].id == other[i].id);
        if p < q {
            assert(engine.documents[p].id != other[i].id);
        }
        if q < p {
            assert(engine.documents[q].id != found[i].id);
        }
    }
    assert(found =~= other);
}

/// The hits of the first `i + 1` terms: those of the first `i`, and what is
/// posted under the term at `i`.
proof fn lemma_hits_step(engine: EngineView, terms: Seq<Seq<char>>, i: int, id: usize)
    requires
        0 <= i < terms.len(),
    ensures
        engine.is_hit(terms.take(i + 1), id) <==> engine.is_hit(terms.take(i), id)
            || engine.postings(terms[i]).contains(id),
{
    let one = seq![terms[i]];
    assert(terms.take(i + 1) == terms.take(i) + one);
    lemma_hits_of_union(engine, terms.take(i), one, id);
    if engine.is_hit(one, id) {
        let k = choose|k: int| 0 <= k < one.len() && engine.postings(#[trigger] one[k]).contains(id);
        assert(one[k] == terms[i]);
    }
    if engine.postings(terms[i]).contains(id) {
        assert(engine.postings(one[0]).contains(id));
    }
}

/// Whether `ids` ascends, repeats allowed.
spec fn ascending(ids: Seq<usize>) -> bool {
    forall|i: int, j: int| 0 <= i <= j < ids.len() ==> ids[i] <= ids[j]
}

/// Whether `ids` ascends without a repeat.
spec fn strictly_ascending(ids: Seq<usize>) -> bool {
    forall|i: int, j: int| 0 <= i < j < ids.len() ==> ids[i] < ids[j]
}

/// `<[usize]>::sort` puts the same ids, each as often as before, into
/// ascending order.
#[verifier::external_body]
fn sort_ascending(ids: &mut Vec<usize>)
    ensures
        final(ids)@.to_multiset() == old(ids)@.to_multiset(),
        ascending(final(ids)@),
{
    ids.sort();
}

/// Appends the ids of `list` to `ids`.
fn append_ids(ids: &mut Vec<usize>, list: &Vec<usize>)
    ensures
        final(ids)@ == old(ids)@ + list@,
{
    let mut k: usize = 0;
    while k < list.len()
        invariant
            k <= list.len(),
            ids@ == old(ids)@ + list@.take(k as int),
        decreases list.len() - k,
    {
        ids.push(list[k]);
        assert(list@.take(k + 1) == list@.take(k as int).push(list@[k as int]));
        k += 1;
    }
    assert(list@.take(list.len() as int) == list@);
}

/// The ids of an ascending list, each once.
fn without_repeats(ids: &Vec<usize>) -> (unique: Vec<usize>)
    requires
        ascending(ids@),
    ensures
        strictly_ascending(unique@),
        forall|id: usize| unique@.contains(id) <==> ids@.contains(id),
{
    let mut unique: Vec<usize> = Vec::new();
    let mut k: usize = 0;
    while k < ids.len()
        invariant
            k <= ids.len(),
            ascending(ids@),
            strictly_ascending(unique@),
            forall|id: usize| unique@.contains(id) <==> ids@.take(k as int).contains(id),
            k > 0 ==> unique@.len() > 0 && unique@.last() == ids@[k - 1],
            k == 0 ==> unique@.len() == 0,
        decreases ids.len() - k,
    {
        let id = ids[k];
        let ghost unique_then = unique@;
        let ghost seen_then = ids@.take(k as int);
        let ghost seen_now = ids@.take(k + 1);
        proof {
            assert(seen_now == seen_then.push(id));
        }
        if k == 0 || ids[k - 1] != id {
            unique.push(id);
            proof {
                assert forall|a: int, b: int| 0 <= a < b < unique@.len() implies unique@[a]
                    < unique@[b] by {
                    if b == unique_then.len() {
                        assert(unique_then.contains(unique_then[a]));
                        let j = choose|j: int|
                            0 <= j < seen_then.len() && seen_then[j] == unique_then[a];
                        assert(ids@[j] <= ids@[k - 1]);
                        assert(unique_then[a] <= unique_then.last());
                    }
                }
                assert forall|x: usize| unique@.contains(x) <==> seen_now.contains(x) by {
                    if unique@.contains(x) {
                        let j = choose|j: int| 0 <= j < unique@.len() && unique@[j] == x;
                        if j < unique_then.len() {
                            assert(unique_then.contains(x));
                            let m = choose|m: int| 0 <= m < seen_then.len() && seen_then[m] == x;
                            assert(seen_now[m] == x);
                        } else {
                            assert(seen_now[k as int] == x);
                        }
                    }
                    if seen_now.contains(x) {
                        let m = choose|m: int| 0 <= m < seen_now.len() && seen_now[m] == x;
                        if m < k {
                            assert(seen_then[m] == x);
                            assert(unique_then.contains(x));
                            let j = choose|j: int|
                                0 <= j < unique_then.len() && unique_then[j] == x;
                            assert(unique@[j] == x);
                        } else {
                            assert(unique@[unique_then.len() as int] == x);
                        }
                    }
                }
            }
        } else {
            proof {
                assert forall|x: usize| unique@.contains(x) <==> seen_now.contains(x) by {
                    if unique@.contains(x) {
                        let m = choose|m: int| 0 <= m < seen_then.len() && seen_then[m] == x;
                        assert(seen_now[m] == x);
                    }
                    if seen_now.contains(x) {
                        let m = choose|m: int| 0 <= m < seen_now.len() && seen_now[m] == x;
                        if m < k {
                            assert(seen_then[m] == x);
                        } else {
                            assert(seen_then[k - 1] == x);
                        }
                        assert(seen_then.contains(x));
                    }
                }
            }
        }
        k += 1;
    }
    assert(ids@.take(ids.len() as int) == ids@);
    unique
}

/// The posting lists that `slots` and `lists` stand for: each term with the
/// list at its slot.
spec fn index_of(slots: Map<Seq<char>, usize>, lists: Seq<Vec<usize>>) -> Map<
    Seq<char>,
    Seq<usize>,
> {
    Map::new(|t: Seq<char>| slots.contains_key(t), |t: Seq<char>| lists[slots[t] as int]@)
}

/// Every term has a slot of its own among the first `n`.
spec fn slots_valid(slots: Map<Seq<char>, usize>, n: nat) -> bool {
    &&& forall|t: Seq<char>| slots.contains_key(t) ==> #[trigger] slots[t] < n
    &&& forall|t: Seq<char>, u: Seq<char>|
        slots.contains_key(t) && slots.contains_key(u) && #[trigger] slots[t] == #[trigger] slots[u]
            ==> t == u
}

/// `first_at` gives for each stored id, and for no other, the position of the
/// earliest document of `docs` with that id.
spec fn positions_valid(first_at: Map<usize, usize>, docs: Seq<DocumentView>) -> bool {
    &&& forall|id: usize| #[trigger]
        first_at.contains_key(id) ==> is_first_at(docs, first_at[id] as int, id)
    &&& forall|i: int| 0 <= i < docs.len() ==> first_at.contains_key((#[trigger] docs[i]).id)
}

/// An in-memory inverted index over the documents it was given.
pub struct SearchEngine {
    documents: Vec<Document>,
    /// For each term the position of its posting list in `postings`.
    slots: StringHashMap<usize>,
    postings: Vec<Vec<usize>>,
    /// For each stored id the position of the earliest document with it.
    first_at: HashMap<usize, usize>,
}

impl View for SearchEngine {
    type V = EngineView;

    closed spec fn view(&self) -> EngineView {
        EngineView {
            documents: document_views(self.documents@),
            index: index_of(self.slots@, self.postings@),
        }
    }
}

impl SearchEngine {
    #[verifier::type_invariant]
    spec fn valid(self) -> bool {
        &&& slots_valid(self.slots@, self.postings@.len())
        &&& positions_valid(self.first_at@, document_views(self.documents@))
        &&& self@.consistent()
    }

    /// An engine that holds no document and no posting list.
    pub fn new() -> (engine: Self)
        ensures
            engine@ == EngineView::empty(),
    {
        let engine = SearchEngine {
            documents: Vec::new(),
            slots: StringHashMap::new(),
            postings: Vec::new(),
            first_at: HashMap::new(),
        };
        assert(engine@.documents =~= Seq::empty());
        assert(engine@.index =~= Map::empty());
        engine
    }

    /// Ingests `doc` under the given terms: posts its id once for each
    /// occurrence of a term, then stores the document.
    pub fn add_tokenized(&mut self, doc: Document, terms: &Vec<String>)
        ensures
            final(self)@ == old(self)@.ingest(doc@, texts(terms@)),
            final(self)@.consistent(),
    {
        proof {
            use_type_invariant(&*self);
        }
        let ghost before = self@;
        let ghost added = doc@;
        let ghost given = texts(terms@);
        let id = doc.id;
        let mut taken = SearchEngine::new();
        std::mem::swap(self, &mut taken);
        let SearchEngine { mut documents, mut slots, mut postings, mut first_at } = taken;
        let ghost stored = document_views(documents@);
        if !first_at.contains_key(&id) {
            first_at.insert(id, documents.len());
        }
        documents.push(doc);
        proof {
            let now = document_views(documents@);
            assert(now == stored.push(added));
            assert forall|k: usize| #[trigger] first_at@.contains_key(k) implies is_first_at(
                now,
                first_at@[k] as int,
                k,
            ) by {
                if !(k == id && first_at@[k] == stored.len()) {
                    assert(is_first_at(stored, first_at@[k] as int, k));
                }
            }
            assert(posted(before.index, given.take(0), id) =~= before.index) by {
                assert forall|t: Seq<char>| before.index.contains_key(t) implies #[trigger] posted(
                    before.index,
                    given.take(0),
                    id,
                )[t] == before.index[t] by {
                    assert(before.index[t] + Seq::new(0, |k: int| id) == before.index[t]);
                }
            }
        }
        let mut i: usize = 0;
        while i < terms.len()
            invariant
                i <= terms.len(),
                given == texts(terms@),
                slots_valid(slots@, postings@.len()),
                index_of(slots@, postings@) == posted(before.index, given.take(i as int), id),
            decreases terms.len() - i,
        {
            let ghost term = given[i as int];
            let ghost index_then = index_of(slots@, postings@);
            let ghost lists_then = postings@;
            let ghost slots_then = slots@;
            proof {
                assert(term == terms@[i as int]@);
            }
            let known = match slots.get(terms[i].as_str()) {
                Some(slot) => Some(*slot),
                None => None,
            };
            match known {
                Some(slot) => {
                    postings[slot].push(id);
                },
                None => {
                    slots.insert(terms[i].clone(), postings.len());
                    let mut list: Vec<usize> = Vec::new();
                    list.push(id);
                    postings.push(list);
                },
            }
            proof {
                let index_now = index_of(slots@, postings@);
                let goal = posted(before.index, given.take(i + 1), id);
                assert forall|t: Seq<char>| index_now.contains_key(t) <==> goal.contains_key(
                    t,
                ) by {
                    lemma_terms_step(given, i as int, t);
                    assert(index_then.contains_key(t) == slots_then.contains_key(t));
                    assert(index_then.contains_key(t) == (before.index.contains_key(t)
                        || given.take(i as int).contains(t)));
                    assert(index_now.contains_key(t) == slots@.contains_key(t));
                    assert(slots@.contains_key(t) == (slots_then.contains_key(t) || t == term));
                }
                assert forall|t: Seq<char>| #[trigger] index_now.contains_key(t) implies index_now[t]
                    == goal[t] by {
                    lemma_terms_step(given, i as int, t);
                    let base = postings_in(before.index, t);
                    let n = occurrences(given.take(i as int), t);
                    if t == term {
                        if slots_then.contains_key(t) {
                            assert(index_then[t] == base + Seq::new(n, |k: int| id));
                            assert(index_now[t] == index_then[t].push(id));
                        } else {
                            lemma_occurrences_absent(given.take(i as int), t);
                            assert(index_now[t] == seq![id]);
                            assert(base == Seq::<usize>::empty());
                        }
                        assert(index_now[t] == base + Seq::new(n + 1, |k: int| id));
                    } else {
                        assert(slots_then.contains_key(t));
                        assert(slots_then[t] == slots@[t]);
                        assert(index_now[t] == index_then[t]);
                    }
                }
                assert(index_now =~= goal);
            }
            i += 1;
        }
        proof {
            assert(given.take(terms.len() as int) == given);
            lemma_ingest_consistent(before, added, given);
        }
        *self = SearchEngine { documents, slots, postings, first_at };
    }

    /// The stored documents that are posted under one of `terms`, each id
    /// once, in ascending order of the ids.
    pub fn search_terms(&self, terms: &Vec<String>) -> (found: Vec<Document>)
        ensures
            self@.is_result(texts(terms@), document_views(found@)),
    {
        proof {
            use_type_invariant(self);
        }
        let ghost given = texts(terms@);
        let mut ids: Vec<usize> = Vec::new();
        let mut i: usize = 0;
        while i < terms.len()
            invariant
                i <= terms.len(),
                given == texts(terms@),
                slots_valid(self.slots@, self.postings@.len()),
                forall|id: usize| ids@.contains(id) <==> self@.is_hit(given.take(i as int), id),
            decreases terms.len() - i,
        {
            let ghost ids_then = ids@;
            let ghost list = self@.postings(given[i as int]);
            proof {
                assert(given[i as int] == terms@[i as int]@);
            }
            match self.slots.get(terms[i].as_str()) {
                Some(slot) => {
                    append_ids(&mut ids, &self.postings[*slot]);
                },
                None => {},
            }
            proof {
                assert(ids@ == ids_then + list);
                assert forall|id: usize| ids@.contains(id) <==> self@.is_hit(
                    given.take(i + 1),
                    id,
                ) by {
                    lemma_hits_step(self@, given, i as int, id);
                    if ids@.contains(id) {
                        let k = choose|k: int| 0 <= k < ids@.len() && ids@[k] == id;
                        if k < ids_then.len() {
                            assert(ids_then[k] == id);
                        } else {
                            assert(list[k - ids_then.len()] == id);
                        }
                    }
                    if ids_then.contains(id) {
                        let k = choose|k: int| 0 <= k < ids_then.len() && ids_then[k] == id;
                        assert(ids@[k] == id);
                    }
                    if list.contains(id) {
                        let k = choose|k: int| 0 <= k < list.len() && list[k] == id;
                        assert(ids@[ids_then.len() + k] == id);
                    }
                }
            }
            i += 1;
        }
        let ghost collected = ids@;
        sort_ascending(&mut ids);
        let unique = without_repeats(&ids);
        proof {
            assert(given.take(terms.len() as int) == given);
            collected.to_multiset_ensures();
            ids@.to_multiset_ensures();
            assert forall|id: usize| unique@.contains(id) <==> self@.is_hit(given, id) by {
                assert(ids@.to_multiset().count(id) == collected.to_multiset().count(id));
            }
        }
        let ghost stored = document_views(self.documents@);
        let mut found: Vec<Document> = Vec::new();
        let mut k: usize = 0;
        while k < unique.len()
            invariant
                k <= unique.len(),
                stored == self@.documents,
                stored == document_views(self.documents@),
                positions_valid(self.first_at@, stored),
                strictly_ascending(unique@),
                ids_ascend(document_views(found@)),
                forall|id: usize| #[trigger]
                    carries(document_views(found@), id) <==> unique@.take(k as int).contains(id)
                        && carries(stored, id),
                forall|a: int|
                    0 <= a < found@.len() ==> self@.is_earliest(
                        #[trigger] document_views(found@)[a],
                    ),
            decreases unique.len() - k,
        {
            let id = unique[k];
            let ghost views_then = document_views(found@);
            let ghost seen_then = unique@.take(k as int);
            let ghost seen_now = unique@.take(k + 1);
            proof {
                assert(seen_now == seen_then.push(id));
                assert forall|x: usize| seen_now.contains(x) <==> seen_then.contains(x) || x
                    == id by {
                    if seen_then.contains(x) {
                        let m = choose|m: int| 0 <= m < seen_then.len() && seen_then[m] == x;
                        assert(seen_now[m] == x);
                    }
                    if x == id {
                        assert(seen_now[k as int] == x);
                    }
                }
            }
            match self.first_at.get(&id) {
                Some(position) => {
                    let doc = self.documents[*position].clone();
                    found.push(doc);
                    proof {
                        let views = document_views(found@);
                        let p = *position as int;
                        assert(is_first_at(stored, p, id));
                        assert(views == views_then.push(stored[p]));
                        lemma_carries_push(views_then, stored[p]);
                        assert(self@.is_first_at(p, stored[p].id));
                        assert forall|a: int, b: int| 0 <= a < b < views.len() implies (
                        #[trigger] views[a]).id < (#[trigger] views[b]).id by {
                            if b == views_then.len() {
                                assert(carries(views_then, views_then[a].id));
                                let m = choose|m: int|
                                    0 <= m < seen_then.len() && seen_then[m] == views_then[a].id;
                                assert(unique@[m] < unique@[k as int]);
                            } else {
                                assert(views_then[a].id < views_then[b].id);
                            }
                        }
                        assert forall|a: int| 0 <= a < found@.len() implies self@.is_earliest(
                            #[trigger] views[a],
                        ) by {
                            if a < views_then.len() {
                                assert(self@.is_earliest(views_then[a]));
                            }
                        }
                    }
                },
                None => {
                    proof {
                        if carries(stored, id) {
                            let a = choose|a: int|
                                0 <= a < stored.len() && (#[trigger] stored[a]).id == id;
                            assert(self.first_at@.contains_key(stored[a].id));
                        }
                    }
                },
            }
            k += 1;
        }
        proof {
            assert(unique@.take(unique.len() as int) == unique@);
        }
        found
    }

    /// The stored documents that hold one of the terms of `query`, each id
    /// once, in ascending order of the ids; none for the empty query.
    pub fn search(&self, query: &str) -> (found: Vec<Document>)
        ensures
            self@.is_result(terms_of(query@), document_views(found@)),
            query@.len() == 0 ==> found@.len() == 0,
    {
        let terms = tokenize(query);
        let found = self.search_terms(&terms);
        proof {
            if query@.len() == 0 && found@.len() > 0 {
                let views = document_views(found@);
                assert(carries(views, views[0].id));
            }
        }
        found
    }

    /// Ingests `doc` under the terms of its content.
    pub fn add_document(&mut self, doc: Document)
        ensures
            final(self)@ == old(self)@.ingest(doc@, terms_of(doc@.content)),
            final(self)@.consistent(),
    {
        let terms = tokenize(doc.content.as_str());
        self.add_tokenized(doc, &terms);
    }
}

} // verus!
