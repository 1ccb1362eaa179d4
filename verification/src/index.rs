//! The inverted index over a catalog.
//!
//! The index itself is `probly_search::Index`, and the scores are those of its
//! `zero_to_one` scorer. What this module takes on trust of them is said on
//! the items that say it; the rest is proved. The index looks tokens up by
//! their start, so it holds out more documents than answer a query: what it
//! gives are candidates, from which the search takes its results.

use vstd::prelude::*;
use probly_search::Index;
use probly_search::score::zero_to_one;
use crate::catalog::{Catalog, Program, ProgramView};
use crate::ranking::QueryResult;
use crate::text::{split_on, tokenizer};

verus! {

/// `probly_search::Index`, the inverted index. Nothing of what is inside it is
/// known here: it is spoken of through `indexed_texts` and `field_count`.
#[verifier::external_type_specification]
#[verifier::external_body]
#[verifier::reject_recursive_types(T)]
pub struct ExIndex<T>(probly_search::Index<T>);

/// The documents that an index holds: at position `k` the field texts of the
/// document that was added with the key `k`.
pub uninterp spec fn indexed_texts(index: Index<usize>) -> Seq<Seq<Seq<char>>>;

/// The number of fields that an index was made for.
pub uninterp spec fn field_count(index: Index<usize>) -> nat;

/// The score, as the bit pattern of a double, that the scorer `zero_to_one`
/// gives the document `key` among `documents` for `query`. What the score is
/// is not said here; that it depends on nothing but these three is taken on
/// trust.
pub uninterp spec fn zero_to_one_score(
    documents: Seq<Seq<Seq<char>>>,
    query: Seq<char>,
    key: usize,
) -> u64;

/// Whether a token of `text` starts with a token of `query` that is not empty.
pub open spec fn starts_token(text: Seq<char>, query: Seq<char>) -> bool {
    exists|t: int, q: int|
        {
            &&& 0 <= t < split_on(text, ' ').len()
            &&& 0 <= q < split_on(query, ' ').len()
            &&& (#[trigger] split_on(query, ' ')[q]).len() > 0
            &&& split_on(query, ' ')[q].is_prefix_of(#[trigger] split_on(text, ' ')[t])
        }
}

/// Whether the index holds a document with the field texts `fields` out as a
/// candidate for `query`: one of its texts has a token that starts with a
/// token of the query.
pub open spec fn is_candidate(fields: Seq<Seq<char>>, query: Seq<char>) -> bool {
    exists|f: int| 0 <= f < fields.len() && starts_token(#[trigger] fields[f], query)
}

/// The keys of the documents that the index holds out as candidates for
/// `query`. Those that answer it are among them; which do is decided
/// elsewhere.
pub open spec fn candidate_keys(documents: Seq<Seq<Seq<char>>>, query: Seq<char>) -> Set<usize> {
    Set::new(|key: usize| key < documents.len() && is_candidate(documents[key as int], query))
}

/// `Index::new`: an index for documents of `fields` fields, which holds none.
/// Only an index of one field is asked for.
#[verifier::external_body]
fn new_index(fields: usize) -> (index: Index<usize>)
    requires
        fields == 1,
    ensures
        indexed_texts(index) == Seq::<Seq<Seq<char>>>::empty(),
        field_count(index) == fields,
{
    Index::new(fields)
}

/// `Index::add_document`, for an index of one field, with the one accessor
/// `Program::indexable_fields` and with `tokenizer`: the program's field texts
/// are added under `key`, which is the next free position.
#[verifier::external_body]
fn add_program(index: &mut Index<usize>, key: usize, program: &Program)
    requires
        field_count(*old(index)) == 1,
        key == indexed_texts(*old(index)).len(),
    ensures
        indexed_texts(*final(index)) == indexed_texts(*old(index)).push(
            program@.indexable_texts(),
        ),
        field_count(*final(index)) == 1,
{
    index.add_document(&[Program::indexable_fields], tokenizer, key, program)
}

/// `Index::query` with the scorer `zero_to_one` and with `tokenizer`. The
/// query's tokens that are not empty are looked up as prefixes of the indexed
/// tokens, so the documents that come back are the candidates for the query,
/// and no others; with each comes the bit pattern of the score that the
/// scorer gave it. Nothing is said of the order in which they come.
#[verifier::external_body]
fn query_index(index: &Index<usize>, query: &str) -> (hits: Vec<QueryResult>)
    ensures
        forall|i: int|
            0 <= i < hits@.len() ==> {
                &&& candidate_keys(indexed_texts(*index), query@).contains((#[trigger] hits@[i]).key)
                &&& hits@[i].score == zero_to_one_score(
                    indexed_texts(*index),
                    query@,
                    hits@[i].key,
                )
            },
        forall|key: usize| #[trigger]
            candidate_keys(indexed_texts(*index), query@).contains(key) ==> exists|i: int|
                0 <= i < hits@.len() && (#[trigger] hits@[i]).key == key,
{
    index.query(query, &mut zero_to_one::new(), tokenizer, &[])
        .into_iter()
        .map(|r| QueryResult { key: r.key, score: r.score.to_bits() })
        .collect()
}

/// The field texts of the programs of a catalog, in its order.
pub open spec fn document_texts(programs: Seq<ProgramView>) -> Seq<Seq<Seq<char>>> {
    Seq::new(programs.len(), |i: int| programs[i].indexable_texts())
}

/// An index over the programs of one catalog. It is built in one step and
/// does not change afterwards.
pub struct SearchIndex {
    inner: Index<usize>,
}

impl SearchIndex {
    /// The field texts of the documents in the index, each at its key.
    pub closed spec fn documents(&self) -> Seq<Seq<Seq<char>>> {
        indexed_texts(self.inner)
    }

    /// Builds the index of `catalog`: each program is a document under its
    /// key, with the tokens of its identifier, description and package name.
    pub fn build(catalog: &Catalog) -> (index: SearchIndex)
        ensures
            index.documents() == document_texts(catalog@),
    {
        let mut inner = new_index(1);
        let count = catalog.len();
        let mut key: usize = 0;
        while key < count
            invariant
                count == catalog@.len(),
                key <= count,
                field_count(inner) == 1,
                indexed_texts(inner) == document_texts(catalog@).take(key as int),
            decreases count - key,
        {
            let program = catalog.program(key);
            add_program(&mut inner, key, program);
            assert(document_texts(catalog@).take(key + 1) == document_texts(catalog@).take(
                key as int,
            ).push(program@.indexable_texts()));
            key += 1;
        }
        assert(document_texts(catalog@).take(count as int) == document_texts(catalog@));
        SearchIndex { inner }
    }

    /// The candidates for `text`, in no stated order: every document with a
    /// token that a token of `text` starts, with the score that the scorer
    /// gives it.
    pub(crate) fn candidates(&self, text: &str) -> (hits: Vec<QueryResult>)
        ensures
            forall|i: int|
                0 <= i < hits@.len() ==> {
                    &&& candidate_keys(self.documents(), text@).contains((#[trigger] hits@[i]).key)
                    &&& hits@[i].score == zero_to_one_score(
                        self.documents(),
                        text@,
                        hits@[i].key,
                    )
                },
            forall|key: usize| #[trigger]
                candidate_keys(self.documents(), text@).contains(key) ==> exists|i: int|
                    0 <= i < hits@.len() && (#[trigger] hits@[i]).key == key,
    {
        query_index(&self.inner, text)
    }
}

} // verus!
